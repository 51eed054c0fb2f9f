//! The application state and the operations on the load order.

use vstd::prelude::*;
use vstd::string::StringExecFns;

use crate::model::{
    mod_views, preview_views, slot_views, sorted_by_text, version_views, ModEntry, ModView,
    PreviewLine, PreviewView, Slot, SlotView, VersionInfo, VersionView,
};
use crate::order::{
    indices, models, picked, sort_by_keys, sorted_indices, swap, swapped, SortKey,
};
use crate::paths::text_map;
use crate::steam::{ws_views, WsInfo, WsView};
use crate::strmap::StrMap;
use crate::text::{
    digit, eq_ignore_ascii_case, lowercase, opt_text, same, same_ignoring_case, texts, to_chars,
    to_lowercase, trim, trimmed,
};
use crate::ui::{line_views, LineView, StatusLine};

verus! {

/// What the screen shows on top of the two panes.
#[derive(Clone, Copy, PartialEq, Eq, Structural)]
pub enum Mode {
    Browse,
    Profiles,
    NameInput,
    Status,
    Help,
    VersionPicker,
    RequirementPicker,
}

/// The two panes: the mods that could be added, and the load order.
#[derive(Clone, Copy, PartialEq, Eq, Structural)]
pub enum Pane {
    Available,
    Profile,
}

/// The state of the application.
pub struct App {
    /// The launcher's list of mods, for display.
    pub path: String,
    /// Every known mod. Never reordered.
    pub pool: Vec<ModEntry>,
    /// The load order.
    pub slots: Vec<Slot>,
    pub focus: Pane,
    /// The selected row among the available mods.
    pub avail_sel: Option<usize>,
    /// The selected slot of the load order.
    pub prof_sel: Option<usize>,
    /// There are unsaved changes.
    pub dirty: bool,
    pub status: String,
    pub confirm_quit: bool,
    pub mode: Mode,
    /// The profile that was last applied or saved.
    pub current_profile: Option<String>,
    /// What Steam has installed, by Workshop item id.
    pub ws: StrMap<WsInfo>,
    pub game_buildid: Option<String>,
    /// The pinned manifest of each mod id of the current profile.
    pub pins: StrMap<String>,
    pub pinned_buildid: Option<String>,
    pub profiles: Vec<String>,
    /// The selected row in the list of profiles.
    pub profile_sel: Option<usize>,
    /// Which profile the preview shows.
    pub preview_for: Option<String>,
    pub preview: Vec<PreviewLine>,
    pub confirm_delete: bool,
    pub input: String,
    /// The profile that the name input renames; without one it creates.
    pub rename_from: Option<String>,
    pub status_lines: Vec<StatusLine>,
    /// A preview of the merged `data/` is mounted and must be unmounted.
    pub preview_mounted: bool,
    /// Since when a report on the overlay of a launch is awaited.
    pub overlay_watch_since: Option<u64>,
    /// The mod whose versions the version picker shows.
    pub version_mod: Option<usize>,
    pub versions: Vec<VersionInfo>,
    pub version_sel: Option<usize>,
    /// The slot whose requirements are being edited.
    pub req_slot: Option<usize>,
    pub req_sel: Option<usize>,
}

/// What the state of the application says.
#[verifier::ext_equal]
pub struct AppView {
    pub path: Seq<char>,
    pub pool: Seq<ModView>,
    pub slots: Seq<SlotView>,
    pub focus: Pane,
    pub avail_sel: Option<usize>,
    pub prof_sel: Option<usize>,
    pub dirty: bool,
    pub status: Seq<char>,
    pub confirm_quit: bool,
    pub mode: Mode,
    pub current_profile: Option<Seq<char>>,
    pub ws: Map<Seq<char>, WsView>,
    pub game_buildid: Option<Seq<char>>,
    pub pins: Map<Seq<char>, Seq<char>>,
    pub pinned_buildid: Option<Seq<char>>,
    pub profiles: Seq<Seq<char>>,
    pub profile_sel: Option<usize>,
    pub preview_for: Option<Seq<char>>,
    pub preview: Seq<PreviewView>,
    pub confirm_delete: bool,
    pub input: Seq<char>,
    pub rename_from: Option<Seq<char>>,
    pub status_lines: Seq<LineView>,
    pub preview_mounted: bool,
    pub overlay_watch_since: Option<u64>,
    pub version_mod: Option<usize>,
    pub versions: Seq<VersionView>,
    pub version_sel: Option<usize>,
    pub req_slot: Option<usize>,
    pub req_sel: Option<usize>,
}

impl View for App {
    type V = AppView;

    open spec fn view(&self) -> AppView {
        AppView {
            path: self.path@,
            pool: mod_views(self.pool@),
            slots: slot_views(self.slots@),
            focus: self.focus,
            avail_sel: self.avail_sel,
            prof_sel: self.prof_sel,
            dirty: self.dirty,
            status: self.status@,
            confirm_quit: self.confirm_quit,
            mode: self.mode,
            current_profile: opt_text(self.current_profile),
            ws: ws_views(self.ws@),
            game_buildid: opt_text(self.game_buildid),
            pins: text_map(self.pins@),
            pinned_buildid: opt_text(self.pinned_buildid),
            profiles: texts(self.profiles@),
            profile_sel: self.profile_sel,
            preview_for: opt_text(self.preview_for),
            preview: preview_views(self.preview@),
            confirm_delete: self.confirm_delete,
            input: self.input@,
            rename_from: opt_text(self.rename_from),
            status_lines: line_views(self.status_lines@),
            preview_mounted: self.preview_mounted,
            overlay_watch_since: self.overlay_watch_since,
            version_mod: self.version_mod,
            versions: version_views(self.versions@),
            version_sel: self.version_sel,
            req_slot: self.req_slot,
            req_sel: self.req_sel,
        }
    }
}

/// The numbers of a list.
pub open spec fn ints(v: Seq<usize>) -> Seq<int> {
    v.map_values(|i: usize| i as int)
}

/// The smaller of two numbers.
pub open spec fn least(a: int, b: int) -> int {
    if a < b {
        a
    } else {
        b
    }
}

/// `x`, kept between `lo` and `hi`.
pub open spec fn clamped(x: int, lo: int, hi: int) -> int {
    if x < lo {
        lo
    } else if x > hi {
        hi
    } else {
        x
    }
}

/// A selection that lies within a list of `len` rows.
pub open spec fn selected_in(sel: Option<usize>, len: nat) -> bool {
    sel is Some && sel->0 < len
}

/// Every slot whose mod is installed points into a pool of `pool_len` mods.
pub open spec fn slots_fit(slots: Seq<SlotView>, pool_len: nat) -> bool {
    forall|k: int|
        0 <= k < slots.len() ==> (#[trigger] slots[k]).is_below(pool_len)
}

impl AppView {
    /// Every index points at something: the slots and the version picker into
    /// the pool, the requirement picker at a slot. Requirements are only
    /// edited while their picker is open.
    pub open spec fn fits(self) -> bool {
        &&& slots_fit(self.slots, self.pool.len())
        &&& self.version_mod matches Some(i) ==> i < self.pool.len()
        &&& self.req_slot matches Some(i) ==> i < self.slots.len() && self.mode
            == Mode::RequirementPicker
    }

    pub open spec fn with_status(self, text: Seq<char>) -> AppView {
        AppView { status: text, ..self }
    }

    /// The slot `s` names a mod whose pinned version is not the one that Steam
    /// has installed now.
    pub open spec fn updated(self, s: SlotView) -> bool {
        &&& self.pins.contains_key(s.id)
        &&& s.idx matches Some(i)
        &&& self.pool[i as int].steam_id matches Some(sid)
        &&& self.ws.contains_key(sid)
        &&& self.ws[sid].manifest.len() > 0
        &&& self.ws[sid].manifest != self.pins[s.id]
    }

    /// The mod of the slot `s` is not there.
    pub open spec fn is_missing(self, s: SlotView) -> bool {
        match s.idx {
            Some(i) => self.pool[i as int].missing,
            None => true,
        }
    }

    /// The mod `i` of the pool is in the load order.
    pub open spec fn in_order(self, i: int) -> bool {
        exists|k: int|
            0 <= k < self.slots.len() && (#[trigger] self.slots[k]).is_mod(i)
    }

    /// The installed mods that are not in the load order, by position in the
    /// pool.
    pub open spec fn free(self) -> Seq<int> {
        indices(self.pool.len()).filter(
            |i: int| !self.pool[i].missing && !self.in_order(i),
        )
    }

    /// The installed mods that are not in the load order, sorted by name.
    pub open spec fn available(self) -> Seq<int> {
        sorted_by_text(self.free(), self.free().map_values(|i: int| lowercase(self.pool[i].name)))
    }

    /// How many rows the focused pane has.
    pub open spec fn focused_len(self) -> nat {
        match self.focus {
            Pane::Available => self.available().len(),
            Pane::Profile => self.slots.len(),
        }
    }

    pub open spec fn focused_sel(self) -> Option<usize> {
        match self.focus {
            Pane::Available => self.avail_sel,
            Pane::Profile => self.prof_sel,
        }
    }

    pub open spec fn with_focused_sel(self, sel: Option<usize>) -> AppView {
        match self.focus {
            Pane::Available => AppView { avail_sel: sel, ..self },
            Pane::Profile => AppView { prof_sel: sel, ..self },
        }
    }

    /// The selection of the focused pane moved by `delta`, within its rows.
    pub open spec fn selection_moved(self, delta: int) -> AppView {
        if selected_in(self.focused_sel(), self.focused_len()) {
            self.with_focused_sel(
                Some(
                    clamped(self.focused_sel()->0 + delta, 0, self.focused_len() - 1) as usize,
                ),
            )
        } else {
            self
        }
    }

    /// The selection of the focused pane at its first or last row.
    pub open spec fn edge_selected(self, end: bool) -> AppView {
        if self.focused_len() > 0 {
            self.with_focused_sel(
                Some(
                    if end {
                        (self.focused_len() - 1) as usize
                    } else {
                        0
                    },
                ),
            )
        } else {
            self
        }
    }

    /// The other pane focused, with something selected in it if it has rows.
    pub open spec fn pane_switched(self) -> AppView {
        let t = AppView {
            focus: match self.focus {
                Pane::Available => Pane::Profile,
                Pane::Profile => Pane::Available,
            },
            ..self
        };
        if selected_in(t.focused_sel(), t.focused_len()) {
            t
        } else if t.focused_len() == 0 {
            t.with_focused_sel(None)
        } else {
            t.with_focused_sel(Some(0))
        }
    }

    /// The selected available mod at the end of the load order, enabled.
    pub open spec fn selected_added(self) -> AppView {
        let avail = self.available();
        if selected_in(self.avail_sel, avail.len()) {
            let sel = self.avail_sel->0;
            let i = avail[sel as int];
            let left = avail.len() - 1;
            AppView {
                slots: self.slots.push(
                    SlotView {
                        id: self.pool[i].id,
                        idx: Some(i as usize),
                        enabled: true,
                        requires: Seq::empty(),
                    },
                ),
                dirty: true,
                avail_sel: if left == 0 {
                    None
                } else {
                    Some(least(sel as int, left - 1) as usize)
                },
                prof_sel: if self.prof_sel is None {
                    Some(self.slots.len() as usize)
                } else {
                    self.prof_sel
                },
                ..self
            }
        } else {
            self
        }
    }

    /// A slot's display name: the mod's name, or the id if it is not
    /// installed.
    pub open spec fn name_of_slot(self, k: int) -> Seq<char> {
        match self.slots[k].idx {
            Some(i) => self.pool[i as int].name,
            None => self.slots[k].id,
        }
    }

    /// The selected slot enabled or disabled in place.
    pub open spec fn selected_toggled(self) -> AppView {
        if selected_in(self.prof_sel, self.slots.len()) {
            let k = self.prof_sel->0 as int;
            let on = !self.slots[k].enabled;
            AppView {
                slots: self.slots.update(k, SlotView { enabled: on, ..self.slots[k] }),
                dirty: true,
                status: if on {
                    "Enabled '"@ + self.name_of_slot(k) + "'"@
                } else {
                    "Disabled '"@ + self.name_of_slot(k) + "' (kept in the load order)"@
                },
                ..self
            }
        } else {
            self
        }
    }

    /// Some slot satisfies the requirement `req`: it is that mod, it is
    /// enabled, and it is there.
    pub open spec fn satisfied(self, req: Seq<char>) -> bool {
        exists|k: int|
            0 <= k < self.slots.len() && (#[trigger] self.slots[k]).enabled && same_ignoring_case(
                self.slots[k].id,
                req,
            ) && !self.is_missing(self.slots[k])
    }

    /// The first mod of the pool with the given id.
    pub open spec fn pool_find(self, id: Seq<char>) -> Option<int> {
        first_with_id(self.pool, id, 0)
    }

    /// The name of the mod with the given id, or the id itself.
    pub open spec fn mod_name(self, id: Seq<char>) -> Seq<char> {
        match self.pool_find(id) {
            Some(i) => self.pool[i].name,
            None => id,
        }
    }

    /// The names of the required mods that no slot satisfies.
    pub open spec fn unmet(self, reqs: Seq<Seq<char>>) -> Seq<Seq<char>>
        decreases reqs.len(),
    {
        if reqs.len() == 0 {
            Seq::empty()
        } else {
            let rest = self.unmet(reqs.drop_last());
            if self.satisfied(reqs.last()) {
                rest
            } else {
                rest.push(self.mod_name(reqs.last()))
            }
        }
    }

    /// The slots that can be marked as requirements: all but the edited one.
    pub open spec fn candidates(self) -> Seq<int> {
        match self.req_slot {
            Some(r) => indices(self.slots.len()).filter(|i: int| i != r),
            None => Seq::empty(),
        }
    }
}

/// The first mod at or after `from` whose id is `id`, whatever the case.
pub open spec fn first_with_id(pool: Seq<ModView>, id: Seq<char>, from: int) -> Option<int>
    decreases pool.len() - from,
{
    if from >= pool.len() {
        None
    } else if same_ignoring_case(pool[from].id, id) {
        Some(from)
    } else {
        first_with_id(pool, id, from + 1)
    }
}

/// The first position of `id` among the requirements, whatever the case.
pub open spec fn first_same(reqs: Seq<Seq<char>>, id: Seq<char>, from: int) -> Option<int>
    decreases reqs.len() - from,
{
    if from >= reqs.len() {
        None
    } else if same_ignoring_case(reqs[from], id) {
        Some(from)
    } else {
        first_same(reqs, id, from + 1)
    }
}

/// The requirements with `id` added, or taken out if it was among them.
pub open spec fn requirement_flipped(reqs: Seq<Seq<char>>, id: Seq<char>) -> Seq<Seq<char>> {
    match first_same(reqs, id, 0) {
        Some(p) => reqs.remove(p),
        None => reqs.push(id),
    }
}

impl App {
    /// The pinned manifest of the slot's mod differs from what is installed.
    pub fn slot_updated(&self, s: &Slot) -> (r: bool)
        requires
            s.idx matches Some(i) ==> i < self.pool@.len(),
        ensures
            r == self@.updated(s@),
    {
        let pinned = match self.pins.get(s.id.as_str()) {
            Some(p) => p,
            None => {
                return false;
            },
        };
        let i = match s.idx {
            Some(i) => i,
            None => {
                return false;
            },
        };
        assert(self@.pool[i as int] == self.pool@[i as int]@);
        match &self.pool[i].steam_id {
            Some(sid) => match self.ws.get(sid.as_str()) {
                Some(w) => !w.manifest.as_str().is_empty() && w.manifest != *pinned,
                None => false,
            },
            None => false,
        }
    }

    /// Make `name` the current profile. The caller remembers the choice across
    /// restarts.
    pub fn set_current(&mut self, name: Option<String>)
        ensures
            final(self)@ == (AppView { current_profile: opt_text(name), ..old(self)@ }),
    {
        self.current_profile = name;
    }

    /// Whether the mod `i` is in the load order.
    pub fn is_in_order(&self, i: usize) -> (r: bool)
        ensures
            r == self@.in_order(i as int),
    {
        let mut k: usize = 0;
        while k < self.slots.len()
            invariant
                k <= self.slots@.len(),
                forall|j: int|
                    0 <= j < k ==> !(#[trigger] self@.slots[j]).is_mod(i as int),
            decreases self.slots@.len() - k,
        {
            assert(self@.slots[k as int] == self.slots@[k as int]@);
            match self.slots[k].idx {
                Some(x) => if x == i {
                    return true;
                },
                None => {},
            }
            k = k + 1;
        }
        false
    }

    /// The installed mods that are not in the load order, sorted by name.
    pub fn available(&self) -> (r: Vec<usize>)
        ensures
            ints(r@) == self@.available(),
            forall|k: int| 0 <= k < r@.len() ==> #[trigger] r@[k] < self.pool@.len(),
    {
        let ghost all = indices(self.pool@.len());
        let ghost keep = |i: int| !self@.pool[i].missing && !self@.in_order(i);
        let mut free: Vec<usize> = Vec::new();
        let mut keys: Vec<String> = Vec::new();
        let mut i: usize = 0;
        proof {
            reveal(Seq::filter);
            assert(all.take(0) =~= Seq::<int>::empty());
            assert(ints(free@) =~= all.take(0).filter(keep));
            assert(texts(keys@) =~= ints(free@).map_values(
                |i: int| lowercase(self@.pool[i].name),
            ));
        }
        while i < self.pool.len()
            invariant
                i <= self.pool@.len(),
                all == indices(self.pool@.len()),
                keep == (|i: int| !self@.pool[i].missing && !self@.in_order(i)),
                ints(free@) == all.take(i as int).filter(keep),
                forall|k: int| 0 <= k < free@.len() ==> #[trigger] free@[k] < self.pool@.len(),
                texts(keys@) == ints(free@).map_values(|i: int| lowercase(self@.pool[i].name)),
            decreases self.pool@.len() - i,
        {
            proof {
                reveal(Seq::filter);
                assert(all.take(i + 1).drop_last() =~= all.take(i as int));
                assert(all.take(i + 1).last() == i);
                assert(self@.pool[i as int] == self.pool@[i as int]@);
            }
            if !self.pool[i].missing && !self.is_in_order(i) {
                let ghost f0 = free@;
                let ghost k0 = keys@;
                let key = to_lowercase(self.pool[i].name());
                keys.push(key);
                free.push(i);
                proof {
                    assert(ints(free@) =~= ints(f0).push(i as int));
                    assert(texts(keys@) =~= texts(k0).push(key@));
                    assert(texts(keys@) =~= ints(free@).map_values(
                        |i: int| lowercase(self@.pool[i].name),
                    ));
                }
            }
            i = i + 1;
        }
        let ghost f = free@;
        let ghost ks = texts(keys@);
        proof {
            assert(all.take(i as int) =~= all);
            assert(ints(f) == self@.free());
            assert(ks.len() == keys@.len() && ints(f).len() == f.len());
            assert(models(keys@) =~= ks);
            <String as SortKey>::order_is_strict_weak();
            crate::order::sorted_indices_are_a_permutation(ks, <String as SortKey>::order());
        }
        let r = sort_by_keys(free, keys);
        proof {
            let ord = sorted_indices(ks, <String as SortKey>::order());
            assert(ints(r@) =~= picked(ints(f), ord));
            assert forall|k: int| 0 <= k < r@.len() implies #[trigger] r@[k] < self.pool@.len() by {
                assert(r@[k] == f[ord[k]]);
            }
        }
        r
    }

    /// The mod of a slot is not there.
    pub fn slot_missing(&self, s: &Slot) -> (r: bool)
        requires
            s.idx matches Some(i) ==> i < self.pool@.len(),
        ensures
            r == self@.is_missing(s@),
    {
        match s.idx {
            Some(i) => self.pool[i].missing,
            None => true,
        }
    }

    /// How many rows the focused pane has.
    pub fn focused_len(&self) -> (r: usize)
        ensures
            r == self@.focused_len(),
    {
        match self.focus {
            Pane::Available => {
                let a = self.available();
                assert(ints(a@).len() == a@.len());
                a.len()
            },
            Pane::Profile => self.slots.len(),
        }
    }

    /// The selected row of the focused pane.
    pub fn focused_state(&self) -> (r: Option<usize>)
        ensures
            r == self@.focused_sel(),
    {
        match self.focus {
            Pane::Available => self.avail_sel,
            Pane::Profile => self.prof_sel,
        }
    }

    /// Select a row of the focused pane.
    pub fn select_focused(&mut self, sel: Option<usize>)
        ensures
            final(self)@ == old(self)@.with_focused_sel(sel),
    {
        match self.focus {
            Pane::Available => {
                self.avail_sel = sel;
            },
            Pane::Profile => {
                self.prof_sel = sel;
            },
        }
    }

    /// Move the selection of the focused pane.
    pub fn move_selection(&mut self, delta: isize)
        ensures
            final(self)@ == old(self)@.selection_moved(delta as int),
    {
        let len = self.focused_len();
        match self.focused_state() {
            Some(i) => if i < len {
                let j: i128 = i as i128 + delta as i128;
                let k: usize = if j < 0 {
                    0
                } else if j > len as i128 - 1 {
                    len - 1
                } else {
                    j as usize
                };
                self.select_focused(Some(k));
            },
            None => {},
        }
    }

    /// Select the first or the last row of the focused pane.
    pub fn select_edge(&mut self, end: bool)
        ensures
            final(self)@ == old(self)@.edge_selected(end),
    {
        let len = self.focused_len();
        if len > 0 {
            let k: usize = if end {
                len - 1
            } else {
                0
            };
            self.select_focused(Some(k));
        }
    }

    /// Focus the other pane.
    pub fn switch_pane(&mut self)
        ensures
            final(self)@ == old(self)@.pane_switched(),
    {
        self.focus = match self.focus {
            Pane::Available => Pane::Profile,
            Pane::Profile => Pane::Available,
        };
        let len = self.focused_len();
        let inside = match self.focused_state() {
            Some(i) => i < len,
            None => false,
        };
        if !inside {
            self.select_focused(
                if len == 0 {
                    None
                } else {
                    Some(0)
                },
            );
        }
    }

    /// Move the selected available mod into the load order.
    pub fn add_selected(&mut self)
        ensures
            final(self)@ == old(self)@.selected_added(),
    {
        let avail = self.available();
        assert(ints(avail@).len() == avail@.len());
        let sel: usize = match self.avail_sel {
            Some(s) => s,
            None => {
                return;
            },
        };
        if sel >= avail.len() {
            return;
        }
        let i: usize = avail[sel];
        assert(ints(avail@)[sel as int] == i);
        assert(self@.pool[i as int] == self.pool@[i as int]@);
        let id = self.pool[i].id.clone();
        let slot = Slot { id, idx: Some(i), enabled: true, requires: Vec::new() };
        let ghost s0 = self.slots@;
        self.slots.push(slot);
        proof {
            assert(texts(slot.requires@) =~= Seq::<Seq<char>>::empty());
            assert(slot_views(self.slots@) =~= slot_views(s0).push(slot@));
        }
        self.dirty = true;
        let left: usize = avail.len() - 1;
        self.avail_sel = if left == 0 {
            None
        } else if sel < left - 1 {
            Some(sel)
        } else {
            Some(left - 1)
        };
        if self.prof_sel.is_none() {
            self.prof_sel = Some(self.slots.len() - 1);
        }
    }

    /// A slot's display name.
    pub fn slot_name(&self, sel: usize) -> (r: String)
        requires
            sel < self.slots@.len(),
            self.slots@[sel as int].idx matches Some(i) ==> i < self.pool@.len(),
        ensures
            r@ == self@.name_of_slot(sel as int),
    {
        assert(self@.slots[sel as int] == self.slots@[sel as int]@);
        match self.slots[sel].idx {
            Some(i) => {
                assert(self@.pool[i as int] == self.pool@[i as int]@);
                self.pool[i].name.clone()
            },
            None => self.slots[sel].id.clone(),
        }
    }

    /// Enable or disable the selected slot. It keeps its spot in the load order
    /// but is skipped at launch when disabled.
    pub fn toggle_enabled(&mut self)
        requires
            old(self)@.fits(),
        ensures
            final(self)@ == old(self)@.selected_toggled(),
    {
        let sel: usize = match self.prof_sel {
            Some(s) => s,
            None => {
                return;
            },
        };
        if sel >= self.slots.len() {
            return;
        }
        assert(self@.slots[sel as int] == self.slots@[sel as int]@);
        let name = self.slot_name(sel);
        let ghost s0 = self.slots@;
        let on = !self.slots[sel].enabled;
        self.slots[sel].enabled = on;
        assert(slot_views(self.slots@) =~= slot_views(s0).update(
            sel as int,
            SlotView { enabled: on, ..s0[sel as int]@ },
        ));
        self.dirty = true;
        self.status = if on {
            "Enabled '".to_owned().concat(name.as_str()).concat("'")
        } else {
            "Disabled '".to_owned().concat(name.as_str()).concat("' (kept in the load order)")
        };
    }

    /// Whether some slot satisfies a requirement.
    fn is_satisfied(&self, req: &str) -> (r: bool)
        requires
            slots_fit(self@.slots, self@.pool.len()),
        ensures
            r == self@.satisfied(req@),
    {
        let mut k: usize = 0;
        while k < self.slots.len()
            invariant
                k <= self.slots@.len(),
                slots_fit(self@.slots, self@.pool.len()),
                forall|j: int|
                    0 <= j < k ==> !((#[trigger] self@.slots[j]).enabled && same_ignoring_case(
                        self@.slots[j].id,
                        req@,
                    ) && !self@.is_missing(self@.slots[j])),
            decreases self.slots@.len() - k,
        {
            let o = &self.slots[k];
            assert(self@.slots[k as int] == o@);
            if o.enabled && eq_ignore_ascii_case(o.id.as_str(), req) && !self.slot_missing(o) {
                return true;
            }
            k = k + 1;
        }
        false
    }

    /// The first mod of the pool with the given id.
    pub fn position_of(&self, id: &str) -> (r: Option<usize>)
        ensures
            match r {
                Some(i) => self@.pool_find(id@) == Some(i as int) && i < self.pool@.len(),
                None => self@.pool_find(id@) is None,
            },
    {
        let mut i: usize = 0;
        while i < self.pool.len()
            invariant
                i <= self.pool@.len(),
                self@.pool_find(id@) == first_with_id(self@.pool, id@, i as int),
            decreases self.pool@.len() - i,
        {
            assert(self@.pool[i as int] == self.pool@[i as int]@);
            if eq_ignore_ascii_case(self.pool[i].id.as_str(), id) {
                return Some(i);
            }
            i = i + 1;
        }
        None
    }

    /// The names of a slot's required mods that are not satisfied: absent from
    /// the load order, or there but disabled or missing.
    pub fn unmet_requirements(&self, s: &Slot) -> (r: Vec<String>)
        requires
            slots_fit(self@.slots, self@.pool.len()),
        ensures
            texts(r@) == self@.unmet(s@.requires),
    {
        let ghost reqs = s@.requires;
        let mut out: Vec<String> = Vec::new();
        let mut i: usize = 0;
        assert(reqs.take(0) =~= Seq::<Seq<char>>::empty());
        assert(texts(out@) =~= self@.unmet(reqs.take(0)));
        while i < s.requires.len()
            invariant
                i <= s.requires@.len(),
                reqs == texts(s.requires@),
                slots_fit(self@.slots, self@.pool.len()),
                texts(out@) == self@.unmet(reqs.take(i as int)),
            decreases s.requires@.len() - i,
        {
            assert(reqs.take(i + 1).drop_last() =~= reqs.take(i as int));
            assert(reqs.take(i + 1).last() == s.requires@[i as int]@);
            let req = &s.requires[i];
            if !self.is_satisfied(req.as_str()) {
                let name = match self.position_of(req.as_str()) {
                    Some(k) => {
                        assert(self@.pool[k as int] == self.pool@[k as int]@);
                        self.pool[k].name.clone()
                    },
                    None => req.clone(),
                };
                let ghost o0 = out@;
                out.push(name);
                assert(texts(out@) =~= texts(o0).push(name@));
            }
            i = i + 1;
        }
        assert(reqs.take(i as int) =~= reqs);
        out
    }

    /// The slots that can be marked as requirements.
    pub fn req_candidates(&self) -> (r: Vec<usize>)
        ensures
            ints(r@) == self@.candidates(),
            forall|k: int| 0 <= k < r@.len() ==> #[trigger] r@[k] < self.slots@.len(),
    {
        let mut out: Vec<usize> = Vec::new();
        match self.req_slot {
            Some(rs) => {
                let ghost all = indices(self.slots@.len());
                let ghost keep = |i: int| i != rs;
                let mut i: usize = 0;
                proof {
                    reveal(Seq::filter);
                    assert(ints(out@) =~= all.take(0).filter(keep));
                }
                while i < self.slots.len()
                    invariant
                        i <= self.slots@.len(),
                        all == indices(self.slots@.len()),
                        keep == (|i: int| i != rs),
                        ints(out@) == all.take(i as int).filter(keep),
                        forall|k: int|
                            0 <= k < out@.len() ==> #[trigger] out@[k] < self.slots@.len(),
                    decreases self.slots@.len() - i,
                {
                    proof {
                        reveal(Seq::filter);
                        assert(all.take(i + 1).drop_last() =~= all.take(i as int));
                        assert(all.take(i + 1).last() == i);
                    }
                    if i != rs {
                        let ghost o0 = out@;
                        out.push(i);
                        assert(ints(out@) =~= ints(o0).push(i as int));
                    }
                    i = i + 1;
                }
                assert(all.take(i as int) =~= all);
            },
            None => {
                assert(ints(out@) =~= Seq::<int>::empty());
            },
        }
        out
    }
}

impl AppView {
    /// The requirement picker open on the selected slot, if there are other
    /// slots to choose from.
    pub open spec fn requirement_picker_opened(self) -> AppView {
        if self.focus != Pane::Profile {
            self.with_status("Select a mod in the load order, then R to set what it requires"@)
        } else if !selected_in(self.prof_sel, self.slots.len()) {
            self
        } else if self.slots.len() < 2 {
            self.with_status("Add more mods to the load order first"@)
        } else {
            AppView {
                req_slot: self.prof_sel,
                req_sel: Some(0),
                mode: Mode::RequirementPicker,
                ..self
            }
        }
    }

    /// The highlighted candidate added to, or taken from, the requirements of
    /// the edited slot.
    pub open spec fn requirement_toggled(self) -> AppView {
        if self.req_slot is Some && selected_in(self.req_sel, self.candidates().len()) {
            let r = self.req_slot->0 as int;
            let c = self.candidates()[self.req_sel->0 as int];
            AppView {
                slots: self.slots.update(
                    r,
                    SlotView {
                        requires: requirement_flipped(self.slots[r].requires, self.slots[c].id),
                        ..self.slots[r]
                    },
                ),
                dirty: true,
                ..self
            }
        } else {
            self
        }
    }

    /// Something selected among the available mods, if nothing was and there
    /// are any.
    pub open spec fn some_available_selected(self) -> AppView {
        if self.avail_sel is None && self.available().len() > 0 {
            AppView { avail_sel: Some(0), ..self }
        } else {
            self
        }
    }

    /// The selected slot taken out of the load order.
    pub open spec fn selected_removed(self) -> AppView {
        if selected_in(self.prof_sel, self.slots.len()) {
            let sel = self.prof_sel->0 as int;
            let left = self.slots.len() - 1;
            (AppView {
                slots: self.slots.remove(sel),
                dirty: true,
                prof_sel: if left == 0 {
                    None
                } else {
                    Some(least(sel, left - 1) as usize)
                },
                ..self
            }).some_available_selected()
        } else {
            self
        }
    }

    /// The selected slot moved by `delta` in the load order, if it stays
    /// within it.
    pub open spec fn slot_moved(self, delta: int) -> AppView {
        if self.focus == Pane::Profile && selected_in(self.prof_sel, self.slots.len()) && 0
            <= self.prof_sel->0 + delta < self.slots.len() {
            let i = self.prof_sel->0 as int;
            AppView {
                slots: swapped(self.slots, i, i + delta),
                prof_sel: Some((i + delta) as usize),
                dirty: true,
                ..self
            }
        } else {
            self
        }
    }

    /// The mod highlighted in the focused pane, by position in the pool.
    pub open spec fn hovered(self) -> Option<int> {
        match self.focus {
            Pane::Available => if selected_in(self.avail_sel, self.available().len()) {
                Some(self.available()[self.avail_sel->0 as int])
            } else {
                None
            },
            Pane::Profile => if selected_in(self.prof_sel, self.slots.len()) {
                match self.slots[self.prof_sel->0 as int].idx {
                    Some(i) => Some(i as int),
                    None => None,
                }
            } else {
                None
            },
        }
    }
}

/// The first position of an id among the requirements, whatever the case.
fn find_requirement(reqs: &Vec<String>, id: &str) -> (r: Option<usize>)
    ensures
        match r {
            Some(p) => first_same(texts(reqs@), id@, 0) == Some(p as int) && p < reqs@.len(),
            None => first_same(texts(reqs@), id@, 0) is None,
        },
{
    let mut i: usize = 0;
    while i < reqs.len()
        invariant
            i <= reqs@.len(),
            first_same(texts(reqs@), id@, 0) == first_same(texts(reqs@), id@, i as int),
        decreases reqs@.len() - i,
    {
        if eq_ignore_ascii_case(reqs[i].as_str(), id) {
            return Some(i);
        }
        i = i + 1;
    }
    None
}

impl App {
    /// Choose which other mods of the load order the selected mod requires.
    pub fn open_requirement_picker(&mut self)
        ensures
            final(self)@ == old(self)@.requirement_picker_opened(),
    {
        if self.focus != Pane::Profile {
            self.status =
            "Select a mod in the load order, then R to set what it requires".to_owned();
            return;
        }
        let sel: usize = match self.prof_sel {
            Some(s) => s,
            None => {
                return;
            },
        };
        if sel >= self.slots.len() {
            return;
        }
        if self.slots.len() < 2 {
            self.status = "Add more mods to the load order first".to_owned();
            return;
        }
        self.req_slot = Some(sel);
        self.req_sel = Some(0);
        self.mode = Mode::RequirementPicker;
    }

    /// Toggle the highlighted candidate as a requirement of the edited mod.
    pub fn toggle_requirement(&mut self)
        requires
            old(self).req_slot matches Some(i) ==> i < old(self).slots@.len(),
        ensures
            final(self)@ == old(self)@.requirement_toggled(),
    {
        let rs: usize = match self.req_slot {
            Some(r) => r,
            None => {
                return;
            },
        };
        let cands = self.req_candidates();
        assert(ints(cands@).len() == cands@.len());
        let sel: usize = match self.req_sel {
            Some(s) => s,
            None => {
                return;
            },
        };
        if sel >= cands.len() {
            return;
        }
        let ci: usize = cands[sel];
        assert(ints(cands@)[sel as int] == ci);
        let cand_id = self.slots[ci].id.clone();
        let ghost s0 = self.slots@;
        let ghost r0 = texts(s0[rs as int].requires@);
        assert(self@.slots[rs as int] == s0[rs as int]@);
        assert(self@.slots[ci as int] == s0[ci as int]@);
        match find_requirement(&self.slots[rs].requires, cand_id.as_str()) {
            Some(pos) => {
                let _ = self.slots[rs].requires.remove(pos);
                assert(texts(self.slots@[rs as int].requires@) =~= r0.remove(pos as int));
            },
            None => {
                self.slots[rs].requires.push(cand_id);
                assert(texts(self.slots@[rs as int].requires@) =~= r0.push(cand_id@));
            },
        }
        assert(slot_views(self.slots@) =~= slot_views(s0).update(
            rs as int,
            SlotView {
                requires: requirement_flipped(r0, s0[ci as int].id@),
                ..s0[rs as int]@
            },
        ));
        self.dirty = true;
    }

    /// Select the first available mod, if none is selected and there are any.
    pub fn select_some_available(&mut self)
        ensures
            final(self)@ == old(self)@.some_available_selected(),
    {
        if self.avail_sel.is_none() {
            let a = self.available();
            assert(ints(a@).len() == a@.len());
            if a.len() > 0 {
                self.avail_sel = Some(0);
            }
        }
    }

    /// Remove the selected slot from the load order.
    pub fn remove_selected(&mut self)
        ensures
            final(self)@ == old(self)@.selected_removed(),
    {
        let sel: usize = match self.prof_sel {
            Some(s) => s,
            None => {
                return;
            },
        };
        if sel >= self.slots.len() {
            return;
        }
        let ghost s0 = self.slots@;
        let _ = self.slots.remove(sel);
        assert(slot_views(self.slots@) =~= slot_views(s0).remove(sel as int));
        self.dirty = true;
        let n: usize = self.slots.len();
        self.prof_sel = if n == 0 {
            None
        } else if sel < n - 1 {
            Some(sel)
        } else {
            Some(n - 1)
        };
        self.select_some_available();
    }

    /// Move the selected slot within the load order.
    pub fn move_slot(&mut self, delta: isize)
        ensures
            final(self)@ == old(self)@.slot_moved(delta as int),
    {
        if self.focus != Pane::Profile {
            return;
        }
        let i: usize = match self.prof_sel {
            Some(s) => s,
            None => {
                return;
            },
        };
        if i >= self.slots.len() {
            return;
        }
        let j: i128 = i as i128 + delta as i128;
        if j < 0 || j >= self.slots.len() as i128 {
            return;
        }
        let k: usize = j as usize;
        let ghost s0 = self.slots@;
        swap(&mut self.slots, i, k);
        assert(slot_views(self.slots@) =~= swapped(slot_views(s0), i as int, k as int));
        self.prof_sel = Some(k);
        self.dirty = true;
    }

    /// The mod highlighted in the focused pane, by position in the pool.
    pub fn hovered_mod(&self) -> (r: Option<usize>)
        ensures
            match r {
                Some(i) => self@.hovered() == Some(i as int),
                None => self@.hovered() is None,
            },
            slots_fit(self@.slots, self@.pool.len()) ==> (r matches Some(i) ==> i
                < self.pool@.len()),
    {
        match self.focus {
            Pane::Available => {
                let a = self.available();
                assert(ints(a@).len() == a@.len());
                match self.avail_sel {
                    Some(s) => if s < a.len() {
                        assert(ints(a@)[s as int] == a@[s as int]);
                        Some(a[s])
                    } else {
                        None
                    },
                    None => None,
                }
            },
            Pane::Profile => match self.prof_sel {
                Some(s) => if s < self.slots.len() {
                    assert(self@.slots[s as int] == self.slots@[s as int]@);
                    self.slots[s].idx
                } else {
                    None
                },
                None => None,
            },
        }
    }
}

/// A character that a profile's name may hold.
pub open spec fn name_char(c: char) -> bool {
    'a' <= c <= 'z' || 'A' <= c <= 'Z' || digit(c) || c == ' ' || c == '-' || c == '_' || c == '.'
}

/// A name that a profile may have: it is not blank, not a directory's dots, and
/// it has only letters, digits, spaces, dashes, underscores and dots.
pub open spec fn name_is_valid(name: Seq<char>) -> bool {
    &&& trimmed(name).len() > 0
    &&& forall|i: int| 0 <= i < name.len() ==> name_char(#[trigger] name[i])
    &&& name != "."@
    &&& name != ".."@
}

pub fn valid_profile_name(name: &str) -> (r: bool)
    ensures
        r == name_is_valid(name@),
{
    if trim(name).as_str().is_empty() {
        return false;
    }
    let v = to_chars(name);
    let mut i: usize = 0;
    while i < v.len()
        invariant
            i <= v@.len(),
            v@ == name@,
            forall|j: int| 0 <= j < i ==> name_char(#[trigger] name@[j]),
        decreases v@.len() - i,
    {
        let c = v[i];
        let ok = ('a' <= c && c <= 'z') || ('A' <= c && c <= 'Z') || ('0' <= c && c <= '9') || c
            == ' ' || c == '-' || c == '_' || c == '.';
        assert(ok == name_char(name@[i as int]));
        if !ok {
            return false;
        }
        i = i + 1;
    }
    !same(name, ".") && !same(name, "..")
}

/// A valid profile name is the name of one file: it has no slash and is
/// neither `.` nor `..`, so the file lies in the directory of profiles.
pub proof fn valid_name_stays_in_its_directory(name: Seq<char>)
    requires
        name_is_valid(name),
    ensures
        !name.contains('/'),
        name.len() > 0,
        name != "."@ && name != ".."@,
{
    assert forall|i: int| 0 <= i < name.len() implies name[i] != '/' by {
        assert(name_char(name[i]));
    }
    if name.len() == 0 {
        assert(trimmed(name) =~= name);
    }
}

} // verus!
