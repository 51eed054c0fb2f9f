//! Which version of a Workshop mod is used.

use vstd::prelude::*;
use vstd::string::StringExecFns;

use crate::app::{selected_in, App, AppView, Mode};
use crate::calendar::{fmt_date, shown_date};
use crate::model::{version_views, SlotView, VersionInfo, VersionView};
use crate::modlist::opt_store;
use crate::order::{
    models, picked, sort_by_keys, sorted_indices, sorted_indices_are_a_permutation,
    sorting_rearranges, SortKey,
};
use crate::paths::text_map;
use crate::store::{store_views, StoreRequest, StoreView};
use crate::text::{decimal, opt_text, same, to_decimal};

verus! {

/// A version of a Workshop mod in the store, with what its record says.
pub struct StoredVersion {
    pub manifest: String,
    pub timeupdated: u64,
    pub size: u64,
}

/// What is known of a stored version.
pub struct StoredView {
    pub manifest: Seq<char>,
    pub timeupdated: u64,
    pub size: u64,
}

impl View for StoredVersion {
    type V = StoredView;

    open spec fn view(&self) -> StoredView {
        StoredView {
            manifest: self.manifest@,
            timeupdated: self.timeupdated,
            size: self.size,
        }
    }
}

/// What is known of the stored versions.
pub open spec fn stored_views(v: Seq<StoredVersion>) -> Seq<StoredView> {
    v.map_values(|x: StoredVersion| x@)
}

/// Newest first; versions of the same time keep their order.
pub open spec fn newest_first(v: Seq<VersionView>) -> Seq<VersionView> {
    picked(
        v,
        sorted_indices(
            v.map_values(|x: VersionView| -(x.timeupdated as int)),
            |a: int, b: int| a < b,
        ),
    )
}

/// The first version at or after `from` with the given manifest.
pub open spec fn first_manifest(v: Seq<VersionView>, manifest: Seq<char>, from: int) -> Option<int>
    decreases v.len() - from,
{
    if from >= v.len() {
        None
    } else if v[from].manifest == manifest {
        Some(from)
    } else {
        first_manifest(v, manifest, from + 1)
    }
}

/// The first version at or after `from` that Steam has installed.
pub open spec fn first_current(v: Seq<VersionView>, from: int) -> Option<int>
    decreases v.len() - from,
{
    if from >= v.len() {
        None
    } else if v[from].current {
        Some(from)
    } else {
        first_current(v, from + 1)
    }
}

impl AppView {
    /// The pin of `id`, if there is one.
    pub open spec fn pin_of(self, id: Seq<char>) -> Option<Seq<char>> {
        if self.pins.contains_key(id) {
            Some(self.pins[id])
        } else {
            None
        }
    }

    /// The installed version of the mod `i` as one to store.
    pub open spec fn installed(self, i: int, manifest: Seq<char>) -> StoreView {
        let sid = self.pool[i].steam_id->0;
        StoreView {
            sid,
            manifest,
            dir: self.pool[i].dir,
            timeupdated: if self.ws.contains_key(sid) {
                self.ws[sid].timeupdated
            } else {
                0
            },
            size: if self.ws.contains_key(sid) {
                self.ws[sid].size
            } else {
                0
            },
        }
    }

    /// The version that `id` moves to when the mod `i` is pinned to what is
    /// installed, unless it is pinned to that already.
    pub open spec fn newer(self, id: Seq<char>, i: int) -> Option<Seq<char>> {
        match self.pool[i].steam_id {
            Some(sid) => match self.current_manifest(sid) {
                Some(m) => if self.pin_of(id) == Some(m) {
                    None
                } else {
                    Some(m)
                },
                None => None,
            },
            None => None,
        }
    }

    /// `id` pinned to the installed version of the mod `i`.
    pub open spec fn repinned(self, id: Seq<char>, i: int) -> AppView {
        match self.newer(id, i) {
            Some(m) => AppView { pins: self.pins.insert(id, m), ..self },
            None => self,
        }
    }

    /// The mods among the slots that Steam moved past their pins, each by its
    /// id and its position in the pool.
    pub open spec fn outdated(self, slots: Seq<SlotView>) -> Seq<(Seq<char>, int)>
        decreases slots.len(),
    {
        if slots.len() == 0 {
            Seq::empty()
        } else if self.updated(slots.last()) {
            self.outdated(slots.drop_last()).push((slots.last().id, slots.last().idx->0 as int))
        } else {
            self.outdated(slots.drop_last())
        }
    }

    /// Each of the mods pinned to what is installed, and the versions to store
    /// for that.
    pub open spec fn all_repinned(self, targets: Seq<(Seq<char>, int)>) -> (
        AppView,
        Seq<StoreView>,
    )
        decreases targets.len(),
    {
        if targets.len() == 0 {
            (self, Seq::empty())
        } else {
            let (t, stores) = self.all_repinned(targets.drop_last());
            let (id, i) = targets.last();
            match t.newer(id, i) {
                Some(m) => (t.repinned(id, i), stores.push(t.installed(i, m))),
                None => (t, stores),
            }
        }
    }

    /// Every mod that Steam moved past its pin moved to what is installed.
    pub open spec fn all_updated(self) -> (AppView, Seq<StoreView>) {
        let targets = self.outdated(self.slots);
        if targets.len() == 0 {
            (self.with_status("No mods have a newer Workshop version"@), Seq::empty())
        } else {
            let (t, stores) = self.all_repinned(targets);
            if stores.len() > 0 {
                (
                    AppView {
                        dirty: true,
                        status: decimal(stores.len())
                            + " mods set to the current version — press s to save"@,
                        ..t
                    },
                    stores,
                )
            } else {
                (t, stores)
            }
        }
    }

    /// The stored versions of a Workshop item.
    pub open spec fn stored_versions(self, sid: Seq<char>, stored: Seq<StoredView>) -> Seq<
        VersionView,
    > {
        stored.map_values(
            |x: StoredView|
                VersionView {
                    manifest: x.manifest,
                    timeupdated: x.timeupdated,
                    size: x.size,
                    stored: true,
                    current: self.current_manifest(sid) == Some(x.manifest),
                },
        )
    }

    /// The stored versions of a Workshop item and the one that is installed,
    /// newest first.
    pub open spec fn version_list(self, sid: Seq<char>, stored: Seq<StoredView>) -> Seq<
        VersionView,
    > {
        let v = self.stored_versions(sid, stored);
        newest_first(
            match self.current_manifest(sid) {
                Some(m) => if first_manifest(v, m, 0) is Some {
                    v
                } else {
                    v.push(
                        VersionView {
                            manifest: m,
                            timeupdated: self.ws[sid].timeupdated,
                            size: self.ws[sid].size,
                            stored: false,
                            current: true,
                        },
                    )
                },
                None => v,
            },
        )
    }

    /// The version to highlight first: the pinned one, else the installed one,
    /// else the newest.
    pub open spec fn version_to_show(self, id: Seq<char>, v: Seq<VersionView>) -> int {
        let pinned = match self.pin_of(id) {
            Some(p) => first_manifest(v, p, 0),
            None => None,
        };
        match pinned {
            Some(i) => i,
            None => match first_current(v, 0) {
                Some(i) => i,
                None => 0,
            },
        }
    }

    /// The version picker open on the highlighted Workshop mod, whose stored
    /// versions are `stored`.
    pub open spec fn version_picker_opened(self, stored: Seq<StoredView>) -> AppView {
        match self.hovered() {
            None => self,
            Some(i) => match self.pool[i].steam_id {
                None => self.with_status("Local mods have no Workshop versions"@),
                Some(sid) => {
                    let v = self.version_list(sid, stored);
                    if v.len() == 0 {
                        self.with_status(
                            "No versions stored for this mod yet (save or launch to store one)"@,
                        )
                    } else {
                        AppView {
                            version_mod: Some(i as usize),
                            versions: v,
                            version_sel: Some(
                                self.version_to_show(self.pool[i].id, v) as usize,
                            ),
                            mode: Mode::VersionPicker,
                            ..self
                        }
                    }
                },
            },
        }
    }

    /// The highlighted version pinned, and the version to store for that. A
    /// pin takes effect only for a mod in the load order.
    pub open spec fn version_picked(self) -> (AppView, Option<StoreView>) {
        let b = AppView { mode: Mode::Browse, ..self };
        if self.version_mod is Some && selected_in(self.version_sel, self.versions.len())
            && self.pool[self.version_mod->0 as int].steam_id is Some {
            let i = self.version_mod->0 as int;
            let v = self.versions[self.version_sel->0 as int];
            let m = self.pool[i];
            let sid = m.steam_id->0;
            if !self.in_order(i) {
                (
                    b.with_status(
                        "'"@ + m.name
                            + "' isn't in the load order — add it first to pin a version"@,
                    ),
                    None,
                )
            } else {
                (
                    AppView {
                        pins: self.pins.insert(m.id, v.manifest),
                        dirty: self.dirty || self.pin_of(m.id) != Some(v.manifest),
                        status: "'"@ + m.name + "' pinned to the "@ + if self.ws.contains_key(sid)
                            && self.ws[sid].manifest == v.manifest {
                            "current version ("@ + shown_date(v.timeupdated as nat)
                                + ") — s to save"@
                        } else {
                            shown_date(v.timeupdated as nat) + " version — s to save"@
                        },
                        ..b
                    },
                    if v.stored {
                        None
                    } else {
                        Some(self.installed(i, v.manifest))
                    },
                )
            }
        } else {
            (b, None)
        }
    }
}

/// The first version with the given manifest.
fn find_manifest(v: &Vec<VersionInfo>, manifest: &str) -> (r: Option<usize>)
    ensures
        match r {
            Some(i) => first_manifest(version_views(v@), manifest@, 0) == Some(i as int),
            None => first_manifest(version_views(v@), manifest@, 0) is None,
        },
{
    let ghost all = version_views(v@);
    let mut i: usize = 0;
    while i < v.len()
        invariant
            i <= v@.len(),
            all == version_views(v@),
            first_manifest(all, manifest@, 0) == first_manifest(all, manifest@, i as int),
        decreases v@.len() - i,
    {
        assert(all[i as int] == v@[i as int]@);
        if same(v[i].manifest.as_str(), manifest) {
            return Some(i);
        }
        i = i + 1;
    }
    None
}

/// The first version that Steam has installed.
fn find_current(v: &Vec<VersionInfo>) -> (r: Option<usize>)
    ensures
        match r {
            Some(i) => first_current(version_views(v@), 0) == Some(i as int),
            None => first_current(version_views(v@), 0) is None,
        },
{
    let ghost all = version_views(v@);
    let mut i: usize = 0;
    while i < v.len()
        invariant
            i <= v@.len(),
            all == version_views(v@),
            first_current(all, 0) == first_current(all, i as int),
        decreases v@.len() - i,
    {
        assert(all[i as int] == v@[i as int]@);
        if v[i].current {
            return Some(i);
        }
        i = i + 1;
    }
    None
}

/// The versions, newest first.
fn sort_newest_first(v: Vec<VersionInfo>) -> (r: Vec<VersionInfo>)
    ensures
        version_views(r@) == newest_first(version_views(v@)),
        r@.len() == v@.len(),
{
    let ghost all = version_views(v@);
    let ghost ages = all.map_values(|x: VersionView| -(x.timeupdated as int));
    let mut keys: Vec<i128> = Vec::new();
    let mut i: usize = 0;
    while i < v.len()
        invariant
            i <= v@.len(),
            all == version_views(v@),
            ages == all.map_values(|x: VersionView| -(x.timeupdated as int)),
            models(keys@) == ages.take(i as int),
        decreases v@.len() - i,
    {
        let ghost k0 = keys@;
        let k: i128 = -(v[i].timeupdated as i128);
        keys.push(k);
        i = i + 1;
        assert(models(keys@) =~= models(k0).push(k as int));
        assert(ages.take(i as int) =~= ages.take(i - 1).push(ages[i - 1]));
    }
    let ghost v0 = v@;
    proof {
        assert(ages.take(i as int) =~= ages);
        assert(models(keys@).len() == keys@.len());
        <i128 as SortKey>::order_is_strict_weak();
        sorted_indices_are_a_permutation(ages, <i128 as SortKey>::order());
    }
    let r = sort_by_keys(v, keys);
    proof {
        let ord = sorted_indices(ages, <i128 as SortKey>::order());
        assert(version_views(r@) =~= picked(all, ord));
    }
    r
}

impl App {
    /// The installed version of a Workshop mod as one to store.
    pub fn store_installed(&self, i: usize, sid: &str, manifest: &str) -> (r: StoreRequest)
        requires
            i < self.pool@.len(),
            self@.pool[i as int].steam_id == Some(sid@),
        ensures
            r@ == self@.installed(i as int, manifest@),
    {
        assert(self@.pool[i as int] == self.pool@[i as int]@);
        let (timeupdated, size) = match self.ws.get(sid) {
            Some(w) => (w.timeupdated, w.size),
            None => (0, 0),
        };
        StoreRequest {
            sid: sid.to_owned(),
            manifest: manifest.to_owned(),
            dir: self.pool[i].dir.clone(),
            timeupdated,
            size,
        }
    }

    /// Pin `id` to the installed version of the mod `i`. Returns the version
    /// to store if the pin changed.
    pub fn repin_current(&mut self, id: &str, i: usize) -> (r: Option<StoreRequest>)
        requires
            i < old(self).pool@.len(),
        ensures
            final(self)@ == old(self)@.repinned(id@, i as int),
            opt_store(r) == (match old(self)@.newer(id@, i as int) {
                Some(m) => Some(old(self)@.installed(i as int, m)),
                None => None,
            }),
    {
        assert(self@.pool[i as int] == self.pool@[i as int]@);
        let sid = match &self.pool[i].steam_id {
            Some(s) => s.clone(),
            None => {
                return None;
            },
        };
        let current = match self.installed_manifest(sid.as_str()) {
            Some(m) => m,
            None => {
                return None;
            },
        };
        match self.pins.get(id) {
            Some(p) => if same(p.as_str(), current.as_str()) {
                return None;
            },
            None => {},
        }
        let q = self.store_installed(i, sid.as_str(), current.as_str());
        let ghost p0 = self.pins@;
        self.pins.insert(id.to_owned(), current);
        assert(text_map(self.pins@) =~= text_map(p0).insert(id@, current@));
        Some(q)
    }

    /// The mods that Steam moved past their pins.
    fn outdated_mods(&self) -> (r: Vec<(String, usize)>)
        requires
            self@.fits(),
        ensures
            r@.map_values(|t: (String, usize)| (t.0@, t.1 as int)) == self@.outdated(self@.slots),
            forall|k: int| 0 <= k < r@.len() ==> (#[trigger] r@[k]).1 < self.pool@.len(),
    {
        let ghost all = self@.slots;
        let mut out: Vec<(String, usize)> = Vec::new();
        let mut i: usize = 0;
        assert(all.take(0) =~= Seq::<SlotView>::empty());
        assert(out@.map_values(|t: (String, usize)| (t.0@, t.1 as int)) =~= self@.outdated(
            all.take(0),
        ));
        while i < self.slots.len()
            invariant
                i <= self.slots@.len(),
                self@.fits(),
                all == self@.slots,
                out@.map_values(|t: (String, usize)| (t.0@, t.1 as int)) == self@.outdated(
                    all.take(i as int),
                ),
                forall|k: int| 0 <= k < out@.len() ==> (#[trigger] out@[k]).1 < self.pool@.len(),
            decreases self.slots@.len() - i,
        {
            assert(all.take(i + 1).drop_last() =~= all.take(i as int));
            assert(all[i as int] == self.slots@[i as int]@);
            if self.slot_updated(&self.slots[i]) {
                match self.slots[i].idx {
                    Some(k) => {
                        let ghost o0 = out@;
                        let id = self.slots[i].id.clone();
                        out.push((id, k));
                        assert(out@.map_values(|t: (String, usize)| (t.0@, t.1 as int))
                            =~= o0.map_values(|t: (String, usize)| (t.0@, t.1 as int)).push(
                            (id@, k as int),
                        ));
                    },
                    None => {},
                }
            }
            i = i + 1;
        }
        assert(all.take(i as int) =~= all);
        out
    }

    /// Move every mod that Steam moved past its pin to what is installed.
    /// Returns the versions to store.
    pub fn update_all(&mut self) -> (r: Vec<StoreRequest>)
        requires
            old(self)@.fits(),
        ensures
            (final(self)@, store_views(r@)) == old(self)@.all_updated(),
    {
        let targets = self.outdated_mods();
        let ghost all = targets@.map_values(|t: (String, usize)| (t.0@, t.1 as int));
        let mut stores: Vec<StoreRequest> = Vec::new();
        assert(store_views(stores@) =~= Seq::<StoreView>::empty());
        if targets.len() == 0 {
            self.status = "No mods have a newer Workshop version".to_owned();
            return stores;
        }
        let mut i: usize = 0;
        assert(all.take(0) =~= Seq::<(Seq<char>, int)>::empty());
        while i < targets.len()
            invariant
                i <= targets@.len(),
                all == targets@.map_values(|t: (String, usize)| (t.0@, t.1 as int)),
                forall|k: int| 0 <= k < targets@.len() ==> (#[trigger] targets@[k]).1
                    < self.pool@.len(),
                (self@, store_views(stores@)) == old(self)@.all_repinned(all.take(i as int)),
            decreases targets@.len() - i,
        {
            proof {
                assert(all.take(i + 1).drop_last() =~= all.take(i as int));
                assert(all.take(i + 1).last() == all[i as int]);
            }
            let ghost s0 = stores@;
            let ghost before = self@;
            match self.repin_current(targets[i].0.as_str(), targets[i].1) {
                Some(q) => {
                    stores.push(q);
                    assert(store_views(stores@) =~= store_views(s0).push(q@));
                },
                None => {},
            }
            assert(self@.pool == before.pool);
            assert(self@.pool.len() == self.pool@.len());
            i = i + 1;
        }
        assert(all.take(i as int) =~= all);
        assert(store_views(stores@).len() == stores@.len());
        if stores.len() > 0 {
            self.dirty = true;
            self.status = to_decimal(stores.len() as u64).concat(
                " mods set to the current version — press s to save",
            );
        }
        stores
    }

    /// The Workshop item whose stored versions are needed to open the version
    /// picker.
    pub fn version_item(&self) -> (r: Option<String>)
        requires
            self@.fits(),
        ensures
            opt_text(r) == (match self@.hovered() {
                Some(i) => self@.pool[i].steam_id,
                None => None,
            }),
    {
        match self.hovered_mod() {
            Some(i) => {
                assert(self@.pool[i as int] == self.pool@[i as int]@);
                match &self.pool[i].steam_id {
                    Some(s) => Some(s.clone()),
                    None => None,
                }
            },
            None => None,
        }
    }

    /// The stored versions of a Workshop item and the one that is installed,
    /// newest first.
    fn list_versions(&self, sid: &str, stored: &Vec<StoredVersion>) -> (r: Vec<VersionInfo>)
        ensures
            version_views(r@) == self@.version_list(sid@, stored_views(stored@)),
    {
        let current = self.installed_manifest(sid);
        let ghost all = self@.stored_versions(sid@, stored_views(stored@));
        let mut out: Vec<VersionInfo> = Vec::new();
        let mut i: usize = 0;
        while i < stored.len()
            invariant
                i <= stored@.len(),
                opt_text(current) == self@.current_manifest(sid@),
                all == self@.stored_versions(sid@, stored_views(stored@)),
                version_views(out@) == all.take(i as int),
            decreases stored@.len() - i,
        {
            let x = &stored[i];
            let is_current = match &current {
                Some(c) => same(c.as_str(), x.manifest.as_str()),
                None => false,
            };
            let v = VersionInfo {
                manifest: x.manifest.clone(),
                timeupdated: x.timeupdated,
                size: x.size,
                stored: true,
                current: is_current,
            };
            let ghost o0 = out@;
            out.push(v);
            i = i + 1;
            proof {
                assert(stored_views(stored@)[i - 1] == x@);
                assert(v@ == all[i - 1]);
                assert(version_views(out@) =~= version_views(o0).push(v@));
                assert(all.take(i as int) =~= all.take(i - 1).push(all[i - 1]));
            }
        }
        assert(all.take(i as int) =~= all);
        match &current {
            Some(m) => if find_manifest(&out, m.as_str()).is_none() {
                match self.ws.get(sid) {
                    Some(w) => {
                        let v = VersionInfo {
                            manifest: m.clone(),
                            timeupdated: w.timeupdated,
                            size: w.size,
                            stored: false,
                            current: true,
                        };
                        let ghost o0 = out@;
                        out.push(v);
                        assert(version_views(out@) =~= version_views(o0).push(v@));
                    },
                    None => {},
                }
            },
            None => {},
        }
        sort_newest_first(out)
    }

    /// Open the version picker for the highlighted Workshop mod: every version
    /// that is stored and the one that Steam has installed.
    pub fn open_version_picker(&mut self, stored: &Vec<StoredVersion>)
        requires
            old(self)@.fits(),
        ensures
            final(self)@ == old(self)@.version_picker_opened(stored_views(stored@)),
            old(self)@.mode != Mode::RequirementPicker ==> final(self)@.fits(),
    {
        let i: usize = match self.hovered_mod() {
            Some(i) => i,
            None => {
                return;
            },
        };
        assert(self@.pool[i as int] == self.pool@[i as int]@);
        let sid = match &self.pool[i].steam_id {
            Some(s) => s.clone(),
            None => {
                self.status = "Local mods have no Workshop versions".to_owned();
                return;
            },
        };
        let versions = self.list_versions(sid.as_str(), stored);
        assert(version_views(versions@).len() == versions@.len());
        if versions.len() == 0 {
            self.status =
            "No versions stored for this mod yet (save or launch to store one)".to_owned();
            return;
        }
        let pinned = match self.pins.get(self.pool[i].id.as_str()) {
            Some(p) => find_manifest(&versions, p.as_str()),
            None => None,
        };
        let sel: usize = match pinned {
            Some(k) => k,
            None => match find_current(&versions) {
                Some(k) => k,
                None => 0,
            },
        };
        self.version_mod = Some(i);
        self.versions = versions;
        self.version_sel = Some(sel);
        self.mode = Mode::VersionPicker;
    }

    /// Pin the mod to the highlighted version and close the picker. Returns
    /// the version to store first, if it is not stored yet.
    pub fn pick_version(&mut self) -> (r: Option<StoreRequest>)
        requires
            old(self)@.fits(),
        ensures
            (final(self)@, opt_store(r)) == old(self)@.version_picked(),
    {
        self.mode = Mode::Browse;
        let (i, sel) = match (self.version_mod, self.version_sel) {
            (Some(i), Some(s)) => (i, s),
            _ => {
                return None;
            },
        };
        if sel >= self.versions.len() {
            return None;
        }
        assert(self@.versions[sel as int] == self.versions@[sel as int]@);
        assert(self@.pool[i as int] == self.pool@[i as int]@);
        let manifest = self.versions[sel].manifest.clone();
        let stored = self.versions[sel].stored;
        let date = fmt_date(self.versions[sel].timeupdated);
        let sid = match &self.pool[i].steam_id {
            Some(s) => s.clone(),
            None => {
                return None;
            },
        };
        let id = self.pool[i].id.clone();
        let name = self.pool[i].name.clone();
        let quoted = "'".to_owned().concat(name.as_str());
        if !self.is_in_order(i) {
            self.status = quoted.concat("' isn't in the load order — add it first to pin a version");
            assert(self@.in_order(i as int) == old(self)@.in_order(i as int));
            return None;
        }
        assert(self@.in_order(i as int) == old(self)@.in_order(i as int));
        let q = if stored {
            None
        } else {
            Some(self.store_installed(i, sid.as_str(), manifest.as_str()))
        };
        let unchanged = match self.pins.get(id.as_str()) {
            Some(p) => same(p.as_str(), manifest.as_str()),
            None => false,
        };
        if !unchanged {
            self.dirty = true;
        }
        let is_current = match self.ws.get(sid.as_str()) {
            Some(w) => same(w.manifest.as_str(), manifest.as_str()),
            None => false,
        };
        let ghost p0 = self.pins@;
        self.pins.insert(id, manifest);
        assert(text_map(self.pins@) =~= text_map(p0).insert(id@, manifest@));
        let tail = if is_current {
            "current version (".to_owned().concat(date.as_str()).concat(") — s to save")
        } else {
            date.concat(" version — s to save")
        };
        self.status = quoted.concat("' pinned to the ").concat(tail.as_str());
        q
    }
}

/// A version that is picked is pinned: the pin of the mod becomes the
/// highlighted version, stored or not, and no other pin changes. One that is not
/// stored yet is to be stored from the mod's folder. A mod that is not in the
/// load order cannot be pinned.
pub proof fn picked_versions_are_pinned(v: AppView, i: int, j: int)
    requires
        v.version_mod == Some(i as usize) && 0 <= i <= usize::MAX,
        v.version_sel == Some(j as usize) && 0 <= j <= usize::MAX,
        j < v.versions.len(),
        v.pool[i].steam_id is Some,
    ensures
        ({
            let (r, store) = v.version_picked();
            let id = v.pool[i].id;
            let sid = v.pool[i].steam_id->0;
            let wanted = v.versions[j].manifest;
            let listed = exists|k: int|
                0 <= k < v.slots.len() && (#[trigger] v.slots[k]).idx == Some(i as usize);
            &&& r == (AppView {
                mode: Mode::Browse,
                pins: r.pins,
                dirty: r.dirty,
                status: r.status,
                ..v
            })
            &&& listed ==> {
                &&& r.pins.contains_key(id) && r.pins[id] == wanted
                &&& forall|other: Seq<char>|
                    other != id ==> (#[trigger] r.pins.contains_key(other) == v.pins.contains_key(
                        other,
                    )) && (v.pins.contains_key(other) ==> r.pins[other] == v.pins[other])
                &&& r.dirty == (v.dirty || !v.pins.contains_key(id) || v.pins[id] != wanted)
                &&& store is Some <==> !v.versions[j].stored
                &&& store matches Some(q) ==> q.sid == sid && q.manifest == wanted && q.dir
                    == v.pool[i].dir && (v.ws.contains_key(sid) ==> q.timeupdated
                    == v.ws[sid].timeupdated && q.size == v.ws[sid].size)
            }
            &&& !listed ==> r.pins == v.pins && r.dirty == v.dirty && store is None
        }),
{
    assert(v.in_order(i) == exists|k: int|
        0 <= k < v.slots.len() && (#[trigger] v.slots[k]).idx == Some(i as usize)) by {
        if v.in_order(i) {
            let k = choose|k: int| 0 <= k < v.slots.len() && (#[trigger] v.slots[k]).is_mod(i);
            assert(v.slots[k].idx == Some(i as usize));
        }
        if exists|k: int| 0 <= k < v.slots.len() && (#[trigger] v.slots[k]).idx == Some(
            i as usize,
        ) {
            let k = choose|k: int|
                0 <= k < v.slots.len() && (#[trigger] v.slots[k]).idx == Some(i as usize);
            assert(v.slots[k].is_mod(i));
        }
    }
}

/// The version picker lists every stored version once, and the installed one if
/// it is not stored, the newest first.
pub proof fn all_versions_are_offered(v: AppView, sid: Seq<char>, stored: Seq<StoredView>)
    ensures
        ({
            let r = v.version_list(sid, stored);
            let now = if v.ws.contains_key(sid) {
                v.ws[sid].manifest
            } else {
                Seq::empty()
            };
            let is_stored = exists|k: int|
                0 <= k < stored.len() && (#[trigger] stored[k]).manifest == now;
            let listed = stored.map_values(
                |x: StoredView|
                    VersionView {
                        manifest: x.manifest,
                        timeupdated: x.timeupdated,
                        size: x.size,
                        stored: true,
                        current: now.len() > 0 && x.manifest == now,
                    },
            );
            &&& r.to_multiset() == (if now.len() == 0 || is_stored {
                listed
            } else {
                listed.push(
                    VersionView {
                        manifest: now,
                        timeupdated: v.ws[sid].timeupdated,
                        size: v.ws[sid].size,
                        stored: false,
                        current: true,
                    },
                )
            }).to_multiset()
            &&& forall|i: int, j: int|
                0 <= i < j < r.len() ==> (#[trigger] r[i]).timeupdated >= (
                #[trigger] r[j]).timeupdated
        }),
{
    let listed = v.stored_versions(sid, stored);
    let now = if v.ws.contains_key(sid) {
        v.ws[sid].manifest
    } else {
        Seq::empty()
    };
    lemma_first_manifest(listed, now, 0);
    let is_stored = exists|k: int| 0 <= k < stored.len() && (#[trigger] stored[k]).manifest == now;
    assert(is_stored == exists|k: int|
        0 <= k < listed.len() && (#[trigger] listed[k]).manifest == now) by {
        if is_stored {
            let k = choose|k: int| 0 <= k < stored.len() && (#[trigger] stored[k]).manifest == now;
            assert(listed[k].manifest == now);
        }
        if exists|k: int| 0 <= k < listed.len() && (#[trigger] listed[k]).manifest == now {
            let k = choose|k: int| 0 <= k < listed.len() && (#[trigger] listed[k]).manifest == now;
            assert(stored[k].manifest == now);
        }
    }
    assert(listed =~= stored.map_values(
        |x: StoredView|
            VersionView {
                manifest: x.manifest,
                timeupdated: x.timeupdated,
                size: x.size,
                stored: true,
                current: now.len() > 0 && x.manifest == now,
            },
    ));
    let all = if now.len() == 0 || is_stored {
        listed
    } else {
        listed.push(
            VersionView {
                manifest: now,
                timeupdated: v.ws[sid].timeupdated,
                size: v.ws[sid].size,
                stored: false,
                current: true,
            },
        )
    };
    assert(v.version_list(sid, stored) == newest_first(all));
    let keys = all.map_values(|x: VersionView| -(x.timeupdated as int));
    let before = |a: int, b: int| a < b;
    sorting_rearranges(all, keys, before);
    let at = sorted_indices(keys, before);
    let r = newest_first(all);
    assert forall|i: int, j: int| 0 <= i < j < r.len() implies (#[trigger] r[i]).timeupdated >= (
    #[trigger] r[j]).timeupdated by {
        assert(!before(keys[at[j]], keys[at[i]]));
    }
}

proof fn lemma_first_manifest(v: Seq<VersionView>, manifest: Seq<char>, from: int)
    requires
        0 <= from,
    ensures
        first_manifest(v, manifest, from) is Some <==> exists|k: int|
            from <= k < v.len() && (#[trigger] v[k]).manifest == manifest,
        first_manifest(v, manifest, from) matches Some(k) ==> from <= k < v.len() && v[k].manifest
            == manifest && forall|j: int| from <= j < k ==> (#[trigger] v[j]).manifest != manifest,
    decreases v.len() - from,
{
    if from < v.len() && v[from].manifest != manifest {
        lemma_first_manifest(v, manifest, from + 1);
    }
}

proof fn lemma_first_current(v: Seq<VersionView>, from: int)
    requires
        0 <= from,
    ensures
        first_current(v, from) is Some <==> exists|k: int|
            from <= k < v.len() && (#[trigger] v[k]).current,
        first_current(v, from) matches Some(k) ==> from <= k < v.len() && v[k].current && forall|
            j: int,
        |
            from <= j < k ==> !(#[trigger] v[j]).current,
    decreases v.len() - from,
{
    if from < v.len() && !v[from].current {
        lemma_first_current(v, from + 1);
    }
}

/// The version picker opens on the version that the mod is pinned to, if it is
/// listed, else on the installed one, else on the newest; until one is picked,
/// nothing but the picker changes.
pub proof fn the_picker_opens_on_the_pinned_version(v: AppView, stored: Seq<StoredView>, i: int)
    requires
        v.hovered() == Some(i),
        0 <= i <= usize::MAX,
        v.pool[i].steam_id is Some,
    ensures
        ({
            let list = v.version_list(v.pool[i].steam_id->0, stored);
            let r = v.version_picker_opened(stored);
            let id = v.pool[i].id;
            let sel = r.version_sel->0 as int;
            let pinned = |k: int| v.pins.contains_key(id) && list[k].manifest == v.pins[id];
            &&& list.len() == 0 ==> r == (AppView { status: r.status, ..v })
            &&& 0 < list.len() <= usize::MAX ==> {
                &&& r == (AppView {
                    version_mod: Some(i as usize),
                    versions: list,
                    version_sel: r.version_sel,
                    mode: Mode::VersionPicker,
                    ..v
                })
                &&& r.version_sel is Some && 0 <= sel < list.len()
                &&& (exists|k: int| 0 <= k < list.len() && #[trigger] pinned(k)) ==> pinned(sel)
                &&& (forall|k: int| 0 <= k < list.len() ==> !#[trigger] pinned(k)) && (exists|k: int|
                    0 <= k < list.len() && (#[trigger] list[k]).current) ==> list[sel].current
                &&& (forall|k: int| 0 <= k < list.len() ==> !#[trigger] pinned(k)) && (forall|k: int|
                    0 <= k < list.len() ==> !(#[trigger] list[k]).current) ==> sel == 0
            }
        }),
{
    let list = v.version_list(v.pool[i].steam_id->0, stored);
    let id = v.pool[i].id;
    let pinned = |k: int| v.pins.contains_key(id) && list[k].manifest == v.pins[id];
    if v.pins.contains_key(id) {
        lemma_first_manifest(list, v.pins[id], 0);
        if exists|k: int| 0 <= k < list.len() && #[trigger] pinned(k) {
            let k = choose|k: int| 0 <= k < list.len() && #[trigger] pinned(k);
            assert(list[k].manifest == v.pins[id]);
        }
        if first_manifest(list, v.pins[id], 0) is Some {
            let k = first_manifest(list, v.pins[id], 0)->0;
            assert(pinned(k));
        }
    }
    lemma_first_current(list, 0);
}

/// What is told of a version that was picked: that the mod has to be in the load
/// order, or that it is pinned now, to the installed version or to one of a date.
pub proof fn picked_versions_are_told(v: AppView, i: int, j: int)
    requires
        v.version_mod == Some(i as usize) && 0 <= i <= usize::MAX,
        v.version_sel == Some(j as usize) && 0 <= j <= usize::MAX,
        j < v.versions.len(),
        v.pool[i].steam_id is Some,
    ensures
        ({
            let r = v.version_picked().0;
            let sid = v.pool[i].steam_id->0;
            let x = v.versions[j];
            let date = shown_date(x.timeupdated as nat);
            let listed = exists|k: int|
                0 <= k < v.slots.len() && (#[trigger] v.slots[k]).idx == Some(i as usize);
            let installed = v.ws.contains_key(sid) && v.ws[sid].manifest == x.manifest;
            &&& !listed ==> r.status == "'"@ + v.pool[i].name
                + "' isn't in the load order — add it first to pin a version"@
            &&& listed && installed ==> r.status == "'"@ + v.pool[i].name + "' pinned to the "@ + (
            "current version ("@ + date + ") — s to save"@)
            &&& listed && !installed ==> r.status == "'"@ + v.pool[i].name + "' pinned to the "@ + (
            date + " version — s to save"@)
        }),
{
    let listed = exists|k: int|
        0 <= k < v.slots.len() && (#[trigger] v.slots[k]).idx == Some(i as usize);
    if listed {
        let k = choose|k: int|
            0 <= k < v.slots.len() && (#[trigger] v.slots[k]).idx == Some(i as usize);
        assert(v.slots[k].is_mod(i));
        assert(v.in_order(i));
    } else if v.in_order(i) {
        let k = choose|k: int| 0 <= k < v.slots.len() && (#[trigger] v.slots[k]).is_mod(i);
        assert(v.slots[k].idx == Some(i as usize));
    }
}

/// Where no version can be picked, the picker only closes.
pub proof fn nothing_is_picked_without_a_version(v: AppView)
    requires
        v.version_mod is None || v.version_sel is None || v.version_sel->0 >= v.versions.len()
            || v.pool[v.version_mod->0 as int].steam_id is None,
    ensures
        v.version_picked().0 == (AppView { mode: Mode::Browse, ..v }),
        v.version_picked().1 is None,
{
}

/// The picker opens only on a Workshop mod that has a version; else that is told,
/// and nothing changes.
pub proof fn the_picker_opens_on_workshop_mods(v: AppView, stored: Seq<StoredView>)
    ensures
        v.hovered() is None ==> v.version_picker_opened(stored) == v,
        v.hovered() is Some && v.pool[v.hovered()->0].steam_id is None
            ==> v.version_picker_opened(stored) == (AppView {
            status: "Local mods have no Workshop versions"@,
            ..v
        }),
        v.hovered() is Some && v.pool[v.hovered()->0].steam_id is Some && v.version_list(
            v.pool[v.hovered()->0].steam_id->0,
            stored,
        ).len() == 0 ==> v.version_picker_opened(stored) == (AppView {
            status: "No versions stored for this mod yet (save or launch to store one)"@,
            ..v
        }),
{
}

/// Updating all mods tells how many were set to their installed versions, or that
/// there was none.
pub proof fn updates_are_told(v: AppView)
    ensures
        ({
            let (r, stores) = v.all_updated();
            &&& v.slots.filter(|s: SlotView| v.updated(s)).len() == 0 ==> r.status
                == "No mods have a newer Workshop version"@ && stores.len() == 0
            &&& stores.len() > 0 ==> r.status == decimal(stores.len())
                + " mods set to the current version — press s to save"@
        }),
{
    lemma_outdated_counted(v, v.slots);
}

proof fn lemma_outdated_counted(v: AppView, slots: Seq<SlotView>)
    ensures
        v.outdated(slots).len() == slots.filter(|s: SlotView| v.updated(s)).len(),
    decreases slots.len(),
{
    reveal(Seq::filter);
    if slots.len() > 0 {
        lemma_outdated_counted(v, slots.drop_last());
    }
}

} // verus!
