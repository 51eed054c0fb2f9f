//! Profiles: reading and writing them, pins, and what changed since they were
//! saved.

use vstd::prelude::*;
use vstd::seq_lib::{group_to_multiset_ensures, lemma_multiset_commutative};
use vstd::string::StringExecFns;

use crate::app::{
    first_with_id, least, name_is_valid, selected_in, slots_fit, valid_name_stays_in_its_directory,
    App, AppView,
};
use crate::json::{
    json_reading, listed_texts_are_the_texts, parse_json, parsed_json, texts_among, texts_in, Json,
    JsonView,
};
use crate::model::{
    entry_id, ml_entry_id, ml_views, preview_views, slot_views, sort_texts, sorted_by_text, MlEntry,
    MlView, ModView, PreviewLine, PreviewView, Slot, SlotView,
};
use crate::order::{
    differs_below, first_difference_decides, models, picked, sort_by_keys, sorted_indices, sorted_indices_are_a_permutation,
    sorting_rearranges, swap, swapped, text_before, SortKey,
};
use crate::paths::{
    extension, extension_of, extensions_are_told_in_any_case, file_name, file_stem,
    files_are_called_by_their_name, name_of, names_end_in_their_extension, path_join, profile_path,
    stem_of, text_map,
};
use crate::steam::ModMeta;
use crate::strmap::StrMap;
use crate::text::{
    decimal, eq_ignore_ascii_case, fits_a_line, join, joined, joined_lines_read_back, lines,
    lines_end_at_line_feeds, lines_of, opt_text, same, same_ignoring_case, texts, to_decimal, trim, trimmed,
};

verus! {

/// Why a profile could not be read.
pub enum ModlistError {
    /// The file could not be read.
    Unreadable,
    /// The file is not JSON, and why not.
    NotJson(String),
    /// The document has no list of mods.
    NoMods,
}

/// Why a profile could not be read.
pub enum ModlistErrorView {
    Unreadable,
    NotJson(Seq<char>),
    NoMods,
}

impl View for ModlistError {
    type V = ModlistErrorView;

    open spec fn view(&self) -> ModlistErrorView {
        match *self {
            ModlistError::Unreadable => ModlistErrorView::Unreadable,
            ModlistError::NotJson(e) => ModlistErrorView::NotJson(e@),
            ModlistError::NoMods => ModlistErrorView::NoMods,
        }
    }
}

impl ModlistErrorView {
    /// What to tell of the profile in the file `path`.
    pub open spec fn text(self, path: Seq<char>) -> Seq<char> {
        match self {
            ModlistErrorView::Unreadable => "could not read "@ + path,
            ModlistErrorView::NotJson(_) => "could not parse "@ + path,
            ModlistErrorView::NoMods => "profile has no \"mods\" array"@,
        }
    }

    /// What is wrong with the text of the profile.
    pub open spec fn fault(self) -> Option<Seq<char>> {
        match self {
            ModlistErrorView::NotJson(e) => Some(e),
            _ => None,
        }
    }
}

impl ModlistError {
    /// What to tell of the profile in the file `path`.
    pub fn message(&self, path: &str) -> (r: String)
        ensures
            r@ == self@.text(path@),
    {
        match self {
            ModlistError::Unreadable => "could not read ".to_owned().concat(path),
            ModlistError::NotJson(_) => "could not parse ".to_owned().concat(path),
            ModlistError::NoMods => "profile has no \"mods\" array".to_owned(),
        }
    }

    /// What is wrong with the text of the profile, to be told as the cause.
    pub fn cause(&self) -> (r: Option<String>)
        ensures
            opt_text(r) == self@.fault(),
    {
        match self {
            ModlistError::NotJson(e) => Some(e.clone()),
            _ => None,
        }
    }
}

/// What one item of a profile's list of mods says, if it names a mod. Without
/// an `active` flag a mod is enabled; without a `local` flag it is local if it
/// has no Workshop id.
pub open spec fn ml_entry(e: JsonView) -> Option<MlView> {
    match entry_id(e) {
        Some(id) => Some(
            MlView {
                id,
                local: match e.flag_at("local"@) {
                    Some(b) => b,
                    None => e.text_at("steam_id"@) is None,
                },
                enabled: match e.flag_at("active"@) {
                    Some(b) => b,
                    None => true,
                },
                requires: match e.items_at("requires"@) {
                    Some(a) => texts_among(a),
                    None => Seq::empty(),
                },
                steam_id: e.text_at("steam_id"@),
                manifest: e.text_at("manifest"@),
                sha256: e.text_at("sha256"@),
            },
        ),
        None => None,
    }
}

/// What the items of a profile's list of mods say.
pub open spec fn ml_entries(items: Seq<JsonView>) -> Seq<MlView>
    decreases items.len(),
{
    if items.len() == 0 {
        Seq::empty()
    } else {
        match ml_entry(items.last()) {
            Some(e) => ml_entries(items.drop_last()).push(e),
            None => ml_entries(items.drop_last()),
        }
    }
}

/// The mods that a profile lists, if it has a list.
pub open spec fn listed_mods(doc: JsonView) -> Option<Seq<MlView>> {
    match doc.items_at("mods"@) {
        Some(a) => Some(ml_entries(a)),
        None => None,
    }
}

/// The mods that the text of a profile lists.
pub open spec fn modlist_of(text: Option<Seq<char>>) -> Result<Seq<MlView>, ModlistErrorView> {
    match text {
        None => Err(ModlistErrorView::Unreadable),
        Some(t) => match json_reading(t) {
            Err(e) => Err(ModlistErrorView::NotJson(e)),
            Ok(doc) => match listed_mods(doc) {
                None => Err(ModlistErrorView::NoMods),
                Some(v) => Ok(v),
            },
        },
    }
}

/// What one item of a profile's list of mods says.
fn read_ml_entry(e: &Json) -> (r: Option<MlEntry>)
    ensures
        r is Some <==> ml_entry(e@) is Some,
        r is Some ==> r->0@ == ml_entry(e@)->0,
{
    match ml_entry_id(e) {
        Some(id) => {
            let steam_id = e.str_at("steam_id");
            let local = match e.bool_at("local") {
                Some(b) => b,
                None => steam_id.is_none(),
            };
            let enabled = match e.bool_at("active") {
                Some(b) => b,
                None => true,
            };
            let reqs = match e.array_at("requires") {
                Some(a) => texts_in(a),
                None => Vec::new(),
            };
            let entry = MlEntry {
                id,
                local,
                enabled,
                requires: reqs,
                steam_id,
                manifest: e.str_at("manifest"),
                sha256: e.str_at("sha256"),
            };
            assert(entry@.requires =~= ml_entry(e@)->0.requires);
            Some(entry)
        },
        None => None,
    }
}

/// The mods that a profile lists.
pub fn modlist_entries(doc: &Json) -> (r: Option<Vec<MlEntry>>)
    ensures
        r is Some <==> listed_mods(doc@) is Some,
        r is Some ==> ml_views(r->0@) == listed_mods(doc@)->0,
{
    let a = match doc.array_at("mods") {
        Some(a) => a,
        None => {
            return None;
        },
    };
    let ghost all = a@.map_values(|j: Json| j@);
    let mut out: Vec<MlEntry> = Vec::new();
    let mut i: usize = 0;
    proof {
        assert(all.take(0) =~= Seq::<JsonView>::empty());
        assert(ml_views(out@) =~= ml_entries(all.take(0)));
    }
    while i < a.len()
        invariant
            i <= a@.len() == all.len(),
            all == a@.map_values(|j: Json| j@),
            ml_views(out@) == ml_entries(all.take(i as int)),
        decreases a@.len() - i,
    {
        assert(all.take(i + 1).drop_last() =~= all.take(i as int));
        assert(all.take(i + 1).last() == a@[i as int]@);
        match read_ml_entry(&a[i]) {
            Some(e) => {
                let ghost o0 = out@;
                out.push(e);
                assert(ml_views(out@) =~= ml_views(o0).push(e@));
            },
            None => {},
        }
        i = i + 1;
    }
    assert(all.take(i as int) =~= all);
    Some(out)
}

/// The optional text that a reference may hold.
pub open spec fn opt_str(t: Option<&str>) -> Option<Seq<char>> {
    match t {
        Some(s) => Some(s@),
        None => None,
    }
}

/// The mods that a profile lists, given its text if it could be read.
pub fn read_modlist(text: Option<&str>) -> (r: Result<Vec<MlEntry>, ModlistError>)
    ensures
        match r {
            Ok(v) => modlist_of(opt_str(text)) == Ok::<Seq<MlView>, ModlistErrorView>(
                ml_views(v@),
            ),
            Err(e) => modlist_of(opt_str(text)) == Err::<Seq<MlView>, ModlistErrorView>(e@),
        },
{
    match text {
        None => Err(ModlistError::Unreadable),
        Some(t) => match parse_json(t) {
            Err(e) => Err(ModlistError::NotJson(e)),
            Ok(doc) => match modlist_entries(&doc) {
                None => Err(ModlistError::NoMods),
                Some(v) => Ok(v),
            },
        },
    }
}

/// Where in the pool the mod `id` is, if it is there.
pub open spec fn resolved_idx(pool: Seq<ModView>, id: Seq<char>) -> Option<usize> {
    match first_with_id(pool, id, 0) {
        Some(i) => Some(i as usize),
        None => None,
    }
}

/// Every slot points at the first mod with its id.
pub open spec fn slots_resolved(pool: Seq<ModView>, slots: Seq<SlotView>) -> bool {
    forall|k: int|
        0 <= k < slots.len() ==> (#[trigger] slots[k]).idx == resolved_idx(pool, slots[k].id)
}

/// The slot for a profile's entry, resolved to the pool where its mod is
/// known.
pub open spec fn slot_for(pool: Seq<ModView>, e: MlView) -> SlotView {
    SlotView {
        id: e.id,
        idx: resolved_idx(pool, e.id),
        enabled: e.enabled,
        requires: e.requires,
    }
}

/// The slots for a profile's entries.
pub open spec fn slots_for(pool: Seq<ModView>, entries: Seq<MlView>) -> Seq<SlotView> {
    entries.map_values(|e: MlView| slot_for(pool, e))
}

/// The names of the packs that the launcher has active, in its order; packs of
/// equal order keep the order in which the launcher lists them.
pub open spec fn active_packs(items: Seq<(Seq<char>, ModMeta)>) -> Seq<Seq<char>> {
    let active = items.filter(|p: (Seq<char>, ModMeta)| p.1.active);
    picked(
        active.map_values(|p: (Seq<char>, ModMeta)| p.0),
        sorted_indices(
            active.map_values(|p: (Seq<char>, ModMeta)| p.1.order as int),
            |a: int, b: int| a < b,
        ),
    )
}

/// A mod has a pack of the given file name, whatever the case.
pub open spec fn has_pack(m: ModView, name: Seq<char>) -> bool {
    exists|k: int|
        0 <= k < m.packs.len() && #[trigger] is_named(m.packs[k], name)
}

/// The file name of a path is `name`, whatever the case.
pub open spec fn is_named(path: Seq<char>, name: Seq<char>) -> bool {
    name_of(path) matches Some(n) && same_ignoring_case(n, name)
}

/// The first mod at or after `from` that has a pack of the given name.
pub open spec fn first_with_pack(pool: Seq<ModView>, name: Seq<char>, from: int) -> Option<int>
    decreases pool.len() - from,
{
    if from >= pool.len() {
        None
    } else if has_pack(pool[from], name) {
        Some(from)
    } else {
        first_with_pack(pool, name, from + 1)
    }
}

/// Some slot is for the mod `id`.
pub open spec fn has_slot(slots: Seq<SlotView>, id: Seq<char>) -> bool {
    exists|k: int| 0 <= k < slots.len() && (#[trigger] slots[k]).id == id
}

/// The load order that the packs give: each pack stands for the first mod that
/// has it, and each mod comes in once, enabled.
pub open spec fn seeded(pool: Seq<ModView>, packs: Seq<Seq<char>>) -> Seq<SlotView>
    decreases packs.len(),
{
    if packs.len() == 0 {
        Seq::empty()
    } else {
        let slots = seeded(pool, packs.drop_last());
        match first_with_pack(pool, packs.last(), 0) {
            Some(i) => if has_slot(slots, pool[i].id) {
                slots
            } else {
                slots.push(
                    SlotView {
                        id: pool[i].id,
                        idx: Some(i as usize),
                        enabled: true,
                        requires: Seq::empty(),
                    },
                )
            },
            None => slots,
        }
    }
}

/// Each mod comes once into the load order that the launcher's active packs
/// give, and each slot points at its mod.
pub proof fn seeded_slots_are_distinct(pool: Seq<ModView>, packs: Seq<Seq<char>>)
    ensures
        forall|i: int, j: int|
            0 <= i < j < seeded(pool, packs).len() ==> seeded(pool, packs)[i].id != seeded(
                pool,
                packs,
            )[j].id,
        forall|k: int|
            0 <= k < seeded(pool, packs).len() ==> (#[trigger] seeded(pool, packs)[k]).enabled,
    decreases packs.len(),
{
    if packs.len() > 0 {
        seeded_slots_are_distinct(pool, packs.drop_last());
        let s = seeded(pool, packs.drop_last());
        let t = seeded(pool, packs);
        assert forall|i: int, j: int| 0 <= i < j < t.len() implies t[i].id != t[j].id by {
            assert(t[i] == s[i]);
            if j < s.len() {
                assert(t[j] == s[j]);
            }
        }
    }
}

/// The pins that a profile's list of mods records.
pub open spec fn pins_among(items: Seq<JsonView>) -> Map<Seq<char>, Seq<char>>
    decreases items.len(),
{
    if items.len() == 0 {
        Map::empty()
    } else {
        let rest = pins_among(items.drop_last());
        match (entry_id(items.last()), items.last().text_at("manifest"@)) {
            (Some(id), Some(m)) => rest.insert(id, m),
            _ => rest,
        }
    }
}

/// The pins that a profile records.
pub open spec fn pins_of(doc: Option<JsonView>) -> Map<Seq<char>, Seq<char>> {
    match doc {
        Some(d) => match d.items_at("mods"@) {
            Some(a) => pins_among(a),
            None => Map::empty(),
        },
        None => Map::empty(),
    }
}

impl AppView {
    /// The pins taken from a profile's document.
    pub open spec fn with_pins_of(self, doc: Option<JsonView>) -> AppView {
        AppView {
            pins: pins_of(doc),
            pinned_buildid: match doc {
                Some(d) => d.text_at("game_buildid"@),
                None => None,
            },
            ..self
        }
    }

    /// How many of the slots have no mod.
    pub open spec fn missing_among(self, slots: Seq<SlotView>) -> nat
        decreases slots.len(),
    {
        if slots.len() == 0 {
            0
        } else {
            self.missing_among(slots.drop_last()) + if self.is_missing(slots.last()) {
                1nat
            } else {
                0
            }
        }
    }

    /// How many of the slots have a mod that Steam moved past its pin.
    pub open spec fn updated_among(self, slots: Seq<SlotView>) -> nat
        decreases slots.len(),
    {
        if slots.len() == 0 {
            0
        } else {
            self.updated_among(slots.drop_last()) + if self.updated(slots.last()) {
                1nat
            } else {
                0
            }
        }
    }

    /// The game was updated since the current profile was saved.
    pub open spec fn game_moved(self) -> bool {
        self.pinned_buildid is Some && self.game_buildid is Some && self.pinned_buildid
            != self.game_buildid
    }

    /// What changed since the current profile was saved, piece by piece.
    pub open spec fn drift_parts(self) -> Seq<Seq<char>> {
        let n = self.updated_among(self.slots);
        let mods = if n > 0 {
            seq![decimal(n) + " mods updated by Steam"@]
        } else {
            Seq::empty()
        };
        if self.game_moved() {
            mods.push(
                "game updated (build "@ + self.pinned_buildid->0 + " → "@ + self.game_buildid->0
                    + ")"@,
            )
        } else {
            mods
        }
    }

    /// What changed since the current profile was saved.
    pub open spec fn drift(self) -> Option<Seq<char>> {
        match self.current_profile {
            Some(name) => if self.drift_parts().len() == 0 {
                None
            } else {
                Some(
                    "Since '"@ + name + "' was saved: "@ + joined(self.drift_parts(), "; "@)
                        + " — staying on pinned versions; v to pick, U to update all"@,
                )
            },
            None => None,
        }
    }
}

impl App {
    /// A profile's entries as slots of the load order.
    pub fn slots_for_profile(&self, entries: Vec<MlEntry>) -> (r: Vec<Slot>)
        ensures
            slot_views(r@) == slots_for(self@.pool, ml_views(entries@)),
    {
        let ghost all = ml_views(entries@);
        let mut left = entries;
        let mut out: Vec<Slot> = Vec::new();
        assert(slot_views(out@) =~= slots_for(self@.pool, all.skip(all.len() as int)));
        while left.len() > 0
            invariant
                left@.len() <= all.len(),
                ml_views(left@) == all.take(left@.len() as int),
                slot_views(out@) == slots_for(self@.pool, all.skip(left@.len() as int)),
            decreases left@.len(),
        {
            let ghost n = left@.len();
            let ghost l0 = left@;
            let e = left.pop().unwrap();
            proof {
                assert(all.take(n as int)[n - 1] == l0[n - 1]@);
                assert(ml_views(left@) =~= all.take(n - 1));
            }
            let idx = self.position_of(e.id.as_str());
            let s = Slot { id: e.id, idx, enabled: e.enabled, requires: e.requires };
            let ghost o0 = out@;
            out.insert(0, s);
            proof {
                assert(s@ == slot_for(self@.pool, all[n - 1]));
                assert(slot_views(out@) =~= seq![s@] + slot_views(o0));
                assert(slots_for(self@.pool, all.skip(n - 1)) =~= seq![s@] + slots_for(
                    self@.pool,
                    all.skip(n as int),
                ));
            }
        }
        assert(all.skip(0) =~= all);
        out
    }

    /// Whether a mod of the pool has a pack of the given file name.
    fn mod_has_pack(&self, i: usize, name: &str) -> (r: bool)
        requires
            i < self.pool@.len(),
        ensures
            r == has_pack(self@.pool[i as int], name@),
    {
        let m = &self.pool[i];
        assert(self@.pool[i as int] == m@);
        let mut k: usize = 0;
        while k < m.packs.len()
            invariant
                k <= m.packs@.len(),
                self@.pool[i as int] == m@,
                forall|j: int| 0 <= j < k ==> !is_named(#[trigger] m@.packs[j], name@),
            decreases m.packs@.len() - k,
        {
            assert(m@.packs[k as int] == m.packs@[k as int]@);
            match file_name(m.packs[k].as_str()) {
                Some(n) => if eq_ignore_ascii_case(n.as_str(), name) {
                    assert(is_named(m@.packs[k as int], name@));
                    return true;
                },
                None => {},
            }
            k = k + 1;
        }
        false
    }

    /// The first mod that has a pack of the given file name.
    fn mod_with_pack(&self, name: &str) -> (r: Option<usize>)
        ensures
            match r {
                Some(i) => first_with_pack(self@.pool, name@, 0) == Some(i as int) && i
                    < self.pool@.len(),
                None => first_with_pack(self@.pool, name@, 0) is None,
            },
    {
        let mut i: usize = 0;
        while i < self.pool.len()
            invariant
                i <= self.pool@.len(),
                first_with_pack(self@.pool, name@, 0) == first_with_pack(
                    self@.pool,
                    name@,
                    i as int,
                ),
            decreases self.pool@.len() - i,
        {
            if self.mod_has_pack(i, name) {
                return Some(i);
            }
            i = i + 1;
        }
        None
    }

    /// Seed a load order from the launcher's active packs, each mapped to the
    /// mod that holds it.
    pub fn slots_from_moddata(&self, meta: &StrMap<ModMeta>) -> (r: Vec<Slot>)
        ensures
            slot_views(r@) == seeded(self@.pool, active_packs(meta.items())),
    {
        let packs = active_pack_names(meta);
        let ghost all = texts(packs@);
        let mut out: Vec<Slot> = Vec::new();
        let mut i: usize = 0;
        assert(all.take(0) =~= Seq::<Seq<char>>::empty());
        assert(slot_views(out@) =~= seeded(self@.pool, all.take(0)));
        while i < packs.len()
            invariant
                i <= packs@.len(),
                all == texts(packs@),
                slot_views(out@) == seeded(self@.pool, all.take(i as int)),
            decreases packs@.len() - i,
        {
            assert(all.take(i + 1).drop_last() =~= all.take(i as int));
            assert(all.take(i + 1).last() == packs@[i as int]@);
            match self.mod_with_pack(packs[i].as_str()) {
                Some(k) => {
                    assert(self@.pool[k as int] == self.pool@[k as int]@);
                    if !slots_have(&out, self.pool[k].id.as_str()) {
                        let ghost o0 = out@;
                        let s = Slot {
                            id: self.pool[k].id.clone(),
                            idx: Some(k),
                            enabled: true,
                            requires: Vec::new(),
                        };
                        out.push(s);
                        assert(s@.requires =~= Seq::<Seq<char>>::empty());
                        assert(slot_views(out@) =~= slot_views(o0).push(s@));
                    }
                },
                None => {},
            }
            i = i + 1;
        }
        assert(all.take(i as int) =~= all);
        out
    }

    /// Take the version pins from a profile's document.
    pub fn take_pins(&mut self, doc: Option<&Json>)
        ensures
            final(self)@ == old(self)@.with_pins_of(
                match doc {
                    Some(d) => Some(d@),
                    None => None,
                },
            ),
    {
        let mut pins: StrMap<String> = StrMap::new();
        assert(text_map(pins@) =~= Map::<Seq<char>, Seq<char>>::empty());
        let mut build: Option<String> = None;
        match doc {
            Some(d) => {
                build = d.str_at("game_buildid");
                match d.array_at("mods") {
                    Some(a) => {
                        let ghost all = a@.map_values(|j: Json| j@);
                        let mut i: usize = 0;
                        assert(all.take(0) =~= Seq::<JsonView>::empty());
                        while i < a.len()
                            invariant
                                i <= a@.len(),
                                all == a@.map_values(|j: Json| j@),
                                text_map(pins@) == pins_among(all.take(i as int)),
                            decreases a@.len() - i,
                        {
                            assert(all.take(i + 1).drop_last() =~= all.take(i as int));
                            assert(all.take(i + 1).last() == a@[i as int]@);
                            match (ml_entry_id(&a[i]), a[i].str_at("manifest")) {
                                (Some(id), Some(m)) => {
                                    let ghost p0 = pins@;
                                    pins.insert(id, m);
                                    assert(text_map(pins@) =~= text_map(p0).insert(id@, m@));
                                },
                                _ => {},
                            }
                            i = i + 1;
                        }
                        assert(all.take(i as int) =~= all);
                    },
                    None => {},
                }
            },
            None => {},
        }
        self.pins = pins;
        self.pinned_buildid = build;
    }

    /// Take the version pins recorded in a profile, given its text if it could
    /// be read.
    pub fn load_pins(&mut self, text: Option<&str>)
        ensures
            final(self)@ == old(self)@.with_pins_of(
                match opt_str(text) {
                    Some(t) => parsed_json(t),
                    None => None,
                },
            ),
    {
        match text {
            Some(t) => match parse_json(t) {
                Ok(d) => self.take_pins(Some(&d)),
                Err(_) => self.take_pins(None),
            },
            None => self.take_pins(None),
        }
    }

    /// How many slots have no mod.
    pub fn missing_count(&self) -> (r: usize)
        requires
            slots_fit(self@.slots, self@.pool.len()),
        ensures
            r == self@.missing_among(self@.slots),
            r <= self.slots@.len(),
    {
        let ghost all = self@.slots;
        let mut n: usize = 0;
        let mut i: usize = 0;
        assert(all.take(0) =~= Seq::<SlotView>::empty());
        while i < self.slots.len()
            invariant
                i <= self.slots@.len(),
                all == self@.slots,
                slots_fit(self@.slots, self@.pool.len()),
                n <= i,
                n == self@.missing_among(all.take(i as int)),
            decreases self.slots@.len() - i,
        {
            assert(all.take(i + 1).drop_last() =~= all.take(i as int));
            assert(all[i as int] == self.slots@[i as int]@);
            if self.slot_missing(&self.slots[i]) {
                n = n + 1;
            }
            i = i + 1;
        }
        assert(all.take(i as int) =~= all);
        n
    }

    /// How many slots have a mod that Steam moved past its pin.
    pub fn updated_count(&self) -> (r: usize)
        requires
            slots_fit(self@.slots, self@.pool.len()),
        ensures
            r == self@.updated_among(self@.slots),
    {
        let ghost all = self@.slots;
        let mut n: usize = 0;
        let mut i: usize = 0;
        assert(all.take(0) =~= Seq::<SlotView>::empty());
        while i < self.slots.len()
            invariant
                i <= self.slots@.len(),
                all == self@.slots,
                slots_fit(self@.slots, self@.pool.len()),
                n <= i,
                n == self@.updated_among(all.take(i as int)),
            decreases self.slots@.len() - i,
        {
            assert(all.take(i + 1).drop_last() =~= all.take(i as int));
            assert(all[i as int] == self.slots@[i as int]@);
            if self.slot_updated(&self.slots[i]) {
                n = n + 1;
            }
            i = i + 1;
        }
        assert(all.take(i as int) =~= all);
        n
    }

    /// What changed since the current profile was saved, for a human.
    pub fn drift_report(&self) -> (r: Option<String>)
        requires
            slots_fit(self@.slots, self@.pool.len()),
        ensures
            opt_text(r) == self@.drift(),
    {
        let name = match &self.current_profile {
            Some(n) => n,
            None => {
                return None;
            },
        };
        let updated = self.updated_count();
        let mut parts: Vec<String> = Vec::new();
        if updated > 0 {
            parts.push(to_decimal(updated as u64).concat(" mods updated by Steam"));
        }
        assert(texts(parts@) =~= if updated > 0 {
            seq![decimal(updated as nat) + " mods updated by Steam"@]
        } else {
            Seq::empty()
        });
        match (&self.pinned_buildid, &self.game_buildid) {
            (Some(a), Some(b)) => if *a != *b {
                let ghost p0 = parts@;
                let p = "game updated (build ".to_owned().concat(a.as_str()).concat(" → ").concat(
                    b.as_str(),
                ).concat(")");
                parts.push(p);
                assert(texts(parts@) =~= texts(p0).push(p@));
            },
            _ => {},
        }
        assert(texts(parts@) =~= self@.drift_parts());
        assert(texts(parts@).len() == parts@.len());
        if parts.len() == 0 {
            return None;
        }
        Some(
            "Since '".to_owned().concat(name.as_str()).concat("' was saved: ").concat(
                join(&parts, "; ").as_str(),
            ).concat(" — staying on pinned versions; v to pick, U to update all"),
        )
    }
}

/// Whether some slot is for the mod `id`.
fn slots_have(slots: &Vec<Slot>, id: &str) -> (r: bool)
    ensures
        r == has_slot(slot_views(slots@), id@),
{
    let mut k: usize = 0;
    while k < slots.len()
        invariant
            k <= slots@.len(),
            forall|j: int| 0 <= j < k ==> (#[trigger] slot_views(slots@)[j]).id != id@,
        decreases slots@.len() - k,
    {
        assert(slot_views(slots@)[k as int] == slots@[k as int]@);
        if same(slots[k].id.as_str(), id) {
            return true;
        }
        k = k + 1;
    }
    false
}

/// The names of the packs that the launcher has active, in its order.
fn active_pack_names(meta: &StrMap<ModMeta>) -> (r: Vec<String>)
    ensures
        texts(r@) == active_packs(meta.items()),
{
    let ghost all = meta.items();
    let ghost keep = |p: (Seq<char>, ModMeta)| p.1.active;
    let ghost name = |p: (Seq<char>, ModMeta)| p.0;
    let ghost order = |p: (Seq<char>, ModMeta)| p.1.order as int;
    let mut names: Vec<String> = Vec::new();
    let mut orders: Vec<i128> = Vec::new();
    let mut i: usize = 0;
    proof {
        reveal(Seq::filter);
        assert(all.take(0) =~= Seq::<(Seq<char>, ModMeta)>::empty());
        assert(texts(names@) =~= all.take(0).filter(keep).map_values(name));
        assert(models(orders@) =~= all.take(0).filter(keep).map_values(order));
    }
    while i < meta.len()
        invariant
            i <= all.len(),
            all == meta.items(),
            keep == (|p: (Seq<char>, ModMeta)| p.1.active),
            name == (|p: (Seq<char>, ModMeta)| p.0),
            order == (|p: (Seq<char>, ModMeta)| p.1.order as int),
            texts(names@) == all.take(i as int).filter(keep).map_values(name),
            models(orders@) == all.take(i as int).filter(keep).map_values(order),
        decreases all.len() - i,
    {
        proof {
            reveal(Seq::filter);
            assert(all.take(i + 1).drop_last() =~= all.take(i as int));
            assert(all.take(i + 1).last() == all[i as int]);
        }
        let m = meta.value_at(i);
        if m.active {
            let ghost n0 = names@;
            let ghost o0 = orders@;
            let ghost a0 = all.take(i as int).filter(keep);
            let key = meta.key_at(i).clone();
            let ord: i128 = m.order as i128;
            names.push(key);
            orders.push(ord);
            proof {
                assert(texts(names@) =~= texts(n0).push(key@));
                assert(models(orders@) =~= models(o0).push(ord as int));
                assert(a0.push(all[i as int]).map_values(name) =~= a0.map_values(name).push(key@));
                assert(a0.push(all[i as int]).map_values(order) =~= a0.map_values(order).push(
                    ord as int,
                ));
            }
        }
        i = i + 1;
    }
    let ghost n = names@;
    let ghost ks = models(orders@);
    proof {
        assert(all.take(i as int) =~= all);
        assert(texts(names@).len() == names@.len());
        assert(ks.len() == orders@.len());
        <i128 as SortKey>::order_is_strict_weak();
        sorted_indices_are_a_permutation(ks, <i128 as SortKey>::order());
    }
    let r = sort_by_keys(names, orders);
    proof {
        let ord = sorted_indices(ks, <i128 as SortKey>::order());
        assert(texts(r@) =~= picked(texts(n), ord));
    }
    r
}

/// The profiles among the files of a directory: the names of its `.json`
/// files.
pub open spec fn names_among(paths: Seq<Seq<char>>) -> Seq<Seq<char>>
    decreases paths.len(),
{
    if paths.len() == 0 {
        Seq::empty()
    } else {
        let rest = names_among(paths.drop_last());
        match (extension_of(paths.last()), stem_of(paths.last())) {
            (Some(e), Some(s)) => if e == "json"@ {
                rest.push(s)
            } else {
                rest
            },
            _ => rest,
        }
    }
}

/// The profiles among the files of a directory, in alphabetical order.
pub open spec fn sorted_names(paths: Seq<Seq<char>>) -> Seq<Seq<char>> {
    sorted_by_text(names_among(paths), names_among(paths))
}

/// The first position of `x`, from `from` on.
pub open spec fn first_position(v: Seq<Seq<char>>, x: Seq<char>, from: int) -> Option<int>
    decreases v.len() - from,
{
    if from >= v.len() {
        None
    } else if v[from] == x {
        Some(from)
    } else {
        first_position(v, x, from + 1)
    }
}

/// The names that are wanted first, in the wanted order, and the names that
/// are left.
pub open spec fn arranged(names: Seq<Seq<char>>, wants: Seq<Seq<char>>) -> (
    Seq<Seq<char>>,
    Seq<Seq<char>>,
)
    decreases wants.len(),
{
    if wants.len() == 0 {
        (Seq::empty(), names)
    } else {
        let (done, left) = arranged(names, wants.drop_last());
        match first_position(left, trimmed(wants.last()), 0) {
            Some(p) => (done.push(left[p]), left.remove(p)),
            None => (done, left),
        }
    }
}

/// The names in the wanted order; those that nobody asked for come after, in
/// the order they had.
pub open spec fn in_wanted_order(names: Seq<Seq<char>>, wants: Seq<Seq<char>>) -> Seq<Seq<char>> {
    arranged(names, wants).0 + arranged(names, wants).1
}

pub(crate) proof fn lemma_first_position(v: Seq<Seq<char>>, x: Seq<char>, from: int)
    requires
        0 <= from,
    ensures
        first_position(v, x, from) matches Some(p) ==> from <= p < v.len() && v[p] == x && forall|
            i: int,
        |
            from <= i < p ==> v[i] != x,
        first_position(v, x, from) is None ==> forall|i: int| from <= i < v.len() ==> v[i] != x,
    decreases v.len() - from,
{
    if from < v.len() && v[from] != x {
        lemma_first_position(v, x, from + 1);
    }
}

/// Ordering the profiles neither loses nor invents any.
pub proof fn wanted_order_keeps_the_names(names: Seq<Seq<char>>, wants: Seq<Seq<char>>)
    ensures
        in_wanted_order(names, wants).to_multiset() == names.to_multiset(),
    decreases wants.len(),
{
    broadcast use group_to_multiset_ensures;

    let now = arranged(names, wants);
    lemma_multiset_commutative(now.0, now.1);
    if wants.len() == 0 {
        assert(now.0 + now.1 =~= names);
    } else {
        wanted_order_keeps_the_names(names, wants.drop_last());
        let before = arranged(names, wants.drop_last());
        lemma_multiset_commutative(before.0, before.1);
        lemma_first_position(before.1, trimmed(wants.last()), 0);
        match first_position(before.1, trimmed(wants.last()), 0) {
            Some(p) => {
                let x = before.1[p];
                assert(now.0.to_multiset() =~= before.0.to_multiset().insert(x));
                assert(now.1.to_multiset() =~= before.1.to_multiset().remove(x));
                assert(before.1.to_multiset().count(x) > 0);
                assert((now.0 + now.1).to_multiset() =~= (before.0 + before.1).to_multiset());
            },
            None => {},
        }
    }
}

proof fn lemma_arranged_as_wanted(names: Seq<Seq<char>>, wants: Seq<Seq<char>>, n: int)
    requires
        0 <= n <= wants.len(),
        wants.to_multiset() == names.to_multiset(),
        forall|i: int| 0 <= i < wants.len() ==> trimmed(#[trigger] wants[i]) == wants[i],
    ensures
        arranged(names, wants.take(n)).0 == wants.take(n),
        arranged(names, wants.take(n)).1.to_multiset() == wants.skip(n).to_multiset(),
    decreases n,
{
    broadcast use group_to_multiset_ensures;

    let (done, left) = arranged(names, wants.take(n));
    if n == 0 {
        assert(wants.take(0) =~= Seq::<Seq<char>>::empty());
        assert(wants.skip(0) =~= wants);
    } else {
        lemma_arranged_as_wanted(names, wants, n - 1);
        let before = arranged(names, wants.take(n - 1));
        let x = wants[n - 1];
        assert(wants.take(n).drop_last() =~= wants.take(n - 1));
        assert(wants.take(n).last() == x && trimmed(x) == x);
        assert(wants.skip(n - 1)[0] == x);
        assert(wants.skip(n - 1).contains(x));
        assert(before.1.to_multiset().count(x) > 0);
        assert(before.1.contains(x));
        lemma_first_position(before.1, x, 0);
        let p = first_position(before.1, x, 0)->0;
        assert(left == before.1.remove(p));
        assert(left.to_multiset() =~= before.1.to_multiset().remove(x));
        assert(wants.skip(n - 1).remove(0) =~= wants.skip(n));
        assert(wants.skip(n).to_multiset() =~= wants.skip(n - 1).to_multiset().remove(x));
        assert(done =~= wants.take(n));
    }
}

/// The order of the profiles that was written is read back, whatever order the
/// directory lists them in.
pub proof fn profile_order_reads_back(names: Seq<Seq<char>>, profiles: Seq<Seq<char>>)
    requires
        profiles.to_multiset() == names.to_multiset(),
        forall|i: int|
            0 <= i < profiles.len() ==> fits_a_line(#[trigger] profiles[i]) && trimmed(profiles[i])
                == profiles[i],
    ensures
        in_wanted_order(names, lines_of(joined(profiles, "\n"@))) == profiles,
{
    broadcast use group_to_multiset_ensures;

    joined_lines_read_back(profiles);
    lemma_arranged_as_wanted(names, profiles, profiles.len() as int);
    assert(profiles.take(profiles.len() as int) =~= profiles);
    let left = arranged(names, profiles).1;
    assert(profiles.skip(profiles.len() as int) =~= Seq::<Seq<char>>::empty());
    assert(left.len() == 0) by {
        if left.len() > 0 {
            assert(left.contains(left[0]));
            assert(left.to_multiset().count(left[0]) > 0);
            assert(Seq::<Seq<char>>::empty().to_multiset().count(left[0]) > 0);
            assert(Seq::<Seq<char>>::empty().contains(left[0]));
        }
    }
    assert(profiles + left =~= profiles);
}

impl AppView {
    /// The profile selected in the list.
    pub open spec fn selected_name(self) -> Option<Seq<char>> {
        if selected_in(self.profile_sel, self.profiles.len()) {
            Some(self.profiles[self.profile_sel->0 as int])
        } else {
            None
        }
    }

    /// The list of profiles, with the selection kept within it.
    pub open spec fn with_profiles(self, names: Seq<Seq<char>>) -> AppView {
        AppView {
            profiles: names,
            profile_sel: if names.len() == 0 {
                None
            } else {
                Some(
                    least(
                        match self.profile_sel {
                            Some(i) => i as int,
                            None => 0,
                        },
                        names.len() - 1,
                    ) as usize,
                )
            },
            preview_for: None,
            ..self
        }
    }

    /// The selected profile can be moved by `delta` in the list.
    pub open spec fn profile_moves(self, delta: int) -> bool {
        selected_in(self.profile_sel, self.profiles.len()) && 0 <= self.profile_sel->0 + delta
            < self.profiles.len()
    }

    /// The selected profile moved by `delta` in the list, if it stays within
    /// it.
    pub open spec fn profile_moved(self, delta: int) -> AppView {
        if self.profile_moves(delta) {
            let i = self.profile_sel->0 as int;
            AppView {
                profiles: swapped(self.profiles, i, i + delta),
                profile_sel: Some((i + delta) as usize),
                preview_for: None,
                ..self
            }
        } else {
            self
        }
    }

    /// The line of the preview for a profile's entry.
    pub open spec fn preview_line(self, e: MlView) -> PreviewView {
        match self.pool_find(e.id) {
            Some(i) => {
                let m = self.pool[i];
                PreviewView {
                    label: m.name,
                    missing: m.missing,
                    updated: e.manifest matches Some(pin) && m.steam_id matches Some(sid)
                        && self.current_manifest(sid) matches Some(cur) && cur != pin,
                }
            },
            None => PreviewView { label: e.id, missing: true, updated: false },
        }
    }

    /// The profile whose preview is to be made.
    pub open spec fn wanted_preview(self) -> Option<Seq<char>> {
        if self.selected_name() is Some && self.preview_for != self.selected_name() {
            self.selected_name()
        } else {
            None
        }
    }

    /// The preview of the selected profile, made anew if it shows another one.
    pub open spec fn preview_refreshed(self, entries: Seq<MlView>) -> AppView {
        if self.preview_for == self.selected_name() {
            self
        } else {
            AppView {
                preview_for: self.selected_name(),
                preview: match self.selected_name() {
                    Some(_) => entries.map_values(|e: MlView| self.preview_line(e)),
                    None => Seq::empty(),
                },
                ..self
            }
        }
    }
}

/// The entries that a profile's text lists; none if it lists none.
pub open spec fn entries_or_none(text: Option<Seq<char>>) -> Seq<MlView> {
    match modlist_of(text) {
        Ok(v) => v,
        Err(_) => Seq::empty(),
    }
}

/// The profiles among the files of a directory, in alphabetical order.
pub fn profile_names(paths: &Vec<String>) -> (r: Vec<String>)
    ensures
        texts(r@) == sorted_names(texts(paths@)),
{
    let ghost all = texts(paths@);
    let mut names: Vec<String> = Vec::new();
    let mut keys: Vec<String> = Vec::new();
    let mut i: usize = 0;
    assert(all.take(0) =~= Seq::<Seq<char>>::empty());
    assert(texts(names@) =~= names_among(all.take(0)));
    while i < paths.len()
        invariant
            i <= paths@.len(),
            all == texts(paths@),
            texts(names@) == names_among(all.take(i as int)),
            texts(keys@) == texts(names@),
        decreases paths@.len() - i,
    {
        assert(all.take(i + 1).drop_last() =~= all.take(i as int));
        assert(all.take(i + 1).last() == paths@[i as int]@);
        let p = paths[i].as_str();
        match (extension(p), file_stem(p)) {
            (Some(e), Some(s)) => if same(e.as_str(), "json") {
                let ghost n0 = names@;
                let ghost k0 = keys@;
                keys.push(s.clone());
                names.push(s);
                assert(texts(names@) =~= texts(n0).push(s@));
                assert(texts(keys@) =~= texts(k0).push(s@));
            },
            _ => {},
        }
        i = i + 1;
    }
    proof {
        assert(all.take(i as int) =~= all);
        assert(texts(names@).len() == names@.len());
        assert(texts(keys@).len() == keys@.len());
    }
    sort_texts(names, keys)
}

/// The first position of a text.
pub fn position_in(v: &Vec<String>, x: &str) -> (r: Option<usize>)
    ensures
        match r {
            Some(p) => first_position(texts(v@), x@, 0) == Some(p as int) && p < v@.len(),
            None => first_position(texts(v@), x@, 0) is None,
        },
{
    let mut i: usize = 0;
    while i < v.len()
        invariant
            i <= v@.len(),
            first_position(texts(v@), x@, 0) == first_position(texts(v@), x@, i as int),
        decreases v@.len() - i,
    {
        if same(v[i].as_str(), x) {
            return Some(i);
        }
        i = i + 1;
    }
    None
}

/// The names in the order that the lines of a text want.
pub fn in_order(names: Vec<String>, wanted: &str) -> (r: Vec<String>)
    ensures
        texts(r@) == in_wanted_order(texts(names@), lines_of(wanted@)),
{
    let ghost first = texts(names@);
    let wants = lines(wanted);
    let ghost all = texts(wants@);
    let mut left = names;
    let mut done: Vec<String> = Vec::new();
    let mut i: usize = 0;
    assert(all.take(0) =~= Seq::<Seq<char>>::empty());
    assert(texts(done@) =~= Seq::<Seq<char>>::empty());
    while i < wants.len()
        invariant
            i <= wants@.len(),
            all == texts(wants@),
            (texts(done@), texts(left@)) == arranged(first, all.take(i as int)),
        decreases wants@.len() - i,
    {
        assert(all.take(i + 1).drop_last() =~= all.take(i as int));
        assert(all.take(i + 1).last() == wants@[i as int]@);
        let want = trim(wants[i].as_str());
        match position_in(&left, want.as_str()) {
            Some(p) => {
                let ghost d0 = done@;
                let ghost l0 = left@;
                let x = left.remove(p);
                done.push(x);
                assert(texts(done@) =~= texts(d0).push(texts(l0)[p as int]));
                assert(texts(left@) =~= texts(l0).remove(p as int));
            },
            None => {},
        }
        i = i + 1;
    }
    assert(all.take(i as int) =~= all);
    let ghost d1 = done@;
    let ghost l1 = left@;
    done.append(&mut left);
    assert(texts(done@) =~= texts(d1) + texts(l1));
    done
}

/// Whether two optional texts are equal.
pub fn same_opt(a: &Option<String>, b: &Option<String>) -> (r: bool)
    ensures
        r == (opt_text(*a) == opt_text(*b)),
{
    match (a, b) {
        (Some(x), Some(y)) => same(x.as_str(), y.as_str()),
        (None, None) => true,
        _ => false,
    }
}

impl App {
    /// List the profiles anew: `paths` are the files of the profile
    /// directory, `wanted` the text of the order file.
    pub fn refresh_profiles(&mut self, paths: &Vec<String>, wanted: &str)
        ensures
            final(self)@ == old(self)@.with_profiles(listed_profiles(texts(paths@), wanted@)),
            final(self)@ == old(self)@.with_profiles(
                in_wanted_order(sorted_names(texts(paths@)), lines_of(wanted@)),
            ),
    {
        let names = in_order(profile_names(paths), wanted);
        let n: usize = names.len();
        assert(texts(names@).len() == n);
        self.profiles = names;
        let sel: usize = match self.profile_sel {
            Some(i) => i,
            None => 0,
        };
        self.profile_sel = if n == 0 {
            None
        } else if sel < n - 1 {
            Some(sel)
        } else {
            Some(n - 1)
        };
        self.preview_for = None;
    }

    /// Move the selected profile in the list. Returns the text of the order
    /// file to write, if the profile was moved.
    pub fn move_profile(&mut self, delta: isize) -> (r: Option<String>)
        ensures
            final(self)@ == old(self)@.profile_moved(delta as int),
            opt_text(r) == (if old(self)@.profile_moves(delta as int) {
                Some(joined(final(self)@.profiles, "\n"@))
            } else {
                None
            }),
    {
        let i: usize = match self.profile_sel {
            Some(s) => s,
            None => {
                return None;
            },
        };
        if i >= self.profiles.len() {
            return None;
        }
        let j: i128 = i as i128 + delta as i128;
        if j < 0 || j >= self.profiles.len() as i128 {
            return None;
        }
        let k: usize = j as usize;
        let ghost p0 = self.profiles@;
        swap(&mut self.profiles, i, k);
        assert(texts(self.profiles@) =~= swapped(texts(p0), i as int, k as int));
        self.profile_sel = Some(k);
        self.preview_for = None;
        Some(join(&self.profiles, "\n"))
    }

    /// The profile selected in the list.
    pub fn selected_profile(&self) -> (r: Option<String>)
        ensures
            opt_text(r) == self@.selected_name(),
    {
        match self.profile_sel {
            Some(i) => if i < self.profiles.len() {
                assert(self@.profiles[i as int] == self.profiles@[i as int]@);
                Some(self.profiles[i].clone())
            } else {
                None
            },
            None => None,
        }
    }

    /// The profile whose text is needed to bring the preview up to date.
    pub fn preview_wanted(&self) -> (r: Option<String>)
        ensures
            opt_text(r) == self@.wanted_preview(),
            opt_text(r) == (if self@.preview_for == self@.selected_name() {
                None
            } else {
                self@.selected_name()
            }),
    {
        let name = self.selected_profile();
        if same_opt(&self.preview_for, &name) {
            None
        } else {
            name
        }
    }

    /// The line of the preview for a profile's entry.
    fn preview_of(&self, e: &MlEntry) -> (r: PreviewLine)
        ensures
            r@ == self@.preview_line(e@),
    {
        match self.position_of(e.id.as_str()) {
            Some(i) => {
                assert(self@.pool[i as int] == self.pool@[i as int]@);
                let m = &self.pool[i];
                let updated = match (&e.manifest, &m.steam_id) {
                    (Some(pin), Some(sid)) => match self.installed_manifest(sid.as_str()) {
                        Some(cur) => !same(cur.as_str(), pin.as_str()),
                        None => false,
                    },
                    _ => false,
                };
                PreviewLine { label: m.name.clone(), missing: m.missing, updated }
            },
            None => PreviewLine { label: e.id.clone(), missing: true, updated: false },
        }
    }

    /// Bring the preview up to date, given the text of the selected profile if
    /// it could be read.
    pub fn refresh_preview(&mut self, text: Option<&str>)
        ensures
            final(self)@ == old(self)@.preview_refreshed(entries_or_none(opt_str(text))),
    {
        let name = self.selected_profile();
        if same_opt(&self.preview_for, &name) {
            return;
        }
        let mut preview: Vec<PreviewLine> = Vec::new();
        assert(preview_views(preview@) =~= Seq::<PreviewView>::empty());
        if name.is_some() {
            let entries = match read_modlist(text) {
                Ok(v) => v,
                Err(_) => Vec::new(),
            };
            let ghost all = ml_views(entries@);
            assert(all =~= entries_or_none(opt_str(text)));
            let ghost lines = all.map_values(|e: MlView| self@.preview_line(e));
            let mut i: usize = 0;
            while i < entries.len()
                invariant
                    i <= entries@.len(),
                    all == ml_views(entries@),
                    lines == all.map_values(|e: MlView| self@.preview_line(e)),
                    preview_views(preview@) == lines.take(i as int),
                decreases entries@.len() - i,
            {
                let ghost p0 = preview@;
                let l = self.preview_of(&entries[i]);
                preview.push(l);
                i = i + 1;
                assert(preview_views(preview@) =~= preview_views(p0).push(l@));
                assert(lines.take(i as int) =~= lines.take(i - 1).push(lines[i - 1]));
            }
            assert(lines.take(i as int) =~= lines);
        }
        self.preview = preview;
        self.preview_for = name;
    }
}

/// The profile's entry for an item: named by `id`, else by `steam_id`, else by
/// `uuid`; enabled unless it says otherwise; local if it says so or else if it
/// has no item id.
pub open spec fn entry_for(e: JsonView) -> Option<MlView> {
    let sid = e.text_at("steam_id"@);
    let id = if e.text_at("id"@) is Some {
        e.text_at("id"@)
    } else if sid is Some {
        sid
    } else {
        e.text_at("uuid"@)
    };
    if id is None {
        None
    } else {
        Some(
            MlView {
                id: id->0,
                local: e.flag_at("local"@) == Some(true) || (e.flag_at("local"@) is None
                    && sid is None),
                enabled: e.flag_at("active"@) != Some(false),
                requires: if e.items_at("requires"@) is Some {
                    e.items_at("requires"@)->0.filter_map(
                        |j: JsonView|
                            match j {
                                JsonView::Str(s) => Some(s),
                                _ => None,
                            },
                    )
                } else {
                    Seq::empty()
                },
                steam_id: sid,
                manifest: e.text_at("manifest"@),
                sha256: e.text_at("sha256"@),
            },
        )
    }
}

/// A profile lists every item of its list of mods that names a mod, in order.
pub proof fn profiles_list_every_mod(doc: JsonView)
    ensures
        listed_mods(doc) is Some <==> doc.items_at("mods"@) is Some,
        doc.items_at("mods"@) matches Some(items) ==> listed_mods(doc) == Some(
            items.filter_map(|e: JsonView| entry_for(e)),
        ),
{
    match doc.items_at("mods"@) {
        Some(items) => lemma_entries(items),
        None => {},
    }
}

proof fn lemma_entries(items: Seq<JsonView>)
    ensures
        ml_entries(items) == items.filter_map(|e: JsonView| entry_for(e)),
    decreases items.len(),
{
    if items.len() > 0 {
        lemma_entries(items.drop_last());
        let e = items.last();
        match e.items_at("requires"@) {
            Some(a) => listed_texts_are_the_texts(a),
            None => {},
        }
        assert(ml_entry(e) == entry_for(e));
    }
    assert(ml_entries(items) =~= items.filter_map(|e: JsonView| entry_for(e)));
}

proof fn lemma_first_id(pool: Seq<ModView>, id: Seq<char>, from: int)
    requires
        0 <= from,
    ensures
        match first_with_id(pool, id, from) {
            Some(i) => from <= i < pool.len() && same_ignoring_case(pool[i].id, id) && forall|j: int|
                from <= j < i ==> !same_ignoring_case((#[trigger] pool[j]).id, id),
            None => forall|j: int|
                from <= j < pool.len() ==> !same_ignoring_case((#[trigger] pool[j]).id, id),
        },
    decreases pool.len() - from,
{
    if from < pool.len() && !same_ignoring_case(pool[from].id, id) {
        lemma_first_id(pool, id, from + 1);
    }
}

/// The slots of a profile are its entries, all of them and in order, each with
/// the switch and the requirements of its entry, at the first mod of the pool
/// with its id whatever the case.
pub proof fn slots_are_the_entries(pool: Seq<ModView>, entries: Seq<MlView>)
    requires
        pool.len() <= usize::MAX,
    ensures
        slots_for(pool, entries).len() == entries.len(),
        forall|k: int|
            #![trigger slots_for(pool, entries)[k]]
            0 <= k < entries.len() ==> {
                let s = slots_for(pool, entries)[k];
                let id = entries[k].id;
                &&& s.id == id
                &&& s.enabled == entries[k].enabled
                &&& s.requires == entries[k].requires
                &&& match s.idx {
                    Some(i) => i < pool.len() && same_ignoring_case(pool[i as int].id, id)
                        && forall|j: int|
                        0 <= j < i ==> !same_ignoring_case((#[trigger] pool[j]).id, id),
                    None => forall|j: int|
                        0 <= j < pool.len() ==> !same_ignoring_case((#[trigger] pool[j]).id, id),
                }
            },
{
    assert forall|k: int|
        #![trigger slots_for(pool, entries)[k]]
        0 <= k < entries.len() implies {
        let s = slots_for(pool, entries)[k];
        let id = entries[k].id;
        &&& s.id == id
        &&& match s.idx {
            Some(i) => i < pool.len() && same_ignoring_case(pool[i as int].id, id) && forall|j: int|
                0 <= j < i ==> !same_ignoring_case((#[trigger] pool[j]).id, id),
            None => forall|j: int|
                0 <= j < pool.len() ==> !same_ignoring_case((#[trigger] pool[j]).id, id),
        }
    } by {
        lemma_first_id(pool, entries[k].id, 0);
    }
}

/// The item pins the mod `id`, and no later item does.
pub open spec fn pins_last(items: Seq<JsonView>, id: Seq<char>, k: int) -> bool {
    &&& 0 <= k < items.len()
    &&& entry_for(items[k]) is Some && entry_for(items[k])->0.id == id
    &&& items[k].text_at("manifest"@) is Some
    &&& forall|j: int|
        k < j < items.len() ==> !(entry_for(#[trigger] items[j]) is Some && entry_for(
            items[j],
        )->0.id == id && items[j].text_at("manifest"@) is Some)
}

/// A profile pins a mod to the version that its last item for the mod records,
/// and pins no other mod.
pub proof fn profiles_pin_what_they_record(doc: JsonView, items: Seq<JsonView>, id: Seq<char>)
    requires
        doc.items_at("mods"@) == Some(items),
    ensures
        pins_of(Some(doc)).contains_key(id) <==> exists|k: int| pins_last(items, id, k),
        forall|k: int| #[trigger]
            pins_last(items, id, k) ==> pins_of(Some(doc))[id] == items[k].text_at(
                "manifest"@,
            )->0,
{
    lemma_pins(items, id);
}

proof fn lemma_pins(items: Seq<JsonView>, id: Seq<char>)
    ensures
        pins_among(items).contains_key(id) <==> exists|k: int| pins_last(items, id, k),
        forall|k: int| #[trigger]
            pins_last(items, id, k) ==> pins_among(items)[id] == items[k].text_at("manifest"@)->0,
    decreases items.len(),
{
    if items.len() > 0 {
        let rest = items.drop_last();
        let n = items.len() - 1;
        lemma_pins(rest, id);
        let e = items.last();
        assert(entry_for(e) is Some ==> entry_id(e) == Some(entry_for(e)->0.id));
        assert(entry_for(e) is None ==> entry_id(e) is None);
        let here = entry_for(e) is Some && entry_for(e)->0.id == id && e.text_at(
            "manifest"@,
        ) is Some;
        if here {
            assert(pins_last(items, id, n));
        } else {
            if pins_among(items).contains_key(id) {
                let k = choose|k: int| pins_last(rest, id, k);
                assert forall|j: int| k < j < items.len() implies !(entry_for(
                    #[trigger] items[j],
                ) is Some && entry_for(items[j])->0.id == id && items[j].text_at(
                    "manifest"@,
                ) is Some) by {
                    if j < n {
                        assert(rest[j] == items[j]);
                    }
                }
                assert(pins_last(items, id, k));
            }
        }
        assert forall|k: int| #[trigger] pins_last(items, id, k) implies pins_among(items)[id]
            == items[k].text_at("manifest"@)->0 && pins_among(items).contains_key(id) by {
            if k < n {
                assert(!here) by {
                    assert(items[n] == e);
                }
                assert(rest[k] == items[k]);
                assert forall|j: int| k < j < rest.len() implies !(entry_for(
                    #[trigger] rest[j],
                ) is Some && entry_for(rest[j])->0.id == id && rest[j].text_at(
                    "manifest"@,
                ) is Some) by {
                    assert(rest[j] == items[j]);
                }
                assert(pins_last(rest, id, k));
            }
        }
    }
}

/// The slots that are counted as missing are those whose mod is not installed;
/// those that are counted as updated are those that are flagged.
pub proof fn slots_are_counted(v: AppView, slots: Seq<SlotView>)
    ensures
        v.missing_among(slots) == slots.filter(
            |s: SlotView|
                match s.idx {
                    Some(i) => v.pool[i as int].missing,
                    None => true,
                },
        ).len(),
        v.updated_among(slots) == slots.filter(|s: SlotView| v.updated(s)).len(),
    decreases slots.len(),
{
    reveal(Seq::filter);
    if slots.len() > 0 {
        slots_are_counted(v, slots.drop_last());
    }
}

/// A drift is reported exactly if a profile is current and a mod of the load
/// order or the game was updated since it was saved; the report names the
/// profile and the number of mods.
pub proof fn drift_is_reported(v: AppView)
    ensures
        ({
            let n = v.slots.filter(|s: SlotView| v.updated(s)).len();
            let game = v.pinned_buildid is Some && v.game_buildid is Some && v.pinned_buildid->0
                != v.game_buildid->0;
            let mods = decimal(n) + " mods updated by Steam"@;
            let build = "game updated (build "@ + v.pinned_buildid->0 + " → "@ + v.game_buildid->0
                + ")"@;
            let tail = " — staying on pinned versions; v to pick, U to update all"@;
            &&& v.drift() is Some <==> v.current_profile is Some && (n > 0 || game)
            &&& v.current_profile is Some && n > 0 && !game ==> v.drift() == Some(
                "Since '"@ + v.current_profile->0 + "' was saved: "@ + mods + tail,
            )
            &&& v.current_profile is Some && n == 0 && game ==> v.drift() == Some(
                "Since '"@ + v.current_profile->0 + "' was saved: "@ + build + tail,
            )
            &&& v.current_profile is Some && n > 0 && game ==> v.drift() == Some(
                "Since '"@ + v.current_profile->0 + "' was saved: "@ + (mods + "; "@ + build)
                    + tail,
            )
        }),
{
    slots_are_counted(v, v.slots);
    let p = v.drift_parts();
    let n = v.slots.filter(|s: SlotView| v.updated(s)).len();
    let mods = decimal(n) + " mods updated by Steam"@;
    let build = "game updated (build "@ + v.pinned_buildid->0 + " → "@ + v.game_buildid->0 + ")"@;
    assert(joined(seq![mods], "; "@) =~= mods) by {
        reveal_with_fuel(joined, 3);
        assert(seq![mods].drop_last() =~= Seq::<Seq<char>>::empty());
    }
    assert(joined(seq![build], "; "@) =~= build) by {
        reveal_with_fuel(joined, 3);
        assert(seq![build].drop_last() =~= Seq::<Seq<char>>::empty());
    }
    assert(joined(seq![mods].push(build), "; "@) =~= mods + "; "@ + build) by {
        reveal_with_fuel(joined, 3);
        assert(seq![mods].push(build).drop_last() =~= seq![mods]);
    }
    assert(Seq::<Seq<char>>::empty().push(build) =~= seq![build]);
}

/// The profiles are the `.json` files of the directory, each by its name without
/// the ending, in alphabetical order.
pub proof fn profiles_are_the_json_files(paths: Seq<Seq<char>>)
    ensures
        ({
            let r = sorted_names(paths);
            &&& r.to_multiset() == paths.filter_map(
                |p: Seq<char>|
                    if extension_of(p) == Some("json"@) {
                        stem_of(p)
                    } else {
                        None
                    },
            ).to_multiset()
            &&& forall|i: int, j: int, at: int|
                0 <= i < j < r.len() ==> !#[trigger] differs_below(r[j], r[i], at)
        }),
{
    lemma_names_among(paths);
    let names = names_among(paths);
    let before = |a: Seq<char>, b: Seq<char>| text_before(a, b);
    <String as SortKey>::order_is_strict_weak();
    assert(before =~= <String as SortKey>::order());
    sorting_rearranges(names, names, before);
    let at = sorted_indices(names, before);
    let r = sorted_names(paths);
    assert forall|i: int, j: int, d: int| 0 <= i < j < r.len() implies !#[trigger] differs_below(
        r[j],
        r[i],
        d,
    ) by {
        assert(!before(names[at[j]], names[at[i]]));
        first_difference_decides(r[j], r[i]);
    }
}

proof fn lemma_names_among(paths: Seq<Seq<char>>)
    ensures
        names_among(paths) == paths.filter_map(
            |p: Seq<char>|
                if extension_of(p) == Some("json"@) {
                    stem_of(p)
                } else {
                    None
                },
        ),
    decreases paths.len(),
{
    let f = |p: Seq<char>|
        if extension_of(p) == Some("json"@) {
            stem_of(p)
        } else {
            None
        };
    if paths.len() > 0 {
        lemma_names_among(paths.drop_last());
    }
    assert(names_among(paths) =~= paths.filter_map(f));
}

/// Somebody asked for the name.
pub open spec fn is_wanted(wants: Seq<Seq<char>>, x: Seq<char>) -> bool {
    exists|i: int| 0 <= i < wants.len() && trimmed(#[trigger] wants[i]) == x
}

/// `x` was asked for before `y` was for the first time.
pub open spec fn wanted_before(wants: Seq<Seq<char>>, x: Seq<char>, y: Seq<char>) -> bool {
    exists|p: int| #[trigger] is_wanted_at(wants, x, p) && !is_wanted(wants.take(p + 1), y)
}

/// The name was asked for at `p`.
pub open spec fn is_wanted_at(wants: Seq<Seq<char>>, x: Seq<char>, p: int) -> bool {
    0 <= p < wants.len() && trimmed(wants[p]) == x
}

/// The names that somebody asked for come first, in the order in which they were
/// asked for, and then the others in the order that they had.
pub proof fn wanted_names_come_first(names: Seq<Seq<char>>, wants: Seq<Seq<char>>)
    requires
        names.no_duplicates(),
    ensures
        ({
            let (done, left) = arranged(names, wants);
            &&& in_wanted_order(names, wants) == done + left
            &&& forall|i: int| 0 <= i < done.len() ==> #[trigger] is_wanted(wants, done[i])
            &&& left == names.filter(|x: Seq<char>| !is_wanted(wants, x))
            &&& forall|i: int, j: int|
                0 <= i < j < done.len() ==> #[trigger] wanted_before(wants, done[i], done[j])
        }),
    decreases wants.len(),
{
    reveal(Seq::filter);
    let (done, left) = arranged(names, wants);
    let not = |x: Seq<char>| !is_wanted(wants, x);
    if wants.len() == 0 {
        lemma_filter_all(names, not);
    } else {
        let w = wants.drop_last();
        let x = trimmed(wants.last());
        let n = wants.len() - 1;
        wanted_names_come_first(names, w);
        let (d0, l0) = arranged(names, w);
        let not0 = |y: Seq<char>| !is_wanted(w, y);
        assert forall|y: Seq<char>| #[trigger] is_wanted(wants, y) == (is_wanted(w, y) || y == x) by {
            if is_wanted(w, y) {
                let i = choose|i: int| 0 <= i < w.len() && trimmed(#[trigger] w[i]) == y;
                assert(trimmed(wants[i]) == y);
            }
            if y == x {
                assert(trimmed(wants[n]) == y);
            }
            if is_wanted(wants, y) {
                let i = choose|i: int| 0 <= i < wants.len() && trimmed(#[trigger] wants[i]) == y;
                if i < n {
                    assert(trimmed(w[i]) == y);
                }
            }
        }
        lemma_first_position(l0, x, 0);
        lemma_filter_one_less(names, not0, not, x);
        lemma_filter_no_duplicates(names, not0);
        match first_position(l0, x, 0) {
            Some(p) => {
                assert(not0(x)) by {
                    names.lemma_filter_pred(not0, p);
                }
                lemma_remove_is_filter(l0, p, x);
                assert(left =~= names.filter(not));
                assert forall|i: int| 0 <= i < done.len() implies #[trigger] is_wanted(
                    wants,
                    done[i],
                ) by {
                    if i < d0.len() {
                        assert(is_wanted(w, d0[i]));
                    }
                }
                assert forall|i: int, j: int| 0 <= i < j < done.len() implies #[trigger] wanted_before(
                    wants,
                    done[i],
                    done[j],
                ) by {
                    if j < d0.len() {
                        assert(wanted_before(w, d0[i], d0[j]));
                        lemma_wanted_before(wants, done[i], done[j]);
                    } else {
                        assert(is_wanted(w, d0[i]));
                        lemma_wanted_before(wants, done[i], x);
                    }
                }
            },
            None => {
                assert(!l0.contains(x));
                assert(l0.filter(|y: Seq<char>| y != x) =~= l0) by {
                    lemma_filter_all(l0, |y: Seq<char>| y != x);
                }
                assert forall|i: int| 0 <= i < done.len() implies #[trigger] is_wanted(
                    wants,
                    done[i],
                ) by {
                    assert(is_wanted(w, d0[i]));
                }
                assert forall|i: int, j: int| 0 <= i < j < done.len() implies #[trigger] wanted_before(
                    wants,
                    done[i],
                    done[j],
                ) by {
                    assert(wanted_before(w, d0[i], d0[j]));
                    lemma_wanted_before(wants, done[i], done[j]);
                }
            },
        }
    }
}

proof fn lemma_wanted_before(wants: Seq<Seq<char>>, x: Seq<char>, y: Seq<char>)
    requires
        wants.len() > 0,
    ensures
        wanted_before(wants.drop_last(), x, y) ==> wanted_before(wants, x, y),
        is_wanted(wants.drop_last(), x) && !is_wanted(wants.drop_last(), y) ==> wanted_before(
            wants,
            x,
            y,
        ),
{
    let w = wants.drop_last();
    if wanted_before(w, x, y) {
        let p = choose|p: int| #[trigger] is_wanted_at(w, x, p) && !is_wanted(w.take(p + 1), y);
        assert(w.take(p + 1) =~= wants.take(p + 1));
        assert(is_wanted_at(wants, x, p));
    }
    if is_wanted(w, x) && !is_wanted(w, y) {
        let p = choose|p: int| 0 <= p < w.len() && trimmed(#[trigger] w[p]) == x;
        assert(is_wanted_at(wants, x, p));
        let t = wants.take(p + 1);
        if is_wanted(t, y) {
            let q = choose|q: int| 0 <= q < t.len() && trimmed(#[trigger] t[q]) == y;
            assert(trimmed(w[q]) == y);
        }
    }
}

proof fn lemma_filter_all(v: Seq<Seq<char>>, p: spec_fn(Seq<char>) -> bool)
    requires
        forall|i: int| 0 <= i < v.len() ==> p(#[trigger] v[i]),
    ensures
        v.filter(p) == v,
    decreases v.len(),
{
    reveal(Seq::filter);
    if v.len() > 0 {
        assert forall|i: int| 0 <= i < v.drop_last().len() implies p(#[trigger] v.drop_last()[i]) by {
            assert(v.drop_last()[i] == v[i]);
        }
        lemma_filter_all(v.drop_last(), p);
        assert(p(v[v.len() - 1]));
        assert(v.drop_last().push(v.last()) =~= v);
    }
}

proof fn lemma_filter_one_less(
    v: Seq<Seq<char>>,
    p: spec_fn(Seq<char>) -> bool,
    q: spec_fn(Seq<char>) -> bool,
    x: Seq<char>,
)
    requires
        forall|y: Seq<char>| #[trigger] q(y) == (p(y) && y != x),
    ensures
        v.filter(q) == v.filter(p).filter(|y: Seq<char>| y != x),
    decreases v.len(),
{
    reveal(Seq::filter);
    if v.len() > 0 {
        lemma_filter_one_less(v.drop_last(), p, q, x);
        let a = v.drop_last().filter(p);
        assert(a.push(v.last()).drop_last() =~= a);
        assert(q(v.last()) == (p(v.last()) && v.last() != x));
    }
}

proof fn lemma_filter_no_duplicates(v: Seq<Seq<char>>, p: spec_fn(Seq<char>) -> bool)
    requires
        v.no_duplicates(),
    ensures
        v.filter(p).no_duplicates(),
    decreases v.len(),
{
    reveal(Seq::filter);
    if v.len() > 0 {
        lemma_filter_no_duplicates(v.drop_last(), p);
        let a = v.drop_last().filter(p);
        assert(!a.contains(v.last())) by {
            if a.contains(v.last()) {
                v.drop_last().lemma_filter_contains_rev(p, v.last());
                let i = choose|i: int| 0 <= i < v.len() - 1 && v.drop_last()[i] == v.last();
                assert(v[i] == v[v.len() - 1]);
            }
        }
        if p(v.last()) {
            assert forall|i: int, j: int| 0 <= i < j < a.push(v.last()).len() implies a.push(
                v.last(),
            )[i] != a.push(v.last())[j] by {
                if j == a.len() {
                    assert(a.contains(a[i]));
                }
            }
        }
    }
}

proof fn lemma_remove_is_filter(v: Seq<Seq<char>>, p: int, x: Seq<char>)
    requires
        v.no_duplicates(),
        0 <= p < v.len(),
        v[p] == x,
    ensures
        v.remove(p) == v.filter(|y: Seq<char>| y != x),
    decreases v.len(),
{
    reveal(Seq::filter);
    let not = |y: Seq<char>| y != x;
    let d = v.drop_last();
    if p == v.len() - 1 {
        assert forall|i: int| 0 <= i < d.len() implies not(#[trigger] d[i]) by {
            assert(d[i] == v[i]);
        }
        lemma_filter_all(d, not);
        assert(v.remove(p) =~= d);
    } else {
        assert(d.no_duplicates());
        lemma_remove_is_filter(d, p, x);
        assert(v[v.len() - 1] != v[p]);
        assert(not(v.last()));
        assert(v.remove(p) =~= d.remove(p).push(v.last()));
    }
}

proof fn lemma_first_with_pack_found(pool: Seq<ModView>, name: Seq<char>, from: int)
    requires
        0 <= from,
    ensures
        match first_with_pack(pool, name, from) {
            Some(i) => from <= i < pool.len() && has_pack(pool[i], name) && forall|j: int|
                from <= j < i ==> !has_pack(#[trigger] pool[j], name),
            None => forall|j: int|
                from <= j < pool.len() ==> !has_pack(#[trigger] pool[j], name),
        },
    decreases pool.len() - from,
{
    if from < pool.len() && !has_pack(pool[from], name) {
        lemma_first_with_pack_found(pool, name, from + 1);
    }
}

/// A mod of the pool has a pack of the given file name, whatever the case.
pub open spec fn carries(m: ModView, name: Seq<char>) -> bool {
    exists|k: int|
        0 <= k < m.packs.len() && name_of(#[trigger] m.packs[k]) is Some && same_ignoring_case(
            name_of(m.packs[k])->0,
            name,
        )
}

/// The mod is the first of the pool to carry one of the packs.
pub open spec fn is_carried(pool: Seq<ModView>, packs: Seq<Seq<char>>, i: int) -> bool {
    exists|j: int| 0 <= j < packs.len() && #[trigger] is_first_carrier(pool, packs[j], i)
}

/// The slot is enabled, needs nothing, and stands for the mod at its index.
pub open spec fn is_fresh(pool: Seq<ModView>, s: SlotView) -> bool {
    &&& s.enabled
    &&& s.requires.len() == 0
    &&& s.idx is Some
    &&& s.idx->0 < pool.len()
    &&& s.id == pool[s.idx->0 as int].id
}

/// The load order that the launcher's active packs give has a slot for every
/// mod that is the first of the pool to carry one of the packs, and for no other
/// mod, all enabled and in the order of the packs.
pub proof fn active_packs_seed_the_load_order(pool: Seq<ModView>, packs: Seq<Seq<char>>)
    requires
        pool.len() <= usize::MAX,
    ensures
        forall|i: int| #[trigger]
            is_carried(pool, packs, i) ==> seeded(pool, packs).map_values(
                |s: SlotView| s.id,
            ).contains(pool[i].id),
        forall|k: int|
            0 <= k < seeded(pool, packs).len() ==> is_fresh(
                pool,
                #[trigger] seeded(pool, packs)[k],
            ) && is_carried(pool, packs, seeded(pool, packs)[k].idx->0 as int),
        packs.len() > 0 ==> seeded(pool, packs.drop_last()).is_prefix_of(seeded(pool, packs)),
    decreases packs.len(),
{
    if packs.len() > 0 {
        let r = seeded(pool, packs);
        let d = packs.drop_last();
        let s = seeded(pool, d);
        let p = packs.last();
        let n = packs.len() - 1;
        let id = |s: SlotView| s.id;
        active_packs_seed_the_load_order(pool, d);
        lemma_carries(pool, p);
        lemma_first_with_pack_found(pool, p, 0);
        assert(s =~= r.subrange(0, s.len() as int));
        assert forall|i: int| #[trigger] is_carried(pool, packs, i) implies r.map_values(
            id,
        ).contains(pool[i].id) by {
            lemma_is_carried(pool, packs, i);
            if is_carried(pool, d, i) {
                let k = choose|k: int|
                    0 <= k < s.map_values(id).len() && s.map_values(id)[k] == pool[i].id;
                assert(r.map_values(id)[k] == pool[i].id);
            } else {
                assert(first_with_pack(pool, p, 0) == Some(i));
                if has_slot(s, pool[i].id) {
                    let k = choose|k: int| 0 <= k < s.len() && (#[trigger] s[k]).id == pool[i].id;
                    assert(r.map_values(id)[k] == pool[i].id);
                } else {
                    assert(r.map_values(id)[s.len() as int] == pool[i].id);
                }
            }
        }
        assert forall|k: int| 0 <= k < r.len() implies is_fresh(pool, #[trigger] r[k])
            && is_carried(pool, packs, r[k].idx->0 as int) by {
            if k < s.len() {
                assert(r[k] == s[k]);
            } else {
                assert(is_first_carrier(pool, p, r[k].idx->0 as int));
            }
            lemma_is_carried(pool, packs, r[k].idx->0 as int);
        }
    }
}

proof fn lemma_is_carried(pool: Seq<ModView>, packs: Seq<Seq<char>>, i: int)
    requires
        packs.len() > 0,
    ensures
        is_carried(pool, packs, i) <==> is_carried(pool, packs.drop_last(), i)
            || is_first_carrier(pool, packs.last(), i),
{
    let d = packs.drop_last();
    let n = packs.len() - 1;
    if is_carried(pool, packs, i) {
        let j = choose|j: int|
            0 <= j < packs.len() && #[trigger] is_first_carrier(pool, packs[j], i);
        if j < n {
            assert(is_first_carrier(pool, d[j], i));
        }
    }
    if is_carried(pool, d, i) {
        let j = choose|j: int| 0 <= j < d.len() && #[trigger] is_first_carrier(pool, d[j], i);
        assert(is_first_carrier(pool, packs[j], i));
    }
    if is_first_carrier(pool, packs.last(), i) {
        assert(is_first_carrier(pool, packs[n], i));
    }
}

/// The mod at `i` is the first of the pool to carry the pack.
pub open spec fn is_first_carrier(pool: Seq<ModView>, name: Seq<char>, i: int) -> bool {
    0 <= i < pool.len() && carries(pool[i], name) && forall|j: int|
        0 <= j < i ==> !carries(#[trigger] pool[j], name)
}

proof fn lemma_carries(pool: Seq<ModView>, name: Seq<char>)
    ensures
        forall|i: int| #[trigger]
            is_first_carrier(pool, name, i) <==> first_with_pack(pool, name, 0) == Some(i),
{
    lemma_first_with_pack_found(pool, name, 0);
    assert forall|j: int| 0 <= j < pool.len() implies #[trigger] has_pack(pool[j], name) == carries(
        pool[j],
        name,
    ) by {
        let m = pool[j];
        if has_pack(m, name) {
            let k = choose|k: int| 0 <= k < m.packs.len() && #[trigger] is_named(m.packs[k], name);
            assert(name_of(m.packs[k]) is Some);
        }
        if carries(m, name) {
            let k = choose|k: int|
                0 <= k < m.packs.len() && name_of(#[trigger] m.packs[k]) is Some
                    && same_ignoring_case(name_of(m.packs[k])->0, name);
            assert(is_named(m.packs[k], name));
        }
    }
    assert forall|i: int| #[trigger] is_first_carrier(pool, name, i) <==> first_with_pack(
        pool,
        name,
        0,
    ) == Some(i) by {
        if is_first_carrier(pool, name, i) {
            assert(has_pack(pool[i], name));
            match first_with_pack(pool, name, 0) {
                Some(k) => {
                    assert(has_pack(pool[k], name));
                    if k < i {
                        assert(!carries(pool[k], name));
                    }
                    if i < k {
                        assert(!has_pack(pool[i], name));
                    }
                },
                None => {},
            }
        }
        if first_with_pack(pool, name, 0) == Some(i) {
            assert forall|j: int| 0 <= j < i implies !carries(#[trigger] pool[j], name) by {
                assert(!has_pack(pool[j], name));
            }
        }
    }
}

/// The packs that seed the load order are those that the launcher has active,
/// each once, by the launcher's order and else as they are listed.
pub proof fn active_packs_are_in_the_launchers_order(items: Seq<(Seq<char>, ModMeta)>)
    requires
        forall|a: int, b: int|
            0 <= a < b < items.len() ==> (#[trigger] items[a]).0 != (#[trigger] items[b]).0,
    ensures
        ({
            let r = active_packs(items);
            &&& r.to_multiset() == items.filter(|p: (Seq<char>, ModMeta)| p.1.active).map_values(
                |p: (Seq<char>, ModMeta)| p.0,
            ).to_multiset()
            &&& forall|i: int, j: int, a: int, b: int|
                #![trigger r[i], r[j], items[a], items[b]]
                0 <= i < j < r.len() && 0 <= a < items.len() && 0 <= b < items.len() && items[a].0
                    == r[i] && items[b].0 == r[j] ==> items[a].1.order < items[b].1.order || (
                items[a].1.order == items[b].1.order && a < b)
        }),
{
    let keep = |p: (Seq<char>, ModMeta)| p.1.active;
    let active = items.filter(keep);
    let names = active.map_values(|p: (Seq<char>, ModMeta)| p.0);
    let keys = active.map_values(|p: (Seq<char>, ModMeta)| p.1.order as int);
    let before = |a: int, b: int| a < b;
    sorting_rearranges(names, keys, before);
    let at = sorted_indices(keys, before);
    let r = active_packs(items);
    assert forall|i: int, j: int, a: int, b: int|
        #![trigger r[i], r[j], items[a], items[b]]
        0 <= i < j < r.len() && 0 <= a < items.len() && 0 <= b < items.len() && items[a].0 == r[i]
            && items[b].0 == r[j] implies items[a].1.order < items[b].1.order || (items[a].1.order
        == items[b].1.order && a < b) by {
        assert(!before(keys[at[j]], keys[at[i]]));
        items.lemma_filter_contains_rev(keep, active[at[i]]);
        items.lemma_filter_contains_rev(keep, active[at[j]]);
        let x = choose|x: int| 0 <= x < items.len() && items[x] == active[at[i]];
        let y = choose|y: int| 0 <= y < items.len() && items[y] == active[at[j]];
        assert(items[x].0 == items[a].0 && items[y].0 == items[b].0);
        assert(x == a && y == b);
        if at[i] < at[j] {
            let (p, q) = lemma_filter_in_order(items, keep, at[i], at[j]);
            assert(items[p].0 == items[a].0 && items[q].0 == items[b].0);
            assert(p == a && q == b);
        }
    }
}

/// The preview of the selected profile has a line for every entry, in order: the
/// name of its mod, whether that is missing, and whether Steam has another
/// version of it installed than the profile pins.
pub proof fn previews_show_every_entry(v: AppView, entries: Seq<MlView>)
    requires
        v.selected_name() is Some,
        v.preview_for != v.selected_name(),
    ensures
        ({
            let r = v.preview_refreshed(entries);
            &&& r == (AppView { preview_for: v.selected_name(), preview: r.preview, ..v })
            &&& r.preview.len() == entries.len()
            &&& forall|k: int|
                #![trigger r.preview[k]]
                0 <= k < entries.len() ==> {
                    let (l, e) = (r.preview[k], entries[k]);
                    &&& (forall|i: int|
                        0 <= i < v.pool.len() ==> !same_ignoring_case(
                            (#[trigger] v.pool[i]).id,
                            e.id,
                        )) ==> l.label == e.id && l.missing && !l.updated
                    &&& forall|i: int|
                        0 <= i < v.pool.len() && same_ignoring_case((#[trigger] v.pool[i]).id, e.id)
                            && (forall|j: int|
                            0 <= j < i ==> !same_ignoring_case((#[trigger] v.pool[j]).id, e.id))
                            ==> {
                            let m = v.pool[i];
                            &&& l.label == m.name
                            &&& l.missing == m.missing
                            &&& l.updated == (m.steam_id is Some && e.manifest is Some
                                && v.ws.contains_key(m.steam_id->0)
                                && v.ws[m.steam_id->0].manifest.len() > 0
                                && v.ws[m.steam_id->0].manifest != e.manifest->0)
                        }
                }
        }),
{
    let r = v.preview_refreshed(entries);
    assert forall|k: int|
        #![trigger r.preview[k]]
        0 <= k < entries.len() implies {
        let (l, e) = (r.preview[k], entries[k]);
        &&& (forall|i: int|
            0 <= i < v.pool.len() ==> !same_ignoring_case((#[trigger] v.pool[i]).id, e.id))
            ==> l.label == e.id && l.missing && !l.updated
        &&& forall|i: int|
            0 <= i < v.pool.len() && same_ignoring_case((#[trigger] v.pool[i]).id, e.id) && (forall|
                j: int,
            |
                0 <= j < i ==> !same_ignoring_case((#[trigger] v.pool[j]).id, e.id)) ==> {
                let m = v.pool[i];
                &&& l.label == m.name
                &&& l.missing == m.missing
                &&& l.updated == (m.steam_id is Some && e.manifest is Some && v.ws.contains_key(
                    m.steam_id->0,
                ) && v.ws[m.steam_id->0].manifest.len() > 0 && v.ws[m.steam_id->0].manifest
                    != e.manifest->0)
            }
    } by {
        let e = entries[k];
        lemma_first_id(v.pool, e.id, 0);
        match first_with_id(v.pool, e.id, 0) {
            Some(x) => {
                assert(same_ignoring_case(v.pool[x].id, e.id));
            },
            None => {},
        }
    }
}

/// Listing the profiles again keeps the selected row where there is one and the
/// last one else, and has the preview made anew.
pub proof fn listing_again_keeps_the_selection(v: AppView, names: Seq<Seq<char>>)
    requires
        names.len() <= usize::MAX,
    ensures
        ({
            let r = v.with_profiles(names);
            &&& r == (AppView {
                profiles: names,
                profile_sel: r.profile_sel,
                preview_for: None,
                ..v
            })
            &&& names.len() == 0 ==> r.profile_sel is None
            &&& names.len() > 0 && v.profile_sel is None ==> r.profile_sel == Some(0usize)
            &&& v.profile_sel is Some && v.profile_sel->0 < names.len() ==> r.profile_sel
                == v.profile_sel
            &&& v.profile_sel is Some && 0 < names.len() <= v.profile_sel->0 ==> r.profile_sel
                == Some((names.len() - 1) as usize)
        }),
{
}

/// A profile is read where its file could be read, is JSON, and lists mods; each
/// error is told exactly where its cause is.
pub proof fn profiles_are_read_or_refused(text: Seq<char>, path: Seq<char>)
    ensures
        modlist_of(None) == Err::<Seq<MlView>, ModlistErrorView>(ModlistErrorView::Unreadable),
        json_reading(text) matches Err(e) ==> modlist_of(Some(text)) == Err::<
            Seq<MlView>,
            ModlistErrorView,
        >(ModlistErrorView::NotJson(e)),
        json_reading(text) matches Ok(d) ==> {
            &&& d.items_at("mods"@) is None ==> modlist_of(Some(text)) == Err::<
                Seq<MlView>,
                ModlistErrorView,
            >(ModlistErrorView::NoMods)
            &&& d.items_at("mods"@) is Some ==> modlist_of(Some(text)) == Ok::<
                Seq<MlView>,
                ModlistErrorView,
            >(d.items_at("mods"@)->0.filter_map(|e: JsonView| entry_for(e)))
        },
        ModlistErrorView::Unreadable.text(path) == "could not read "@ + path,
        forall|e: Seq<char>| #[trigger]
            ModlistErrorView::NotJson(e).text(path) == "could not parse "@ + path
                && ModlistErrorView::NotJson(e).fault() == Some(e),
        ModlistErrorView::NoMods.text(path) == "profile has no \"mods\" array"@,
        ModlistErrorView::Unreadable.fault() is None && ModlistErrorView::NoMods.fault() is None,
{
    match json_reading(text) {
        Ok(d) => profiles_list_every_mod(d),
        Err(_) => {},
    }
}

/// A preview is made of the selected profile exactly if it is not shown yet, and
/// once it is made it is not asked for again.
pub proof fn previews_are_made_once(v: AppView, entries: Seq<MlView>)
    ensures
        v.wanted_preview() is Some ==> v.profile_sel is Some && v.profile_sel->0 < v.profiles.len()
            && v.wanted_preview() == Some(v.profiles[v.profile_sel->0 as int]),
        v.profile_sel is Some && v.profile_sel->0 < v.profiles.len() ==> (v.wanted_preview() is None
            <==> v.preview_for == Some(v.profiles[v.profile_sel->0 as int])),
        v.preview_refreshed(entries).wanted_preview() is None,
        v.preview_for == v.selected_name() ==> v.preview_refreshed(entries) == v,
        v.selected_name() is None && v.preview_for is Some ==> v.preview_refreshed(
            entries,
        ).preview.len() == 0,
{
}

/// The profiles of a directory in the order in which they are listed, given the
/// file that holds the order.
pub open spec fn listed_profiles(paths: Seq<Seq<char>>, wanted: Seq<char>) -> Seq<Seq<char>> {
    in_wanted_order(sorted_names(paths), lines_of(wanted))
}

/// Every profile of the directory is listed, and nothing else; without a wanted
/// order alphabetically.
pub proof fn every_profile_is_listed(paths: Seq<Seq<char>>, wanted: Seq<char>)
    ensures
        listed_profiles(paths, wanted).to_multiset() == paths.filter_map(
            |p: Seq<char>|
                if extension_of(p) == Some("json"@) {
                    stem_of(p)
                } else {
                    None
                },
        ).to_multiset(),
        wanted.len() == 0 ==> listed_profiles(paths, wanted) == sorted_names(paths),
{
    profiles_are_the_json_files(paths);
    wanted_order_keeps_the_names(sorted_names(paths), lines_of(wanted));
    if wanted.len() == 0 {
        lines_end_at_line_feeds(wanted, wanted);
        let n = sorted_names(paths);
        assert(lines_of(wanted) =~= Seq::<Seq<char>>::empty());
        assert(in_wanted_order(n, Seq::<Seq<char>>::empty()) =~= n);
    }
}

/// A profile is listed under the name that it was saved under.
pub proof fn saved_profiles_are_listed(dir: Seq<char>, name: Seq<char>)
    requires
        name_is_valid(name),
    ensures
        extension_of(profile_path(dir, name)) == Some("json"@),
        stem_of(profile_path(dir, name)) == Some(name),
        sorted_names(seq![profile_path(dir, name)]) == seq![name],
{
    valid_name_stays_in_its_directory(name);
    reveal_strlit(".json");
    reveal_strlit("json");
    let e = "json"@;
    assert(!e.contains('/') && !e.contains('.')) by {
        assert(e[0] == 'j' && e[1] == 's' && e[2] == 'o' && e[3] == 'n' && e.len() == 4);
    }
    assert(name + ".json"@ =~= name + seq!['.'] + e);
    extensions_are_told_in_any_case(dir, name, e, e);
    let p = profile_path(dir, name);
    names_end_in_their_extension(p);
    let n = name_of(p)->0;
    assert(extension_of(p) is Some);
    let x = extension_of(p)->0;
    assert(n == name + seq!['.'] + x);
    assert(n == name + seq!['.'] + e) by {
        lemma_full_name(dir, name, e);
    }
    assert(x =~= n.skip(name.len() as int + 1));
    assert(e =~= n.skip(name.len() as int + 1));
    let one = seq![p];
    profiles_are_the_json_files(one);
    lemma_names_among(one);
    reveal_with_fuel(names_among, 2);
    assert(one.drop_last() =~= Seq::<Seq<char>>::empty());
    assert(names_among(one) =~= seq![name]);
    let r = sorted_names(one);
    broadcast use group_to_multiset_ensures;

    assert(r.to_multiset() == seq![name].to_multiset());
    assert(r.len() == 1) by {
        assert(r.to_multiset().len() == r.len());
        assert(seq![name].to_multiset().len() == 1);
    }
    assert(seq![name].contains(name)) by {
        assert(seq![name][0] == name);
    }
    assert(r.to_multiset().count(name) > 0);
    assert(r.contains(name));
    assert(r =~= seq![name]);
}

proof fn lemma_full_name(dir: Seq<char>, name: Seq<char>, e: Seq<char>)
    requires
        name.len() > 0,
        !name.contains('/'),
        !e.contains('/'),
        e.len() > 0,
    ensures
        name_of(path_join(dir, name + seq!['.'] + e)) == Some(name + seq!['.'] + e),
{
    reveal_strlit(".");
    reveal_strlit("..");
    let n = name + seq!['.'] + e;
    assert(n.len() >= 3);
    assert(!n.contains('/')) by {
        if n.contains('/') {
            let i = choose|i: int| 0 <= i < n.len() && n[i] == '/';
            if i < name.len() {
                assert(name[i] == '/');
            } else if i > name.len() {
                assert(e[i - name.len() - 1] == '/');
            }
        }
    }
    files_are_called_by_their_name(dir, n);
}

proof fn lemma_filter_in_order(
    v: Seq<(Seq<char>, ModMeta)>,
    keep: spec_fn((Seq<char>, ModMeta)) -> bool,
    i: int,
    j: int,
) -> (r: (int, int))
    requires
        0 <= i < j < v.filter(keep).len(),
    ensures
        0 <= r.0 < r.1 < v.len(),
        v[r.0] == v.filter(keep)[i],
        v[r.1] == v.filter(keep)[j],
    decreases v.len(),
{
    reveal(Seq::filter);
    let d = v.drop_last();
    if j < d.filter(keep).len() {
        let (p, q) = lemma_filter_in_order(d, keep, i, j);
        assert(v[p] == d[p] && v[q] == d[q]);
        (p, q)
    } else {
        let x = d.filter(keep)[i];
        d.lemma_filter_contains_rev(keep, x);
        let p = choose|p: int| 0 <= p < d.len() && d[p] == x;
        assert(v[p] == d[p]);
        (p, v.len() - 1)
    }
}

} // verus!
