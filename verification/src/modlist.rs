//! Writing a profile: which version each mod is pinned to, what has to be
//! stored for that, and the document.

use vstd::prelude::*;

use crate::app::{slots_fit, App, AppView};
use crate::json::{
    parsed_json, plain, plain_members, pretty_json, put, text_array, text_list, texts_of_text_array,
    to_string_pretty, trees_one_by_one, Json, JsonNumber, JsonView,
};
use crate::model::{entry_id, MlView, Slot, SlotView};
use crate::paths::{name_of, path_join};
use crate::profiles::{
    listed_mods, ml_entries, ml_entry, pins_among, pins_of, resolved_idx, slots_for, slots_resolved,
};
use crate::store::{stored_pack, stored_pack_path, StoreRequest, StoreView};
use crate::text::{opt_text, texts};

verus! {

/// What has to be done for one slot before its profile is written.
pub struct SlotPlan {
    /// The version to store first.
    pub store: Option<StoreRequest>,
    /// The stored pack whose hash is to be recorded, if it is there.
    pub pack: Option<String>,
}

/// A request to store a version, if there is one.
pub open spec fn opt_store(q: Option<StoreRequest>) -> Option<StoreView> {
    match q {
        Some(x) => Some(x@),
        None => None,
    }
}

impl AppView {
    /// The version of a Workshop item that Steam has installed, if known.
    pub open spec fn current_manifest(self, sid: Seq<char>) -> Option<Seq<char>> {
        if self.ws.contains_key(sid) && self.ws[sid].manifest.len() > 0 {
            Some(self.ws[sid].manifest)
        } else {
            None
        }
    }

    /// The Workshop id of a slot's mod.
    pub open spec fn slot_sid(self, s: SlotView) -> Option<Seq<char>> {
        match s.idx {
            Some(i) => self.pool[i as int].steam_id,
            None => None,
        }
    }

    /// The version that a slot is pinned to when the profile is saved. Pins
    /// are sticky: a mod that is pinned stays on its version, also while it is
    /// not installed; only a Workshop mod without a pin is pinned to the
    /// version that is installed. Local mods have no versions.
    pub open spec fn planned_manifest(self, s: SlotView) -> Option<Seq<char>> {
        let pin = if self.pins.contains_key(s.id) {
            Some(self.pins[s.id])
        } else {
            None
        };
        match s.idx {
            None => pin,
            Some(_) => match self.slot_sid(s) {
                Some(sid) => match pin {
                    Some(m) => Some(m),
                    None => self.current_manifest(sid),
                },
                None => None,
            },
        }
    }

    /// The version to store when the profile is saved: one that is pinned only
    /// now. A version pinned before has been stored then, and its files may no
    /// longer be the installed ones.
    pub open spec fn planned_store(self, s: SlotView) -> Option<StoreView> {
        match (self.slot_sid(s), self.planned_manifest(s)) {
            (Some(sid), Some(m)) => if self.pins.contains_key(s.id) {
                None
            } else {
                Some(
                    StoreView {
                        sid,
                        manifest: m,
                        dir: self.pool[s.idx->0 as int].dir,
                        timeupdated: self.ws[sid].timeupdated,
                        size: self.ws[sid].size,
                    },
                )
            },
            _ => None,
        }
    }

    /// The stored pack whose hash goes into the profile.
    pub open spec fn planned_pack(self, s: SlotView, vault: Seq<char>) -> Option<Seq<char>> {
        match (self.slot_sid(s), self.planned_manifest(s)) {
            (Some(sid), Some(m)) => {
                let packs = self.pool[s.idx->0 as int].packs;
                if packs.len() > 0 {
                    stored_pack(vault, sid, m, packs[0])
                } else {
                    None
                }
            },
            _ => None,
        }
    }

    /// The item that a profile holds for a slot, given the hash of its stored
    /// pack.
    pub open spec fn slot_members(self, s: SlotView, sha: Option<Seq<char>>) -> Map<
        Seq<char>,
        JsonView,
    > {
        let m = Map::<Seq<char>, JsonView>::empty().insert("id"@, JsonView::Str(s.id)).insert(
            "active"@,
            JsonView::Bool(s.enabled),
        );
        let m = if s.requires.len() > 0 {
            m.insert("requires"@, text_array(s.requires))
        } else {
            m
        };
        let m = match s.idx {
            Some(i) => m.insert("local"@, JsonView::Bool(self.pool[i as int].local)),
            None => m,
        };
        let m = match self.slot_sid(s) {
            Some(sid) => m.insert("steam_id"@, JsonView::Str(sid)),
            None => m,
        };
        let m = match self.planned_manifest(s) {
            Some(x) => m.insert("manifest"@, JsonView::Str(x)),
            None => m,
        };
        let m = match (self.slot_sid(s), self.planned_manifest(s)) {
            (Some(sid), Some(x)) => {
                let m = if self.current_manifest(sid) == Some(x) {
                    m.insert(
                        "timeupdated"@,
                        JsonView::Number(JsonNumber::Unsigned(self.ws[sid].timeupdated)),
                    ).insert("size"@, JsonView::Number(JsonNumber::Unsigned(self.ws[sid].size)))
                } else {
                    m
                };
                match sha {
                    Some(h) => m.insert("sha256"@, JsonView::Str(h)),
                    None => m,
                }
            },
            _ => m,
        };
        m
    }

    /// The items that a profile holds for the slots.
    pub open spec fn slot_items(self, slots: Seq<SlotView>, shas: Seq<Option<Seq<char>>>) -> Seq<
        JsonView,
    > {
        Seq::new(slots.len(), |k: int| JsonView::Object(self.slot_members(slots[k], shas[k])))
    }

    /// The document of a profile.
    pub open spec fn modlist_doc(self, shas: Seq<Option<Seq<char>>>, saved_at: u64) -> JsonView {
        JsonView::Object(
            Map::<Seq<char>, JsonView>::empty().insert(
                "saved_at"@,
                JsonView::Number(JsonNumber::Unsigned(saved_at)),
            ).insert(
                "game_buildid"@,
                match self.game_buildid {
                    Some(b) => JsonView::Str(b),
                    None => JsonView::Null,
                },
            ).insert("mods"@, JsonView::Array(self.slot_items(self.slots, shas))),
        )
    }
}

/// The hashes that could be had.
pub open spec fn opt_texts(v: Seq<Option<String>>) -> Seq<Option<Seq<char>>> {
    v.map_values(|o: Option<String>| opt_text(o))
}

impl App {
    /// The version of a Workshop item that Steam has installed, if known.
    pub fn installed_manifest(&self, sid: &str) -> (r: Option<String>)
        ensures
            opt_text(r) == self@.current_manifest(sid@),
    {
        match self.ws.get(sid) {
            Some(w) => if w.manifest.as_str().is_empty() {
                None
            } else {
                Some(w.manifest.clone())
            },
            None => None,
        }
    }

    /// The Workshop id of a slot's mod.
    fn sid_of(&self, s: &Slot) -> (r: Option<String>)
        requires
            s@.is_below(self@.pool.len()),
        ensures
            opt_text(r) == self@.slot_sid(s@),
    {
        match s.idx {
            Some(i) => {
                assert(self@.pool[i as int] == self.pool@[i as int]@);
                match &self.pool[i].steam_id {
                    Some(x) => Some(x.clone()),
                    None => None,
                }
            },
            None => None,
        }
    }

    /// The version that a slot is pinned to when the profile is saved.
    pub fn manifest_to_save(&self, s: &Slot) -> (r: Option<String>)
        requires
            s@.is_below(self@.pool.len()),
        ensures
            opt_text(r) == self@.planned_manifest(s@),
    {
        let pin = match self.pins.get(s.id.as_str()) {
            Some(p) => Some(p.clone()),
            None => None,
        };
        if s.idx.is_none() {
            return pin;
        }
        match self.sid_of(s) {
            Some(sid) => match pin {
                Some(m) => Some(m),
                None => self.installed_manifest(sid.as_str()),
            },
            None => None,
        }
    }

    /// What has to be done for a slot before its profile is written.
    fn plan_slot(&self, s: &Slot, vault: &str) -> (r: SlotPlan)
        requires
            s@.is_below(self@.pool.len()),
        ensures
            opt_store(r.store) == self@.planned_store(s@),
            opt_text(r.pack) == self@.planned_pack(s@, vault@),
    {
        match (s.idx, self.sid_of(s), self.manifest_to_save(s)) {
            (Some(i), Some(sid), Some(m)) => {
                assert(self@.pool[i as int] == self.pool@[i as int]@);
                let e = &self.pool[i];
                let store = match self.pins.get(s.id.as_str()) {
                    Some(_) => None,
                    None => {
                        assert(self@.ws.contains_key(sid@));
                        match self.ws.get(sid.as_str()) {
                            Some(w) => Some(
                                StoreRequest {
                                    sid: sid.clone(),
                                    manifest: m.clone(),
                                    dir: e.dir.clone(),
                                    timeupdated: w.timeupdated,
                                    size: w.size,
                                },
                            ),
                            None => None,
                        }
                    },
                };
                let pack = if e.packs.len() > 0 {
                    assert(e@.packs[0] == e.packs@[0]@);
                    stored_pack_path(vault, sid.as_str(), m.as_str(), e.packs[0].as_str())
                } else {
                    None
                };
                SlotPlan { store, pack }
            },
            _ => SlotPlan { store: None, pack: None },
        }
    }

    /// What has to be done for each slot, in order, before the profile is
    /// written.
    pub fn plan_modlist(&self, vault: &str) -> (r: Vec<SlotPlan>)
        requires
            slots_fit(self@.slots, self@.pool.len()),
        ensures
            r@.len() == self@.slots.len(),
            forall|k: int|
                0 <= k < r@.len() ==> opt_store((#[trigger] r@[k]).store) == self@.planned_store(
                    self@.slots[k],
                ) && opt_text(r@[k].pack) == self@.planned_pack(self@.slots[k], vault@),
    {
        let mut out: Vec<SlotPlan> = Vec::new();
        let mut i: usize = 0;
        while i < self.slots.len()
            invariant
                i <= self.slots@.len(),
                out@.len() == i,
                slots_fit(self@.slots, self@.pool.len()),
                forall|k: int|
                    0 <= k < i ==> opt_store((#[trigger] out@[k]).store) == self@.planned_store(
                        self@.slots[k],
                    ) && opt_text(out@[k].pack) == self@.planned_pack(self@.slots[k], vault@),
            decreases self.slots@.len() - i,
        {
            assert(self@.slots[i as int] == self.slots@[i as int]@);
            let p = self.plan_slot(&self.slots[i], vault);
            out.push(p);
            i = i + 1;
        }
        out
    }

    /// The item that a profile holds for a slot.
    fn slot_json(&self, s: &Slot, sha: &Option<String>) -> (r: Json)
        requires
            s@.is_below(self@.pool.len()),
        ensures
            r@ == JsonView::Object(self@.slot_members(s@, opt_text(*sha))),
            plain(r, 2),
    {
        let mut o: Vec<(String, Json)> = Vec::new();
        put(&mut o, "id", Json::Str(s.id.clone()));
        put(&mut o, "active", Json::Bool(s.enabled));
        assert(texts(s.requires@).len() == s.requires@.len());
        assert(plain_members(o@, 1));
        if s.requires.len() > 0 {
            put(&mut o, "requires", text_list(&s.requires));
            assert(plain_members(o@, 1));
        }
        match s.idx {
            Some(i) => {
                assert(self@.pool[i as int] == self.pool@[i as int]@);
                put(&mut o, "local", Json::Bool(self.pool[i].local));
                assert(plain_members(o@, 1));
            },
            None => {},
        }
        let sid = self.sid_of(s);
        match &sid {
            Some(x) => {
                put(&mut o, "steam_id", Json::Str(x.clone()));
                assert(plain_members(o@, 1));
            },
            None => {},
        }
        let manifest = self.manifest_to_save(s);
        match &manifest {
            Some(m) => {
                put(&mut o, "manifest", Json::Str(m.clone()));
                assert(plain_members(o@, 1));
            },
            None => {},
        }
        match (&sid, &manifest) {
            (Some(x), Some(m)) => {
                match self.ws.get(x.as_str()) {
                    Some(w) => if !w.manifest.as_str().is_empty() && w.manifest == *m {
                        put(
                            &mut o,
                            "timeupdated",
                            Json::Number(JsonNumber::Unsigned(w.timeupdated)),
                        );
                        put(&mut o, "size", Json::Number(JsonNumber::Unsigned(w.size)));
                        assert(plain_members(o@, 1));
                    },
                    None => {},
                }
                match sha {
                    Some(h) => {
                        put(&mut o, "sha256", Json::Str(h.clone()));
                        assert(plain_members(o@, 1));
                    },
                    None => {},
                }
            },
            _ => {},
        }
        Json::Object(o)
    }

    /// The document of a profile that holds the load order. `shas[k]` is the
    /// hash of the stored pack of slot `k`.
    pub fn modlist_json(&self, shas: &Vec<Option<String>>, saved_at: u64) -> (r: Json)
        requires
            slots_fit(self@.slots, self@.pool.len()),
            shas@.len() == self@.slots.len(),
        ensures
            r@ == self@.modlist_doc(opt_texts(shas@), saved_at),
            plain(r, 4),
    {
        let ghost items = self@.slot_items(self@.slots, opt_texts(shas@));
        let mut mods: Vec<Json> = Vec::new();
        let mut i: usize = 0;
        while i < self.slots.len()
            invariant
                i <= self.slots@.len() == shas@.len(),
                slots_fit(self@.slots, self@.pool.len()),
                items == self@.slot_items(self@.slots, opt_texts(shas@)),
                mods@.map_values(|j: Json| j@) == items.take(i as int),
                forall|k: int| 0 <= k < mods@.len() ==> plain(#[trigger] mods@[k], 2),
            decreases self.slots@.len() - i,
        {
            assert(self@.slots[i as int] == self.slots@[i as int]@);
            let j = self.slot_json(&self.slots[i], &shas[i]);
            let ghost m0 = mods@;
            mods.push(j);
            i = i + 1;
            proof {
                assert(mods@.map_values(|j: Json| j@) =~= m0.map_values(|j: Json| j@).push(j@));
                assert(items.take(i as int) =~= items.take(i - 1).push(items[i - 1]));
            }
        }
        proof {
            assert(items.take(i as int) =~= items);
            trees_one_by_one(mods@);
        }
        let mut o: Vec<(String, Json)> = Vec::new();
        put(&mut o, "saved_at", Json::Number(JsonNumber::Unsigned(saved_at)));
        let build = match &self.game_buildid {
            Some(b) => Json::Str(b.clone()),
            None => Json::Null,
        };
        put(&mut o, "game_buildid", build);
        let list = Json::Array(mods);
        assert(plain(list, 3));
        put(&mut o, "mods", list);
        assert(plain_members(o@, 3));
        Json::Object(o)
    }

    /// The text of a profile that holds the load order. Read again, it is the
    /// document of the load order.
    pub fn write_modlist(&self, shas: &Vec<Option<String>>, saved_at: u64) -> (r: String)
        requires
            slots_fit(self@.slots, self@.pool.len()),
            shas@.len() == self@.slots.len(),
        ensures
            r@ == pretty_json(self@.modlist_doc(opt_texts(shas@), saved_at)),
            parsed_json(r@) == Some(self@.modlist_doc(opt_texts(shas@), saved_at)),
    {
        let doc = self.modlist_json(shas, saved_at);
        proof {
            crate::json::plain_is_wider(doc, 4, 127);
        }
        to_string_pretty(&doc)
    }
}

/// What a saved profile says of a slot.
pub open spec fn saved_entry(v: AppView, s: SlotView, sha: Option<Seq<char>>) -> MlView {
    MlView {
        id: s.id,
        local: match s.idx {
            Some(i) => v.pool[i as int].local,
            None => true,
        },
        enabled: s.enabled,
        requires: s.requires,
        steam_id: v.slot_sid(s),
        manifest: v.planned_manifest(s),
        sha256: if v.slot_sid(s) is Some && v.planned_manifest(s) is Some {
            sha
        } else {
            None
        },
    }
}

/// The names that a profile uses differ.
proof fn lemma_names_differ()
    ensures
        "id"@ != "active"@ && "id"@ != "requires"@ && "id"@ != "local"@ && "id"@ != "steam_id"@
            && "id"@ != "manifest"@ && "id"@ != "timeupdated"@ && "id"@ != "size"@ && "id"@
            != "sha256"@,
        "active"@ != "requires"@ && "active"@ != "local"@ && "active"@ != "steam_id"@ && "active"@
            != "manifest"@ && "active"@ != "timeupdated"@ && "active"@ != "size"@ && "active"@
            != "sha256"@,
        "requires"@ != "local"@ && "requires"@ != "steam_id"@ && "requires"@ != "manifest"@
            && "requires"@ != "timeupdated"@ && "requires"@ != "size"@ && "requires"@
            != "sha256"@,
        "local"@ != "steam_id"@ && "local"@ != "manifest"@ && "local"@ != "timeupdated"@ && "local"@
            != "size"@ && "local"@ != "sha256"@,
        "steam_id"@ != "manifest"@ && "steam_id"@ != "timeupdated"@ && "steam_id"@ != "size"@
            && "steam_id"@ != "sha256"@,
        "manifest"@ != "timeupdated"@ && "manifest"@ != "size"@ && "manifest"@ != "sha256"@,
        "timeupdated"@ != "size"@ && "timeupdated"@ != "sha256"@ && "size"@ != "sha256"@,
        "mods"@ != "saved_at"@ && "mods"@ != "game_buildid"@ && "saved_at"@ != "game_buildid"@,
{
    reveal_strlit("id");
    reveal_strlit("active");
    reveal_strlit("requires");
    reveal_strlit("local");
    reveal_strlit("steam_id");
    reveal_strlit("manifest");
    reveal_strlit("timeupdated");
    reveal_strlit("size");
    reveal_strlit("sha256");
    reveal_strlit("mods");
    reveal_strlit("saved_at");
    reveal_strlit("game_buildid");
    assert("id"@.len() == 2 && "size"@.len() == 4 && "local"@.len() == 5 && "active"@.len() == 6);
    assert("sha256"@.len() == 6 && "requires"@.len() == 8 && "steam_id"@.len() == 8);
    assert("manifest"@.len() == 8 && "timeupdated"@.len() == 11);
    assert("mods"@.len() == 4 && "saved_at"@.len() == 8 && "game_buildid"@.len() == 12);
    assert("active"@[0] == 'a' && "sha256"@[0] == 's');
    assert("requires"@[0] == 'r' && "steam_id"@[0] == 's' && "manifest"@[0] == 'm');
}

/// What a profile says of a slot is what was saved of it, whether the mod is
/// installed or not.
pub proof fn saved_slot_reads_back(v: AppView, s: SlotView, sha: Option<Seq<char>>)
    ensures
        ml_entry(JsonView::Object(v.slot_members(s, sha))) == Some(saved_entry(v, s, sha)),
{
    lemma_names_differ();
    let e = JsonView::Object(v.slot_members(s, sha));
    assert(e.text_at("id"@) == Some(s.id));
    assert(e.flag_at("active"@) == Some(s.enabled));
    assert(e.text_at("steam_id"@) == v.slot_sid(s));
    assert(e.text_at("manifest"@) == v.planned_manifest(s));
    assert(e.text_at("sha256"@) == saved_entry(v, s, sha).sha256);
    texts_of_text_array(s.requires);
    assert(s.requires.len() == 0 ==> s.requires =~= Seq::<Seq<char>>::empty());
    if s.requires.len() > 0 {
        assert(e.items_at("requires"@) == text_array(s.requires).items());
    } else {
        assert(e.items_at("requires"@) is None);
    }
}

/// The entries of a saved profile.
pub open spec fn saved_entries(v: AppView, shas: Seq<Option<Seq<char>>>) -> Seq<MlView> {
    Seq::new(v.slots.len(), |k: int| saved_entry(v, v.slots[k], shas[k]))
}

proof fn lemma_entries_read_back(v: AppView, shas: Seq<Option<Seq<char>>>, n: int)
    requires
        0 <= n <= v.slots.len(),
    ensures
        ml_entries(v.slot_items(v.slots, shas).take(n)) == saved_entries(v, shas).take(n),
    decreases n,
{
    let items = v.slot_items(v.slots, shas);
    let entries = saved_entries(v, shas);
    if n > 0 {
        lemma_entries_read_back(v, shas, n - 1);
        assert(items.take(n).drop_last() =~= items.take(n - 1));
        saved_slot_reads_back(v, v.slots[n - 1], shas[n - 1]);
        assert(entries.take(n) =~= entries.take(n - 1).push(entries[n - 1]));
    } else {
        assert(items.take(0) =~= Seq::<JsonView>::empty());
        assert(entries.take(0) =~= Seq::<MlView>::empty());
    }
}

/// A saved profile lists the load order: every slot in its place, with its id,
/// its switch and its requirements, whether its mod is installed or not.
pub proof fn saved_profile_reads_back(v: AppView, shas: Seq<Option<Seq<char>>>, saved_at: u64)
    ensures
        listed_mods(v.modlist_doc(shas, saved_at)) == Some(saved_entries(v, shas)),
{
    lemma_names_differ();
    let items = v.slot_items(v.slots, shas);
    assert(v.modlist_doc(shas, saved_at).items_at("mods"@) == Some(items));
    lemma_entries_read_back(v, shas, v.slots.len() as int);
    assert(items.take(v.slots.len() as int) =~= items);
    assert(saved_entries(v, shas).take(v.slots.len() as int) =~= saved_entries(v, shas));
}

/// Applying a profile that was just saved gives back the load order.
pub proof fn saved_load_order_is_applied(
    v: AppView,
    name: Seq<char>,
    shas: Seq<Option<Seq<char>>>,
    saved_at: u64,
)
    requires
        slots_resolved(v.pool, v.slots),
    ensures
        listed_mods(v.modlist_doc(shas, saved_at)) is Some,
        v.applied(name, v.modlist_doc(shas, saved_at)).slots == v.slots,
{
    saved_profile_reads_back(v, shas, saved_at);
    let back = slots_for(v.pool, saved_entries(v, shas));
    assert forall|k: int| 0 <= k < v.slots.len() implies back[k] == v.slots[k] by {
        assert(v.slots[k].idx == resolved_idx(v.pool, v.slots[k].id));
    }
    assert(back =~= v.slots);
}

/// Slots with the same id point at the same mod.
pub open spec fn ids_agree(v: AppView) -> bool {
    forall|j: int, k: int|
        0 <= j < v.slots.len() && 0 <= k < v.slots.len() && (#[trigger] v.slots[j]).id == (
        #[trigger] v.slots[k]).id ==> v.slots[j].idx == v.slots[k].idx
}

proof fn lemma_pins_read_back(v: AppView, shas: Seq<Option<Seq<char>>>, n: int)
    requires
        0 <= n <= v.slots.len(),
        ids_agree(v),
    ensures
        forall|k: int|
            0 <= k < n && v.planned_manifest(#[trigger] v.slots[k]) is Some ==> {
                let pins = pins_among(v.slot_items(v.slots, shas).take(n));
                pins.contains_key(v.slots[k].id) && pins[v.slots[k].id] == v.planned_manifest(
                    v.slots[k],
                )->0
            },
    decreases n,
{
    if n > 0 {
        let items = v.slot_items(v.slots, shas);
        lemma_pins_read_back(v, shas, n - 1);
        assert(items.take(n).drop_last() =~= items.take(n - 1));
        saved_slot_reads_back(v, v.slots[n - 1], shas[n - 1]);
        lemma_names_differ();
        let s = v.slots[n - 1];
        let e = items[n - 1];
        assert(e.text_at("manifest"@) == v.planned_manifest(s));
        assert(entry_id(e) == Some(s.id));
        assert forall|k: int|
            0 <= k < n && v.planned_manifest(#[trigger] v.slots[k]) is Some implies {
            let pins = pins_among(items.take(n));
            pins.contains_key(v.slots[k].id) && pins[v.slots[k].id] == v.planned_manifest(
                v.slots[k],
            )->0
        } by {
            if v.slots[k].id == s.id {
                assert(v.slots[k].idx == s.idx);
            }
        }
    }
}

/// Saving a profile pins every mod to its planned version: a mod that was
/// pinned before stays on its version, whether it is installed or not, and a
/// Workshop mod that was not is pinned to what is installed.
pub proof fn pins_are_sticky(v: AppView, shas: Seq<Option<Seq<char>>>, saved_at: u64, k: int)
    requires
        ids_agree(v),
        0 <= k < v.slots.len(),
        v.slots[k].idx is Some ==> v.slot_sid(v.slots[k]) is Some,
    ensures
        ({
            let id = v.slots[k].id;
            let saved = pins_of(Some(v.modlist_doc(shas, saved_at)));
            &&& v.pins.contains_key(id) ==> saved.contains_key(id) && saved[id] == v.pins[id]
            &&& !v.pins.contains_key(id) && v.slots[k].idx is Some && v.current_manifest(
                v.slot_sid(v.slots[k])->0,
            ) is Some ==> saved.contains_key(id) && saved[id] == v.current_manifest(
                v.slot_sid(v.slots[k])->0,
            )->0
        }),
{
    lemma_names_differ();
    let items = v.slot_items(v.slots, shas);
    assert(v.modlist_doc(shas, saved_at).items_at("mods"@) == Some(items));
    lemma_pins_read_back(v, shas, v.slots.len() as int);
    assert(items.take(v.slots.len() as int) =~= items);
    let s = v.slots[k];
    assert(v.pins.contains_key(s.id) ==> v.planned_manifest(s) == Some(v.pins[s.id]));
}

/// The Workshop id of the mod that a slot stands for.
pub open spec fn is_workshop_slot(v: AppView, s: SlotView, sid: Seq<char>) -> bool {
    s.idx matches Some(i) && v.pool[i as int].steam_id == Some(sid)
}

/// Steam has a version of the item installed that it names.
pub open spec fn is_installed(v: AppView, sid: Seq<char>) -> bool {
    v.ws.contains_key(sid) && v.ws[sid].manifest.len() > 0
}

/// What a profile is written to hold of a slot: its id, its switch and its
/// requirements always; of a mod that is there whether it is local, and its
/// Workshop id; the pin that it has, or else the installed version of a Workshop
/// mod; with the installed version its time and its size, and the hash of the
/// pack of a pinned Workshop mod. Nothing else.
pub proof fn profiles_hold_all_of_a_slot(v: AppView, s: SlotView, sha: Option<Seq<char>>)
    ensures
        ({
            let m = v.slot_members(s, sha);
            let there = s.idx is Some;
            let p = v.pool[s.idx->0 as int];
            let workshop = there && p.steam_id is Some;
            let sid = p.steam_id->0;
            let pinned = v.pins.contains_key(s.id) && (workshop || !there);
            let fresh = workshop && !v.pins.contains_key(s.id) && is_installed(v, sid);
            let version = if pinned {
                v.pins[s.id]
            } else {
                v.ws[sid].manifest
            };
            let current = workshop && (pinned || fresh) && is_installed(v, sid)
                && v.ws[sid].manifest == version;
            &&& m.contains_key("id"@) && m["id"@] == JsonView::Str(s.id)
            &&& m.contains_key("active"@) && m["active"@] == JsonView::Bool(s.enabled)
            &&& m.contains_key("requires"@) == (s.requires.len() > 0)
            &&& m.contains_key("requires"@) ==> m["requires"@] == JsonView::Array(
                Seq::new(s.requires.len(), |k: int| JsonView::Str(s.requires[k])),
            )
            &&& m.contains_key("local"@) == there
            &&& there ==> m["local"@] == JsonView::Bool(p.local)
            &&& m.contains_key("steam_id"@) == workshop
            &&& workshop ==> m["steam_id"@] == JsonView::Str(sid)
            &&& m.contains_key("manifest"@) == (pinned || fresh)
            &&& pinned || fresh ==> m["manifest"@] == JsonView::Str(version)
            &&& m.contains_key("timeupdated"@) == current
            &&& current ==> m["timeupdated"@] == JsonView::Number(
                JsonNumber::Unsigned(v.ws[sid].timeupdated),
            )
            &&& m.contains_key("size"@) == current
            &&& current ==> m["size"@] == JsonView::Number(JsonNumber::Unsigned(v.ws[sid].size))
            &&& m.contains_key("sha256"@) == (workshop && (pinned || fresh) && sha is Some)
            &&& m.contains_key("sha256"@) ==> m["sha256"@] == JsonView::Str(sha->0)
            &&& m.dom().subset_of(
                set![
                    "id"@,
                    "active"@,
                    "requires"@,
                    "local"@,
                    "steam_id"@,
                    "manifest"@,
                    "timeupdated"@,
                    "size"@,
                    "sha256"@,
                ],
            )
        }),
{
    lemma_names_differ();
    let texts = s.requires.map_values(|t: Seq<char>| JsonView::Str(t));
    assert(texts =~= Seq::new(s.requires.len(), |k: int| JsonView::Str(s.requires[k])));
}

/// A profile is written to hold when it was saved, the build of the game, and an
/// item for every slot, in the order of the load order.
pub proof fn profiles_hold_every_slot(v: AppView, shas: Seq<Option<Seq<char>>>, saved_at: u64)
    ensures
        v.modlist_doc(shas, saved_at) matches JsonView::Object(m) && {
            &&& m.dom() =~= set!["saved_at"@, "game_buildid"@, "mods"@]
            &&& m["saved_at"@] == JsonView::Number(JsonNumber::Unsigned(saved_at))
            &&& m["game_buildid"@] == match v.game_buildid {
                Some(b) => JsonView::Str(b),
                None => JsonView::Null,
            }
            &&& m["mods"@] matches JsonView::Array(items) && items.len() == v.slots.len() && forall|
                k: int,
            |
                0 <= k < items.len() ==> #[trigger] items[k] == JsonView::Object(
                    v.slot_members(v.slots[k], shas[k]),
                )
        },
{
    lemma_names_differ();
}

/// Before a profile is written, the installed version of every Workshop mod that
/// has no pin yet is to be stored, and no other version is; it is taken from the
/// folder of the mod.
pub proof fn new_pins_are_stored_first(v: AppView, s: SlotView)
    ensures
        v.planned_store(s) is Some <==> (exists|sid: Seq<char>| #[trigger]
            is_workshop_slot(v, s, sid) && is_installed(v, sid) && !v.pins.contains_key(s.id)),
        forall|sid: Seq<char>| #[trigger]
            is_workshop_slot(v, s, sid) && v.planned_store(s) is Some ==> v.planned_store(s)
                == Some(
                StoreView {
                    sid,
                    manifest: v.ws[sid].manifest,
                    dir: v.pool[s.idx->0 as int].dir,
                    timeupdated: v.ws[sid].timeupdated,
                    size: v.ws[sid].size,
                },
            ),
{
    if v.planned_store(s) is Some {
        assert(is_workshop_slot(v, s, v.slot_sid(s)->0));
    }
}

/// The hash that a profile records is that of the first pack of the mod, in the
/// stored copy of the version that the profile pins.
pub proof fn hashes_are_of_the_pinned_version(v: AppView, s: SlotView, vault: Seq<char>)
    ensures
        v.planned_pack(s, vault) is Some <==> (exists|sid: Seq<char>| #[trigger]
            is_workshop_slot(v, s, sid) && (v.pins.contains_key(s.id) || is_installed(v, sid))
                && v.pool[s.idx->0 as int].packs.len() > 0 && name_of(
                v.pool[s.idx->0 as int].packs[0],
            ) is Some),
        forall|sid: Seq<char>| #[trigger]
            is_workshop_slot(v, s, sid) && v.planned_pack(s, vault) is Some ==> {
                let version = if v.pins.contains_key(s.id) {
                    v.pins[s.id]
                } else {
                    v.ws[sid].manifest
                };
                v.planned_pack(s, vault) == Some(
                    path_join(
                        path_join(path_join(vault, sid), version),
                        name_of(v.pool[s.idx->0 as int].packs[0])->0,
                    ),
                )
            },
{
    if v.planned_pack(s, vault) is Some {
        assert(is_workshop_slot(v, s, v.slot_sid(s)->0));
    }
}

} // verus!
