//! Launching: the load order resolved to files, the lists that the game is
//! passed, and what is told of it.

use vstd::prelude::*;
use vstd::string::StringExecFns;

use crate::app::{slots_fit, App, AppView};
use crate::model::{
    are_keys, dedup_last, is_key, keep_last, keep_last_keeps_each_key_once,
    kept_elements_are_the_last_of_their_keys, packs_in, packs_of,
    FoundFile, ModView, PackSource, Slot, SlotView,
};
use crate::paths::{
    file_name, join_path, name_of, path_join, setting, staging_dir, unix_to_win, win_path, Settings,
};
use crate::profiles::opt_str;
use crate::store::{
    is_record_of_store, is_store_record, store_views, stored_file, version_dir, version_path,
    StoreRequest, StoreView,
};
use crate::text::{
    decimal, decimal_reads_back, from_chars, occurs_at, opt_text, pad, padded, parse_u64, same, texts, to_chars,
    to_decimal, trim, trimmed, u64_of,
};

verus! {

/// A mod of the load order, resolved to the files that are loaded.
pub struct ResolvedMod {
    pub name: String,
    pub source: PackSource,
    /// Each file by its path below `data/` and where it lies.
    pub files: Vec<(String, String)>,
    /// The file names of the packs.
    pub packs: Vec<String>,
    /// The position of the mod in the pool, unless it is loaded from the store
    /// alone.
    pub idx: Option<usize>,
    /// The version that is loaded, if it is known.
    pub manifest: Option<String>,
}

/// What a resolved mod says.
#[verifier::ext_equal]
pub struct ResolvedView {
    pub name: Seq<char>,
    pub source: PackSource,
    pub files: Seq<(Seq<char>, Seq<char>)>,
    pub packs: Seq<Seq<char>>,
    pub idx: Option<usize>,
    pub manifest: Option<Seq<char>>,
}

/// Pairs of paths.
pub open spec fn path_pairs(v: Seq<(String, String)>) -> Seq<(Seq<char>, Seq<char>)> {
    v.map_values(|p: (String, String)| (p.0@, p.1@))
}

impl View for ResolvedMod {
    type V = ResolvedView;

    open spec fn view(&self) -> ResolvedView {
        ResolvedView {
            name: self.name@,
            source: self.source,
            files: path_pairs(self.files@),
            packs: texts(self.packs@),
            idx: self.idx,
            manifest: opt_text(self.manifest),
        }
    }
}

/// What the resolved mods say.
pub open spec fn resolved_views(v: Seq<ResolvedMod>) -> Seq<ResolvedView> {
    v.map_values(|r: ResolvedMod| r@)
}

/// The file names of the packs.
pub open spec fn pack_names(packs: Seq<Seq<char>>) -> Seq<Seq<char>>
    decreases packs.len(),
{
    if packs.len() == 0 {
        Seq::empty()
    } else {
        match name_of(packs.last()) {
            Some(n) => pack_names(packs.drop_last()).push(n),
            None => pack_names(packs.drop_last()),
        }
    }
}

/// What was found on disk for a slot.
pub struct SlotFiles {
    /// The files below the mod's folder or, for a mod that is not installed,
    /// below the folder of its stored version.
    pub files: Vec<FoundFile>,
    /// The pinned version is in the store.
    pub pin_stored: bool,
}

impl AppView {
    /// The Workshop id of a mod, or nothing.
    pub open spec fn sid_or_empty(self, i: int) -> Seq<char> {
        match self.pool[i].steam_id {
            Some(s) => s,
            None => Seq::empty(),
        }
    }

    /// The version of a Workshop mod to load: the pinned one where Steam moved
    /// past it and it is stored, else the installed one, served from the store,
    /// else whatever is installed.
    pub open spec fn source_of(self, s: SlotView, pin_stored: bool) -> (
        Option<Seq<char>>,
        PackSource,
    ) {
        let i = s.idx->0 as int;
        if self.updated(s) && pin_stored {
            (Some(self.pins[s.id]), PackSource::Pinned)
        } else {
            match self.current_manifest(self.sid_or_empty(i)) {
                Some(m) => (Some(m), PackSource::Vault),
                None => (None, PackSource::Workshop),
            }
        }
    }

    /// The version of an installed mod to load: a local mod has none and is
    /// loaded from its folder.
    pub open spec fn installed_source(self, s: SlotView, pin_stored: bool) -> (
        Option<Seq<char>>,
        PackSource,
    ) {
        if self.pool[s.idx->0 as int].local {
            (None, PackSource::Local)
        } else {
            self.source_of(s, pin_stored)
        }
    }

    /// The mod of the slot is not installed, but the version that it is pinned
    /// to is in the store.
    pub open spec fn plays_stored(self, s: SlotView, f: SlotFiles) -> bool {
        s.idx is None && self.pins.contains_key(s.id) && f.pin_stored
    }

    /// The slot takes part in a launch: it is enabled and its mod is there,
    /// installed or in the store.
    pub open spec fn launches(self, s: SlotView, f: SlotFiles) -> bool {
        s.enabled && (!self.is_missing(s) || self.plays_stored(s, f))
    }

    /// The slot of a mod that is not installed, resolved to its stored version:
    /// all of its files but the store's own records.
    pub open spec fn stored_slot(
        self,
        s: SlotView,
        f: SlotFiles,
        vault: Seq<char>,
    ) -> ResolvedView {
        let dir = version_path(vault, s.id, self.pins[s.id]);
        ResolvedView {
            name: s.id,
            source: PackSource::Pinned,
            files: stored_entries(f.files@, dir),
            packs: pack_names(packs_of(f.files@)),
            idx: None,
            manifest: Some(self.pins[s.id]),
        }
    }

    /// The slot of an installed mod, resolved to the files that are loaded. Each
    /// file of the mod's folder is served from the stored version where one is
    /// known.
    pub open spec fn installed_slot(
        self,
        s: SlotView,
        f: SlotFiles,
        vault: Seq<char>,
    ) -> ResolvedView {
        let i = s.idx->0 as int;
        let m = self.pool[i];
        let (manifest, source) = self.installed_source(s, f.pin_stored);
        ResolvedView {
            name: m.name,
            source,
            files: f.files@.map_values(
                |x: FoundFile|
                    (
                        x.rel@,
                        match manifest {
                            Some(v) => path_join(
                                version_path(vault, self.sid_or_empty(i), v),
                                x.rel@,
                            ),
                            None => x.abs@,
                        },
                    ),
            ),
            packs: pack_names(m.packs),
            idx: s.idx,
            manifest,
        }
    }

    /// A slot resolved to the files that are loaded.
    pub open spec fn resolved_slot(
        self,
        s: SlotView,
        f: SlotFiles,
        vault: Seq<char>,
    ) -> ResolvedView {
        if s.idx is Some {
            self.installed_slot(s, f, vault)
        } else {
            self.stored_slot(s, f, vault)
        }
    }

    /// The slots that take part in a launch, resolved, in the load order.
    pub open spec fn resolved(
        self,
        slots: Seq<SlotView>,
        found: Seq<SlotFiles>,
        vault: Seq<char>,
    ) -> Seq<ResolvedView>
        decreases slots.len(),
    {
        if slots.len() == 0 {
            Seq::empty()
        } else {
            let rest = self.resolved(slots.drop_last(), found.drop_last(), vault);
            if self.launches(slots.last(), found.last()) {
                rest.push(self.resolved_slot(slots.last(), found.last(), vault))
            } else {
                rest
            }
        }
    }

    /// The versions to store before a launch: the installed ones that are
    /// served from the store.
    pub open spec fn launch_stores(self, resolved: Seq<ResolvedView>) -> Seq<StoreView>
        decreases resolved.len(),
    {
        if resolved.len() == 0 {
            Seq::empty()
        } else {
            let rest = self.launch_stores(resolved.drop_last());
            let r = resolved.last();
            match (r.idx, r.manifest) {
                (Some(i), Some(m)) => if r.source == PackSource::Vault
                    && self.pool[i as int].steam_id is Some {
                    rest.push(self.installed(i as int, m))
                } else {
                    rest
                },
                _ => rest,
            }
        }
    }

    /// How many of the slots have no mod installed and are skipped by a launch.
    pub open spec fn skipped_among(self, slots: Seq<SlotView>, found: Seq<SlotFiles>) -> nat
        decreases slots.len(),
    {
        if slots.len() == 0 {
            0
        } else {
            self.skipped_among(slots.drop_last(), found.drop_last()) + if self.is_missing(
                slots.last(),
            ) && !self.launches(slots.last(), found.last()) {
                1nat
            } else {
                0
            }
        }
    }
}

/// The files of a stored version below its folder `dir`, without the store's
/// own records.
pub open spec fn stored_entries(files: Seq<FoundFile>, dir: Seq<char>) -> Seq<
    (Seq<char>, Seq<char>),
> {
    files.filter(|x: FoundFile| !is_store_record(x.rel@)).map_values(
        |x: FoundFile| (x.rel@, path_join(dir, x.rel@)),
    )
}

/// The resolved mods are of the pool or of the store alone.
pub open spec fn resolved_fit(resolved: Seq<ResolvedMod>, pool: nat) -> bool {
    forall|k: int|
        0 <= k < resolved.len() ==> ((#[trigger] resolved[k]).idx matches Some(i) ==> i < pool)
}

/// The files of a resolved mod, each where it really lies: in the store where it
/// is there, else in the mod's folder.
pub open spec fn entries_of(pool: Seq<ModView>, r: ResolvedView, there: Seq<bool>) -> Seq<
    (Seq<char>, Seq<char>),
> {
    Seq::new(
        r.files.len(),
        |k: int|
            (
                r.files[k].0,
                match r.idx {
                    Some(i) => if there[k] {
                        r.files[k].1
                    } else {
                        path_join(pool[i as int].dir, r.files[k].0)
                    },
                    None => r.files[k].1,
                },
            ),
    )
}

/// The files of all resolved mods, in the load order.
pub open spec fn all_entries(
    pool: Seq<ModView>,
    resolved: Seq<ResolvedView>,
    there: Seq<Vec<bool>>,
) -> Seq<(Seq<char>, Seq<char>)>
    decreases resolved.len(),
{
    if resolved.len() == 0 {
        Seq::empty()
    } else {
        all_entries(pool, resolved.drop_last(), there.drop_last()) + entries_of(
            pool,
            resolved.last(),
            there.last()@,
        )
    }
}

/// The files to be staged: where two mods have the same file, the later one's.
pub open spec fn staged(
    pool: Seq<ModView>,
    resolved: Seq<ResolvedView>,
    there: Seq<Vec<bool>>,
) -> Seq<(Seq<char>, Seq<char>)> {
    let all = all_entries(pool, resolved, there);
    keep_last(all, all.map_values(|e: (Seq<char>, Seq<char>)| e.0))
}

/// The packs of all resolved mods, in the load order.
pub open spec fn all_packs(resolved: Seq<ResolvedView>) -> Seq<Seq<char>>
    decreases resolved.len(),
{
    if resolved.len() == 0 {
        Seq::empty()
    } else {
        all_packs(resolved.drop_last()) + resolved.last().packs
    }
}

/// The packs that the game is passed, in the load order; of packs with the
/// same name the last one counts.
pub open spec fn used_packs(resolved: Seq<ResolvedView>) -> Seq<Seq<char>> {
    keep_last(all_packs(resolved), all_packs(resolved))
}

/// How many of the mods are loaded in their pinned versions.
pub open spec fn pinned_among(resolved: Seq<ResolvedView>) -> nat
    decreases resolved.len(),
{
    if resolved.len() == 0 {
        0
    } else {
        pinned_among(resolved.drop_last()) + if resolved.last().source == PackSource::Pinned {
            1nat
        } else {
            0
        }
    }
}

/// The lines that make the game load the packs.
pub open spec fn mod_lines(packs: Seq<Seq<char>>) -> Seq<char>
    decreases packs.len(),
{
    if packs.len() == 0 {
        Seq::empty()
    } else {
        mod_lines(packs.drop_last()) + ("mod \""@ + packs.last() + "\";\n"@)
    }
}

/// The list that makes the game load the packs from the staging folder.
pub open spec fn used_mods_text(staging: Seq<char>, packs: Seq<Seq<char>>) -> Seq<char> {
    "add_working_directory \""@ + win_path(staging) + "\";\n"@ + mod_lines(packs)
}

proof fn lemma_keep_last_maps<T, U, K>(v: Seq<T>, keys: Seq<K>, f: spec_fn(T) -> U)
    requires
        v.len() == keys.len(),
    ensures
        keep_last(v, keys).map_values(f) == keep_last(v.map_values(f), keys),
    decreases v.len(),
{
    if v.len() > 0 {
        lemma_keep_last_maps(v.drop_first(), keys.drop_first(), f);
        assert(v.map_values(f).drop_first() =~= v.drop_first().map_values(f));
        let rest = keep_last(v.drop_first(), keys.drop_first());
        assert((seq![v[0]] + rest).map_values(f) =~= seq![f(v[0])] + rest.map_values(f));
    } else {
        assert(keep_last(v, keys).map_values(f) =~= keep_last(v.map_values(f), keys));
    }
}

/// The file names of the packs.
fn names_of_packs(packs: &Vec<String>) -> (r: Vec<String>)
    ensures
        texts(r@) == pack_names(texts(packs@)),
{
    let ghost all = texts(packs@);
    let mut out: Vec<String> = Vec::new();
    let mut i: usize = 0;
    assert(all.take(0) =~= Seq::<Seq<char>>::empty());
    assert(texts(out@) =~= pack_names(all.take(0)));
    while i < packs.len()
        invariant
            i <= packs@.len(),
            all == texts(packs@),
            texts(out@) == pack_names(all.take(i as int)),
        decreases packs@.len() - i,
    {
        assert(all.take(i + 1).drop_last() =~= all.take(i as int));
        assert(all.take(i + 1).last() == packs@[i as int]@);
        match file_name(packs[i].as_str()) {
            Some(n) => {
                let ghost o0 = out@;
                out.push(n);
                assert(texts(out@) =~= texts(o0).push(n@));
            },
            None => {},
        }
        i = i + 1;
    }
    assert(all.take(i as int) =~= all);
    out
}

impl App {
    /// The folder of the version that a slot is pinned to, where that version
    /// is to be loaded if it is there: Steam moved past it, or the mod is not
    /// installed.
    pub fn pinned_dir(&self, s: &Slot, vault: &str) -> (r: Option<String>)
        requires
            s@.is_below(self@.pool.len()),
        ensures
            opt_text(r) == self@.pinned_folder(s@, vault@),
            opt_text(r) == (match s.idx {
                Some(i) => if self@.updated(s@) {
                    Some(
                        version_path(
                            vault@,
                            self@.pool[i as int].steam_id->0,
                            self@.pins[s@.id],
                        ),
                    )
                } else {
                    None
                },
                None => if self@.pins.contains_key(s@.id) && self@.pins[s@.id].len() > 0 {
                    Some(version_path(vault@, s@.id, self@.pins[s@.id]))
                } else {
                    None
                },
            }),
    {
        match (s.idx, self.pins.get(s.id.as_str())) {
            (None, Some(pin)) => if pin.as_str().is_empty() {
                None
            } else {
                Some(version_dir(vault, s.id.as_str(), pin.as_str()))
            },
            (Some(i), Some(pin)) => if !self.slot_updated(s) {
                None
            } else {
                assert(self@.pool[i as int] == self.pool@[i as int]@);
                match &self.pool[i].steam_id {
                    Some(sid) => Some(version_dir(vault, sid.as_str(), pin.as_str())),
                    None => None,
                }
            },
            _ => None,
        }
    }

    /// The version of a Workshop mod to load, and where it comes from.
    pub fn workshop_source(&self, s: &Slot, pin_stored: bool) -> (r: (Option<String>, PackSource))
        requires
            s@.is_below(self@.pool.len()),
            s.idx is Some,
        ensures
            (opt_text(r.0), r.1) == self@.source_of(s@, pin_stored),
    {
        let i: usize = s.idx.unwrap();
        assert(self@.pool[i as int] == self.pool@[i as int]@);
        if self.slot_updated(s) && pin_stored {
            match self.pins.get(s.id.as_str()) {
                Some(pin) => {
                    return (Some(pin.clone()), PackSource::Pinned);
                },
                None => {},
            }
        }
        let sid = self.sid_text(i);
        match self.installed_manifest(sid.as_str()) {
            Some(m) => (Some(m), PackSource::Vault),
            None => (None, PackSource::Workshop),
        }
    }

    /// The Workshop id of a mod, or nothing.
    fn sid_text(&self, i: usize) -> (r: String)
        requires
            i < self.pool@.len(),
        ensures
            r@ == self@.sid_or_empty(i as int),
    {
        assert(self@.pool[i as int] == self.pool@[i as int]@);
        match &self.pool[i].steam_id {
            Some(s) => s.clone(),
            None => {
                let e = String::new();
                assert(e@ =~= Seq::<char>::empty());
                e
            },
        }
    }

    /// The slot of an installed mod, resolved to the files that are loaded.
    fn resolve_installed(&self, s: &Slot, f: &SlotFiles, vault: &str) -> (r: ResolvedMod)
        requires
            s@.is_below(self@.pool.len()),
            s.idx is Some,
        ensures
            r@ == self@.installed_slot(s@, *f, vault@),
    {
        let i: usize = s.idx.unwrap();
        assert(self@.pool[i as int] == self.pool@[i as int]@);
        let (manifest, source) = if self.pool[i].local {
            (None, PackSource::Local)
        } else {
            self.workshop_source(s, f.pin_stored)
        };
        let sid = self.sid_text(i);
        let ghost want = self@.installed_slot(s@, *f, vault@).files;
        let mut files: Vec<(String, String)> = Vec::new();
        let mut k: usize = 0;
        while k < f.files.len()
            invariant
                k <= f.files@.len() == want.len(),
                s.idx == Some(i),
                i < self.pool@.len(),
                want == self@.installed_slot(s@, *f, vault@).files,
                (opt_text(manifest), source) == self@.installed_source(s@, f.pin_stored),
                sid@ == self@.sid_or_empty(i as int),
                path_pairs(files@) == want.take(k as int),
            decreases f.files@.len() - k,
        {
            let x = &f.files[k];
            let src = match &manifest {
                Some(v) => stored_file(vault, sid.as_str(), v.as_str(), x.rel.as_str()),
                None => x.abs.clone(),
            };
            let ghost f0 = files@;
            files.push((x.rel.clone(), src));
            k = k + 1;
            proof {
                assert(path_pairs(files@) =~= path_pairs(f0).push((x.rel@, src@)));
                assert(want.take(k as int) =~= want.take(k - 1).push(want[k - 1]));
            }
        }
        assert(want.take(k as int) =~= want);
        ResolvedMod {
            name: self.pool[i].name.clone(),
            source,
            files,
            packs: names_of_packs(&self.pool[i].packs),
            idx: s.idx,
            manifest,
        }
    }

    /// The slot of a mod that is not installed, resolved to its stored version
    /// `pin`.
    fn resolve_stored(&self, s: &Slot, pin: &str, f: &SlotFiles, vault: &str) -> (r: ResolvedMod)
        requires
            self@.pins.contains_key(s@.id),
            pin@ == self@.pins[s@.id],
        ensures
            r@ == self@.stored_slot(s@, *f, vault@),
    {
        let ghost dir = version_path(vault@, s@.id, pin@);
        let ghost keep = |x: FoundFile| !is_store_record(x.rel@);
        let ghost pair = |x: FoundFile| (x.rel@, path_join(dir, x.rel@));
        let mut files: Vec<(String, String)> = Vec::new();
        let mut k: usize = 0;
        proof {
            reveal(Seq::filter);
            assert(f.files@.take(0) =~= Seq::<FoundFile>::empty());
            assert(path_pairs(files@) =~= stored_entries(f.files@.take(0), dir));
        }
        while k < f.files.len()
            invariant
                k <= f.files@.len(),
                dir == version_path(vault@, s@.id, pin@),
                keep == (|x: FoundFile| !is_store_record(x.rel@)),
                pair == (|x: FoundFile| (x.rel@, path_join(dir, x.rel@))),
                path_pairs(files@) == stored_entries(f.files@.take(k as int), dir),
            decreases f.files@.len() - k,
        {
            let x = &f.files[k];
            proof {
                reveal(Seq::filter);
                assert(f.files@.take(k + 1).drop_last() =~= f.files@.take(k as int));
                assert(f.files@.take(k + 1).last() == f.files@[k as int]);
            }
            if !is_record_of_store(x.rel.as_str()) {
                let src = stored_file(vault, s.id.as_str(), pin, x.rel.as_str());
                let ghost f0 = files@;
                let ghost kept = f.files@.take(k as int).filter(keep);
                files.push((x.rel.clone(), src));
                proof {
                    assert(path_pairs(files@) =~= path_pairs(f0).push((x.rel@, src@)));
                    assert(kept.push(*x).map_values(pair) =~= kept.map_values(pair).push(pair(*x)));
                }
            }
            k = k + 1;
        }
        assert(f.files@.take(k as int) =~= f.files@);
        let packs = names_of_packs(&packs_in(&f.files));
        ResolvedMod {
            name: s.id.clone(),
            source: PackSource::Pinned,
            files,
            packs,
            idx: None,
            manifest: Some(pin.to_owned()),
        }
    }

    /// A slot resolved to the files that are loaded, if it takes part in a
    /// launch.
    fn resolve_slot(&self, s: &Slot, f: &SlotFiles, vault: &str) -> (r: Option<ResolvedMod>)
        requires
            s@.is_below(self@.pool.len()),
        ensures
            r is Some <==> self@.launches(s@, *f),
            r is Some ==> r->0@ == self@.resolved_slot(s@, *f, vault@),
    {
        if !s.enabled {
            return None;
        }
        match s.idx {
            Some(_) => if self.slot_missing(s) {
                None
            } else {
                Some(self.resolve_installed(s, f, vault))
            },
            None => match self.pins.get(s.id.as_str()) {
                Some(pin) => if f.pin_stored {
                    Some(self.resolve_stored(s, pin.as_str(), f, vault))
                } else {
                    None
                },
                None => None,
            },
        }
    }

    /// The load order resolved to concrete mods, in launch order. Disabled
    /// slots are skipped, and so are mods that are neither installed nor in the
    /// store. `found[k]` is what was found on disk for slot `k`.
    pub fn resolve_load_order(&self, found: &Vec<SlotFiles>, vault: &str) -> (r: Vec<ResolvedMod>)
        requires
            slots_fit(self@.slots, self@.pool.len()),
            found@.len() == self@.slots.len(),
        ensures
            resolved_views(r@) == self@.resolved(self@.slots, found@, vault@),
            resolved_fit(r@, self@.pool.len()),
    {
        let ghost all = self@.slots;
        let mut out: Vec<ResolvedMod> = Vec::new();
        let mut i: usize = 0;
        assert(all.take(0) =~= Seq::<SlotView>::empty());
        assert(resolved_views(out@) =~= self@.resolved(all.take(0), found@.take(0), vault@));
        while i < self.slots.len()
            invariant
                i <= self.slots@.len() == found@.len(),
                all == self@.slots,
                slots_fit(self@.slots, self@.pool.len()),
                resolved_views(out@) == self@.resolved(
                    all.take(i as int),
                    found@.take(i as int),
                    vault@,
                ),
                resolved_fit(out@, self@.pool.len()),
            decreases self.slots@.len() - i,
        {
            proof {
                assert(all.take(i + 1).drop_last() =~= all.take(i as int));
                assert(found@.take(i + 1).drop_last() =~= found@.take(i as int));
                assert(found@.take(i + 1).last() == found@[i as int]);
                assert(all[i as int] == self.slots@[i as int]@);
            }
            match self.resolve_slot(&self.slots[i], &found[i], vault) {
                Some(r) => {
                    let ghost o0 = out@;
                    out.push(r);
                    assert(resolved_views(out@) =~= resolved_views(o0).push(r@));
                },
                None => {},
            }
            i = i + 1;
        }
        assert(all.take(i as int) =~= all);
        assert(found@.take(i as int) =~= found@);
        out
    }

    /// The versions to store before a launch.
    pub fn stores_for_launch(&self, resolved: &Vec<ResolvedMod>) -> (r: Vec<StoreRequest>)
        requires
            resolved_fit(resolved@, self@.pool.len()),
        ensures
            store_views(r@) == self@.launch_stores(resolved_views(resolved@)),
    {
        let ghost all = resolved_views(resolved@);
        let mut out: Vec<StoreRequest> = Vec::new();
        let mut i: usize = 0;
        assert(all.take(0) =~= Seq::<ResolvedView>::empty());
        assert(store_views(out@) =~= self@.launch_stores(all.take(0)));
        while i < resolved.len()
            invariant
                i <= resolved@.len(),
                all == resolved_views(resolved@),
                resolved_fit(resolved@, self@.pool.len()),
                store_views(out@) == self@.launch_stores(all.take(i as int)),
            decreases resolved@.len() - i,
        {
            assert(all.take(i + 1).drop_last() =~= all.take(i as int));
            assert(all.take(i + 1).last() == resolved@[i as int]@);
            let r = &resolved[i];
            match (r.idx, &r.manifest) {
                (Some(j), Some(m)) => {
                    assert(self@.pool[j as int] == self.pool@[j as int]@);
                    match &self.pool[j].steam_id {
                        Some(sid) => if r.source == PackSource::Vault {
                            let ghost o0 = out@;
                            let q = self.store_installed(j, sid.as_str(), m.as_str());
                            out.push(q);
                            assert(store_views(out@) =~= store_views(o0).push(q@));
                        },
                        None => {},
                    }
                },
                _ => {},
            }
            i = i + 1;
        }
        assert(all.take(i as int) =~= all);
        out
    }

    /// The files to be staged, each by its path below the staging folder and
    /// where it lies; a later mod's file overrides an earlier one's.
    /// `there[i][k]` says whether file `k` of mod `i` lies where it is served
    /// from; if not, it is taken from the mod's folder, where the mod has one.
    pub fn staging_entries(&self, resolved: &Vec<ResolvedMod>, there: &Vec<Vec<bool>>) -> (r: Vec<
        (String, String),
    >)
        requires
            resolved@.len() == there@.len(),
            resolved_fit(resolved@, self@.pool.len()),
            forall|k: int|
                0 <= k < resolved@.len() ==> (#[trigger] resolved@[k]).files@.len()
                    == there@[k]@.len(),
        ensures
            path_pairs(r@) == staged(self@.pool, resolved_views(resolved@), there@),
    {
        let ghost all = resolved_views(resolved@);
        let mut flat: Vec<(String, String)> = Vec::new();
        let mut i: usize = 0;
        assert(all.take(0) =~= Seq::<ResolvedView>::empty());
        assert(path_pairs(flat@) =~= all_entries(self@.pool, all.take(0), there@.take(0)));
        while i < resolved.len()
            invariant
                i <= resolved@.len() == there@.len(),
                all == resolved_views(resolved@),
                resolved_fit(resolved@, self@.pool.len()),
                forall|k: int|
                    0 <= k < resolved@.len() ==> (#[trigger] resolved@[k]).files@.len()
                        == there@[k]@.len(),
                path_pairs(flat@) == all_entries(
                    self@.pool,
                    all.take(i as int),
                    there@.take(i as int),
                ),
            decreases resolved@.len() - i,
        {
            let r = &resolved[i];
            let t = &there[i];
            let ghost before = path_pairs(flat@);
            let ghost pool = self@.pool;
            let ghost mine = entries_of(pool, r@, t@);
            let dir: Option<&str> = match r.idx {
                Some(j) => {
                    assert(pool[j as int] == self.pool@[j as int]@);
                    Some(self.pool[j].dir.as_str())
                },
                None => None,
            };
            let mut k: usize = 0;
            assert(path_pairs(flat@) =~= before + mine.take(0));
            while k < r.files.len()
                invariant
                    k <= r.files@.len() == t@.len() == mine.len(),
                    mine == entries_of(pool, r@, t@),
                    opt_str(dir) == (match r.idx {
                        Some(j) => Some(pool[j as int].dir),
                        None => None,
                    }),
                    path_pairs(flat@) == before + mine.take(k as int),
                decreases r.files@.len() - k,
            {
                assert(r@.files[k as int] == (r.files@[k as int].0@, r.files@[k as int].1@));
                let src = match dir {
                    Some(d) => if t[k] {
                        r.files[k].1.clone()
                    } else {
                        join_path(d, r.files[k].0.as_str())
                    },
                    None => r.files[k].1.clone(),
                };
                let ghost f0 = flat@;
                let rel = r.files[k].0.clone();
                flat.push((rel, src));
                k = k + 1;
                proof {
                    assert(path_pairs(flat@) =~= path_pairs(f0).push((rel@, src@)));
                    assert(mine.take(k as int) =~= mine.take(k - 1).push(mine[k - 1]));
                    assert(before + mine.take(k as int) =~= (before + mine.take(k - 1)).push(
                        mine[k - 1],
                    ));
                }
            }
            proof {
                assert(mine.take(k as int) =~= mine);
                assert(all.take(i + 1).drop_last() =~= all.take(i as int));
                assert(there@.take(i + 1).drop_last() =~= there@.take(i as int));
                assert(all.take(i + 1).last() == r@);
                assert(there@.take(i + 1).last() == *t);
            }
            i = i + 1;
        }
        proof {
            assert(all.take(i as int) =~= all);
            assert(there@.take(i as int) =~= there@);
        }
        let ghost flat0 = flat@;
        let key = |e: &(String, String)| -> (k: String)
            ensures
                k@ == e.0@,
            { e.0.clone() };
        let r = dedup_last(flat, key);
        proof {
            let keys = choose|keys: Seq<Seq<char>>| #[trigger]
                are_keys(flat0, key, keys) && r@ == keep_last(flat0, keys);
            let pairs = path_pairs(flat0);
            assert(keys =~= pairs.map_values(|e: (Seq<char>, Seq<char>)| e.0)) by {
                assert forall|j: int| 0 <= j < keys.len() implies keys[j] == pairs[j].0 by {
                    assert(is_key(flat0[j], key, keys[j]));
                }
            }
            lemma_keep_last_maps(flat0, keys, |p: (String, String)| (p.0@, p.1@));
        }
        r
    }

    /// The packs that the game is passed, in the load order; of packs with the
    /// same name the last one counts.
    pub fn used_mods_lines(resolved: &Vec<ResolvedMod>) -> (r: Vec<String>)
        ensures
            texts(r@) == used_packs(resolved_views(resolved@)),
    {
        let ghost all = resolved_views(resolved@);
        let mut flat: Vec<String> = Vec::new();
        let mut i: usize = 0;
        assert(all.take(0) =~= Seq::<ResolvedView>::empty());
        assert(texts(flat@) =~= all_packs(all.take(0)));
        while i < resolved.len()
            invariant
                i <= resolved@.len(),
                all == resolved_views(resolved@),
                texts(flat@) == all_packs(all.take(i as int)),
            decreases resolved@.len() - i,
        {
            let p = &resolved[i].packs;
            let ghost before = texts(flat@);
            let ghost mine = texts(p@);
            let mut k: usize = 0;
            assert(texts(flat@) =~= before + mine.take(0));
            while k < p.len()
                invariant
                    k <= p@.len(),
                    mine == texts(p@),
                    texts(flat@) == before + mine.take(k as int),
                decreases p@.len() - k,
            {
                let ghost f0 = flat@;
                let n = p[k].clone();
                flat.push(n);
                k = k + 1;
                proof {
                    assert(texts(flat@) =~= texts(f0).push(n@));
                    assert(mine.take(k as int) =~= mine.take(k - 1).push(mine[k - 1]));
                    assert(before + mine.take(k as int) =~= (before + mine.take(k - 1)).push(
                        mine[k - 1],
                    ));
                }
            }
            proof {
                assert(mine.take(k as int) =~= mine);
                assert(all.take(i + 1).drop_last() =~= all.take(i as int));
                assert(all.take(i + 1).last() == resolved@[i as int]@);
            }
            i = i + 1;
        }
        assert(all.take(i as int) =~= all);
        let ghost flat0 = flat@;
        let key = |s: &String| -> (k: String)
            ensures
                k@ == s@,
            { s.clone() };
        let r = dedup_last(flat, key);
        proof {
            let keys = choose|keys: Seq<Seq<char>>| #[trigger]
                are_keys(flat0, key, keys) && r@ == keep_last(flat0, keys);
            assert(keys =~= texts(flat0)) by {
                assert forall|j: int| 0 <= j < keys.len() implies keys[j] == texts(flat0)[j] by {
                    assert(is_key(flat0[j], key, keys[j]));
                }
            }
            lemma_keep_last_maps(flat0, keys, |s: String| s@);
        }
        r
    }
}

/// How many of the mods are loaded in their pinned versions.
pub fn pinned_count(resolved: &Vec<ResolvedMod>) -> (r: usize)
    ensures
        r == pinned_among(resolved_views(resolved@)),
{
    let ghost all = resolved_views(resolved@);
    let mut n: usize = 0;
    let mut i: usize = 0;
    assert(all.take(0) =~= Seq::<ResolvedView>::empty());
    while i < resolved.len()
        invariant
            i <= resolved@.len(),
            all == resolved_views(resolved@),
            n <= i,
            n == pinned_among(all.take(i as int)),
        decreases resolved@.len() - i,
    {
        assert(all.take(i + 1).drop_last() =~= all.take(i as int));
        assert(all.take(i + 1).last() == resolved@[i as int]@);
        if resolved[i].source == PackSource::Pinned {
            n = n + 1;
        }
        i = i + 1;
    }
    assert(all.take(i as int) =~= all);
    n
}

/// The list for a launch with the overlay, which has the packs in `data/`.
pub fn overlay_list(packs: &Vec<String>) -> (r: String)
    ensures
        r@ == mod_lines(texts(packs@)),
{
    let ghost all = texts(packs@);
    let mut out: String = String::new();
    let mut i: usize = 0;
    assert(all.take(0) =~= Seq::<Seq<char>>::empty());
    assert(out@ =~= mod_lines(all.take(0)));
    while i < packs.len()
        invariant
            i <= packs@.len(),
            all == texts(packs@),
            out@ == mod_lines(all.take(i as int)),
        decreases packs@.len() - i,
    {
        assert(all.take(i + 1).drop_last() =~= all.take(i as int));
        assert(all.take(i + 1).last() == packs@[i as int]@);
        let line = "mod \"".to_owned().concat(packs[i].as_str()).concat("\";\n");
        out.append(line.as_str());
        i = i + 1;
    }
    assert(all.take(i as int) =~= all);
    out
}

/// The list for a launch without the overlay, which loads the packs from the
/// staging folder.
pub fn used_mods_list(staging: &str, packs: &Vec<String>) -> (r: String)
    ensures
        r@ == used_mods_text(staging@, texts(packs@)),
{
    "add_working_directory \"".to_owned().concat(unix_to_win(staging).as_str()).concat(
        "\";\n",
    ).concat(overlay_list(packs).as_str())
}

/// The overlay is switched off.
pub open spec fn overlay_off(s: Settings) -> bool {
    s.value("TWWH3_OVERLAY"@, "overlay"@) == Some("off"@)
}

/// Whether the overlay is switched off.
pub fn overlay_is_off(s: &Settings) -> (r: bool)
    ensures
        r == overlay_off(*s),
{
    match setting(s, "TWWH3_OVERLAY", "overlay") {
        Some(v) => same(v.as_str(), "off"),
        None => false,
    }
}

/// The row of the dry run for a mod at position `n`.
pub open spec fn preview_row(n: int, r: ResolvedView) -> Seq<char> {
    padded(decimal((n + 1) as nat), 3, ' ') + "  "@ + r.name + "  ["@ + r.source.text()
        + if r.packs.len() == 1 {
        Seq::empty()
    } else {
        ", "@ + decimal(r.packs.len()) + " packs"@
    } + "]\n"@
}

/// The rows of the dry run.
pub open spec fn preview_rows(resolved: Seq<ResolvedView>) -> Seq<char>
    decreases resolved.len(),
{
    if resolved.len() == 0 {
        Seq::empty()
    } else {
        preview_rows(resolved.drop_last()) + preview_row(resolved.len() - 1, resolved.last())
    }
}

/// How the dry run says which list the game is passed.
pub open spec fn overlay_note(off: bool) -> Seq<char> {
    if off {
        "overlay: off → the game is passed used_mods.txt (working-directory loading)\n\n"@
    } else {
        "overlay: on → the game is passed used_mods_overlay.txt when the fuse mount succeeds,\n             otherwise it falls back to used_mods.txt\n\n"@
    }
}

/// What the dry run says before it shows the lists.
pub open spec fn preview_head(s: Settings, skipped: nat, resolved: Seq<ResolvedView>) -> Seq<char> {
    "Load order — "@ + decimal(resolved.len()) + " mods ("@ + decimal(used_packs(resolved).len())
        + " packs), in launch order:\n"@ + preview_rows(resolved) + if skipped > 0 {
        "     ("@ + decimal(skipped) + " missing / not installed — skipped)\n"@
    } else {
        Seq::empty()
    } + "\n"@ + overlay_note(overlay_off(s))
}

/// What a launch would pass to the game: the resolved mods and how many were
/// skipped because they are not installed.
pub open spec fn preview_text(s: Settings, skipped: nat, resolved: Seq<ResolvedView>) -> Seq<char> {
    preview_head(s, skipped, resolved)
        + "----- used_mods_overlay.txt (packs merged into data/) -----\n"@ + mod_lines(
        used_packs(resolved),
    ) + "\n----- used_mods.txt (fallback / overlay off) -----\n"@ + used_mods_text(
        s.staging(),
        used_packs(resolved),
    )
}

/// The dry run shows exactly the two lists that a launch writes.
pub proof fn dry_run_shows_what_a_launch_writes(
    s: Settings,
    skipped: nat,
    resolved: Seq<ResolvedView>,
)
    ensures
        used_mods_text(s.staging(), used_packs(resolved)).is_suffix_of(
            preview_text(s, skipped, resolved),
        ),
        occurs_at(
            preview_text(s, skipped, resolved),
            mod_lines(used_packs(resolved)),
            (preview_head(s, skipped, resolved)
                + "----- used_mods_overlay.txt (packs merged into data/) -----\n"@).len() as int,
        ),
        mod_lines(used_packs(resolved)).is_suffix_of(
            used_mods_text(s.staging(), used_packs(resolved)),
        ),
{
    let t = preview_text(s, skipped, resolved);
    let u = used_mods_text(s.staging(), used_packs(resolved));
    let m = mod_lines(used_packs(resolved));
    let h = preview_head(s, skipped, resolved)
        + "----- used_mods_overlay.txt (packs merged into data/) -----\n"@;
    assert(t.subrange(t.len() - u.len(), t.len() as int) =~= u);
    assert(t.subrange(h.len() as int, (h.len() + m.len()) as int) =~= m);
    assert(u.subrange(u.len() - m.len(), u.len() as int) =~= m);
}

/// A launch resolves the enabled slots whose mods are installed or in the store,
/// and no others, in the load order.
pub proof fn only_enabled_present_mods_launch(
    v: AppView,
    slots: Seq<SlotView>,
    found: Seq<SlotFiles>,
    vault: Seq<char>,
)
    requires
        slots.len() == found.len(),
    ensures
        v.resolved(slots, found, vault) == slots.zip_with(found).filter(
            |p: (SlotView, SlotFiles)| v.launches(p.0, p.1),
        ).map_values(|p: (SlotView, SlotFiles)| v.resolved_slot(p.0, p.1, vault)),
    decreases slots.len(),
{
    reveal(Seq::filter);
    let on = |p: (SlotView, SlotFiles)| v.launches(p.0, p.1);
    let of_slot = |p: (SlotView, SlotFiles)| v.resolved_slot(p.0, p.1, vault);
    let all = slots.zip_with(found);
    if slots.len() > 0 {
        let (s, f) = (slots.drop_last(), found.drop_last());
        only_enabled_present_mods_launch(v, s, f, vault);
        assert(all.drop_last() =~= s.zip_with(f));
        let kept = s.zip_with(f).filter(on);
        assert(kept.push(all.last()).map_values(of_slot) =~= kept.map_values(of_slot).push(
            of_slot(all.last()),
        ));
    } else {
        assert(v.resolved(slots, found, vault) =~= all.filter(on).map_values(of_slot));
    }
}

/// A mod that is not installed still plays: a slot that is enabled and pinned to
/// a stored version is launched in that version, with the files that are stored.
pub proof fn unsubscribed_mods_still_play(
    v: AppView,
    slots: Seq<SlotView>,
    found: Seq<SlotFiles>,
    vault: Seq<char>,
    k: int,
)
    requires
        slots.len() == found.len(),
        0 <= k < slots.len(),
        slots[k].enabled,
        slots[k].idx is None,
        v.pins.contains_key(slots[k].id),
        found[k].pin_stored,
    ensures
        ({
            let r = v.resolved_slot(slots[k], found[k], vault);
            let dir = version_path(vault, slots[k].id, v.pins[slots[k].id]);
            &&& v.resolved(slots, found, vault).contains(r)
            &&& r.source == PackSource::Pinned
            &&& r.manifest == Some(v.pins[slots[k].id])
            &&& r.packs == pack_names(packs_of(found[k].files@))
            &&& forall|j: int|
                0 <= j < found[k].files@.len() && !is_store_record(
                    (#[trigger] found[k].files@[j]).rel@,
                ) ==> r.files.contains(
                    (found[k].files@[j].rel@, path_join(dir, found[k].files@[j].rel@)),
                )
        }),
{
    lemma_launching_slot_is_resolved(v, slots, found, vault, k);
    let r = v.resolved_slot(slots[k], found[k], vault);
    let dir = version_path(vault, slots[k].id, v.pins[slots[k].id]);
    let files = found[k].files@;
    let keep = |x: FoundFile| !is_store_record(x.rel@);
    let pair = |x: FoundFile| (x.rel@, path_join(dir, x.rel@));
    assert forall|j: int|
        0 <= j < files.len() && !is_store_record(
            (#[trigger] files[j]).rel@,
        ) implies r.files.contains((files[j].rel@, path_join(dir, files[j].rel@))) by {
        files.lemma_filter_contains_rev(keep, files[j]);
        let i = choose|i: int|
            0 <= i < files.filter(keep).len() && files.filter(keep)[i] == files[j];
        assert(r.files[i] == pair(files[j]));
    }
}

proof fn lemma_launching_slot_is_resolved(
    v: AppView,
    slots: Seq<SlotView>,
    found: Seq<SlotFiles>,
    vault: Seq<char>,
    k: int,
)
    requires
        slots.len() == found.len(),
        0 <= k < slots.len(),
        v.launches(slots[k], found[k]),
    ensures
        v.resolved(slots, found, vault).contains(v.resolved_slot(slots[k], found[k], vault)),
    decreases slots.len(),
{
    let all = v.resolved(slots, found, vault);
    let rest = v.resolved(slots.drop_last(), found.drop_last(), vault);
    let r = v.resolved_slot(slots[k], found[k], vault);
    if k == slots.len() - 1 {
        assert(all[all.len() - 1] == r);
    } else {
        lemma_launching_slot_is_resolved(v, slots.drop_last(), found.drop_last(), vault, k);
        let j = choose|j: int| 0 <= j < rest.len() && rest[j] == r;
        assert(all[j] == r);
    }
}

/// An installed mod that Steam moved past its pin launches in its pinned
/// version, if that is stored; every other installed Workshop mod launches in
/// the installed version, as far as Steam tells which that is. Either way each
/// file that its folder has is served from the store.
pub proof fn launched_versions_come_from_the_store(
    v: AppView,
    s: SlotView,
    f: SlotFiles,
    vault: Seq<char>,
)
    requires
        s.idx is Some,
        !v.pool[s.idx->0 as int].local,
        v.current_manifest(v.sid_or_empty(s.idx->0 as int)) is Some,
    ensures
        ({
            let sid = v.sid_or_empty(s.idx->0 as int);
            let r = v.resolved_slot(s, f, vault);
            &&& r.manifest is Some
            &&& v.updated(s) && f.pin_stored ==> r.source == PackSource::Pinned && r.manifest
                == Some(v.pins[s.id])
            &&& !(v.updated(s) && f.pin_stored) ==> r.source == PackSource::Vault && r.manifest
                == v.current_manifest(sid)
            &&& r.files.len() == f.files@.len()
            &&& forall|k: int|
                0 <= k < r.files.len() ==> #[trigger] r.files[k] == (
                    f.files@[k].rel@,
                    path_join(version_path(vault, sid, r.manifest->0), f.files@[k].rel@),
                )
        }),
{
}

/// Every path is staged once, for the last mod in the load order that has it.
pub proof fn later_mods_override_earlier_ones(
    pool: Seq<ModView>,
    resolved: Seq<ResolvedView>,
    there: Seq<Vec<bool>>,
)
    ensures
        ({
            let all = all_entries(pool, resolved, there);
            let rels = all.map_values(|e: (Seq<char>, Seq<char>)| e.0);
            let staged_rels = staged(pool, resolved, there).map_values(
                |e: (Seq<char>, Seq<char>)| e.0,
            );
            &&& staged_rels.no_duplicates()
            &&& staged_rels.to_set() == rels.to_set()
            &&& forall|e: (Seq<char>, Seq<char>)| #[trigger]
                staged(pool, resolved, there).contains(e) <==> exists|i: int|
                    0 <= i < all.len() && all[i] == e && !(#[trigger] rels.skip(i + 1)).contains(
                        rels[i],
                    )
        }),
{
    let all = all_entries(pool, resolved, there);
    let rel = |e: (Seq<char>, Seq<char>)| e.0;
    let rels = all.map_values(rel);
    keep_last_keeps_each_key_once(all, rels);
    lemma_keep_last_maps(all, rels, rel);
}

impl App {
    /// The rows of the dry run.
    fn rows_of_preview(resolved: &Vec<ResolvedMod>) -> (r: String)
        ensures
            r@ == preview_rows(resolved_views(resolved@)),
    {
        let ghost all = resolved_views(resolved@);
        let mut out: String = String::new();
        let mut i: usize = 0;
        assert(all.take(0) =~= Seq::<ResolvedView>::empty());
        assert(out@ =~= preview_rows(all.take(0)));
        while i < resolved.len()
            invariant
                i <= resolved@.len(),
                all == resolved_views(resolved@),
                out@ == preview_rows(all.take(i as int)),
            decreases resolved@.len() - i,
        {
            assert(all.take(i + 1).drop_last() =~= all.take(i as int));
            assert(all.take(i + 1).last() == resolved@[i as int]@);
            let r = &resolved[i];
            assert(texts(r.packs@).len() == r.packs@.len());
            let packs = if r.packs.len() == 1 {
                String::new()
            } else {
                ", ".to_owned().concat(to_decimal(r.packs.len() as u64).as_str()).concat(" packs")
            };
            assert(r.packs@.len() == 1 ==> packs@ =~= Seq::<char>::empty());
            let row = pad(to_decimal(i as u64 + 1).as_str(), 3, ' ').concat("  ").concat(
                r.name.as_str(),
            ).concat("  [").concat(r.source.label()).concat(packs.as_str()).concat("]\n");
            out.append(row.as_str());
            i = i + 1;
        }
        assert(all.take(i as int) =~= all);
        out
    }

    /// How many slots have no mod installed and are skipped by a launch.
    fn skipped_count(&self, found: &Vec<SlotFiles>) -> (r: usize)
        requires
            slots_fit(self@.slots, self@.pool.len()),
            found@.len() == self@.slots.len(),
        ensures
            r == self@.skipped_among(self@.slots, found@),
    {
        let ghost all = self@.slots;
        let mut n: usize = 0;
        let mut i: usize = 0;
        assert(all.take(0) =~= Seq::<SlotView>::empty());
        while i < self.slots.len()
            invariant
                i <= self.slots@.len() == found@.len(),
                n <= i,
                all == self@.slots,
                slots_fit(self@.slots, self@.pool.len()),
                n == self@.skipped_among(all.take(i as int), found@.take(i as int)),
            decreases self.slots@.len() - i,
        {
            proof {
                assert(all.take(i + 1).drop_last() =~= all.take(i as int));
                assert(found@.take(i + 1).drop_last() =~= found@.take(i as int));
                assert(found@.take(i + 1).last() == found@[i as int]);
                assert(all[i as int] == self.slots@[i as int]@);
            }
            let s = &self.slots[i];
            let stored = s.enabled && s.idx.is_none() && found[i].pin_stored && self.pins.get(
                s.id.as_str(),
            ).is_some();
            if self.slot_missing(s) && !stored {
                n = n + 1;
            }
            i = i + 1;
        }
        assert(all.take(i as int) =~= all);
        assert(found@.take(i as int) =~= found@);
        n
    }

    /// Exactly what a launch would pass to the game, for reading.
    /// `found[k]` is what was found on disk for slot `k`.
    pub fn used_mods_preview(&self, s: &Settings, found: &Vec<SlotFiles>, vault: &str) -> (r:
        String)
        requires
            slots_fit(self@.slots, self@.pool.len()),
            found@.len() == self@.slots.len(),
        ensures
            r@ == self@.dry_run(*s, found@, vault@),
            r@ == preview_text(
                *s,
                self@.skipped_among(self@.slots, found@),
                self@.resolved(self@.slots, found@, vault@),
            ),
    {
        let all = self.resolve_load_order(found, vault);
        let resolved = &all;
        let packs = App::used_mods_lines(resolved);
        assert(texts(packs@).len() == packs@.len());
        assert(resolved_views(resolved@).len() == resolved@.len());
        let skipped = self.skipped_count(found);
        let note = if skipped > 0 {
            "     (".to_owned().concat(to_decimal(skipped as u64).as_str()).concat(
                " missing / not installed — skipped)\n",
            )
        } else {
            String::new()
        };
        assert(skipped == 0 ==> note@ =~= Seq::<char>::empty());
        let overlay = if overlay_is_off(s) {
            "overlay: off → the game is passed used_mods.txt (working-directory loading)\n\n"
        } else {
            "overlay: on → the game is passed used_mods_overlay.txt when the fuse mount succeeds,\n             otherwise it falls back to used_mods.txt\n\n"
        };
        let head = "Load order — ".to_owned().concat(
            to_decimal(resolved.len() as u64).as_str(),
        ).concat(" mods (").concat(to_decimal(packs.len() as u64).as_str()).concat(
            " packs), in launch order:\n",
        ).concat(App::rows_of_preview(resolved).as_str()).concat(note.as_str()).concat(
            "\n",
        ).concat(overlay);
        let staging = staging_dir(s);
        head.concat("----- used_mods_overlay.txt (packs merged into data/) -----\n").concat(
            overlay_list(&packs).as_str(),
        ).concat("\n----- used_mods.txt (fallback / overlay off) -----\n").concat(
            used_mods_list(staging.as_str(), &packs).as_str(),
        )
    }
}

/// How a launch ended.
pub enum LaunchOutcome {
    /// The lists could not be written.
    NotWritten(String),
    /// Steam could not be started.
    NoSteam(String),
    /// Steam was asked to start the game: with so many mods, so many of them
    /// pinned, at this time.
    Started { mods: usize, pinned: usize, now: Option<u64> },
}

/// What the outcome of a launch says.
pub enum OutcomeView {
    NotWritten(Seq<char>),
    NoSteam(Seq<char>),
    Started { mods: nat, pinned: nat, now: Option<u64> },
}

impl View for LaunchOutcome {
    type V = OutcomeView;

    open spec fn view(&self) -> OutcomeView {
        match *self {
            LaunchOutcome::NotWritten(e) => OutcomeView::NotWritten(e@),
            LaunchOutcome::NoSteam(e) => OutcomeView::NoSteam(e@),
            LaunchOutcome::Started { mods, pinned, now } => OutcomeView::Started {
                mods: mods as nat,
                pinned: pinned as nat,
                now,
            },
        }
    }
}

impl AppView {
    /// A launch ended. From the moment the lists are written a preview mount
    /// is the launch shim's to clear.
    pub open spec fn launched(self, outcome: OutcomeView) -> AppView {
        match outcome {
            OutcomeView::NotWritten(e) => self.with_status("Launch failed: "@ + e),
            OutcomeView::NoSteam(e) => AppView {
                preview_mounted: false,
                status: "could not run steam: "@ + e,
                ..self
            },
            OutcomeView::Started { mods, pinned, now } => AppView {
                preview_mounted: false,
                overlay_watch_since: now,
                status: "Launching via Steam: "@ + decimal(mods) + " mods"@ + if pinned > 0 {
                    ", "@ + decimal(pinned) + " pinned versions"@
                } else {
                    Seq::empty()
                } + " — overlay result will appear here when the game starts"@,
                ..self
            },
        }
    }

    /// The launch shim's report, given its text, if one is awaited and this one
    /// is not older than the launch.
    pub open spec fn polled(self, text: Option<Seq<char>>) -> AppView {
        match (self.overlay_watch_since, text) {
            (Some(since), Some(t)) => {
                let r = trimmed(t);
                match first_tab(r, 0) {
                    Some(i) => match u64_of(r.take(i)) {
                        Some(at) => if at >= since {
                            AppView { status: r.skip(i + 1), overlay_watch_since: None, ..self }
                        } else {
                            self
                        },
                        None => self,
                    },
                    None => self,
                }
            },
            _ => self,
        }
    }
}

/// The first tab at or after `from`.
pub open spec fn first_tab(s: Seq<char>, from: int) -> Option<int>
    decreases s.len() - from,
{
    if from >= s.len() {
        None
    } else if s[from] == '\t' {
        Some(from)
    } else {
        first_tab(s, from + 1)
    }
}

impl AppView {
    /// A launch asked for: whether it may begin, and the state after that.
    pub open spec fn launch_asked(self) -> (AppView, bool) {
        if self.dirty {
            (self.with_status("Unsaved changes — press s first, then L to launch"@), false)
        } else {
            (self, true)
        }
    }

    /// The folder of the stored version that a slot is pinned to: of an installed
    /// mod only where Steam has moved past the pin.
    pub open spec fn pinned_folder(self, s: SlotView, vault: Seq<char>) -> Option<Seq<char>> {
        match s.idx {
            Some(i) => if self.updated(s) {
                Some(version_path(vault, self.pool[i as int].steam_id->0, self.pins[s.id]))
            } else {
                None
            },
            None => if self.pins.contains_key(s.id) && self.pins[s.id].len() > 0 {
                Some(version_path(vault, s.id, self.pins[s.id]))
            } else {
                None
            },
        }
    }
}

impl App {
    /// Whether a launch may begin: the load order must be saved.
    pub fn may_launch(&mut self) -> (r: bool)
        ensures
            (final(self)@, r) == old(self)@.launch_asked(),
            r == !old(self)@.dirty,
            final(self)@ == (if r {
                old(self)@
            } else {
                old(self)@.with_status("Unsaved changes — press s first, then L to launch"@)
            }),
    {
        if self.dirty {
            self.status = "Unsaved changes — press s first, then L to launch".to_owned();
            return false;
        }
        true
    }

    /// A launch ended.
    pub fn launch(&mut self, outcome: LaunchOutcome)
        ensures
            final(self)@ == old(self)@.launched(outcome@),
    {
        match outcome {
            LaunchOutcome::NotWritten(e) => {
                self.status = "Launch failed: ".to_owned().concat(e.as_str());
            },
            LaunchOutcome::NoSteam(e) => {
                self.preview_mounted = false;
                self.status = "could not run steam: ".to_owned().concat(e.as_str());
            },
            LaunchOutcome::Started { mods, pinned, now } => {
                self.preview_mounted = false;
                let note = if pinned > 0 {
                    ", ".to_owned().concat(to_decimal(pinned as u64).as_str()).concat(
                        " pinned versions",
                    )
                } else {
                    String::new()
                };
                assert(pinned == 0 ==> note@ =~= Seq::<char>::empty());
                self.overlay_watch_since = now;
                self.status = "Launching via Steam: ".to_owned().concat(
                    to_decimal(mods as u64).as_str(),
                ).concat(" mods").concat(note.as_str()).concat(
                    " — overlay result will appear here when the game starts",
                );
            },
        }
    }

    /// Show the launch shim's report on the overlay once there is one that is
    /// not older than the launch. `text` is what it recorded, if that could be
    /// read.
    pub fn poll_overlay_status(&mut self, text: Option<&str>)
        ensures
            final(self)@ == old(self)@.polled(opt_str(text)),
    {
        let since: u64 = match self.overlay_watch_since {
            Some(t) => t,
            None => {
                return;
            },
        };
        let t = match text {
            Some(t) => trim(t),
            None => {
                return;
            },
        };
        let v = to_chars(t.as_str());
        let mut i: usize = 0;
        while i < v.len() && v[i] != '\t'
            invariant
                i <= v@.len(),
                first_tab(v@, 0) == first_tab(v@, i as int),
            decreases v@.len() - i,
        {
            i = i + 1;
        }
        if i < v.len() {
            let stamp = from_chars(&v, 0, i);
            assert(stamp@ =~= v@.take(i as int));
            match parse_u64(stamp.as_str()) {
                Some(at) => if at >= since {
                    self.status = from_chars(&v, i + 1, v.len());
                    assert(self.status@ =~= v@.skip(i + 1));
                    self.overlay_watch_since = None;
                },
                None => {},
            }
        }
    }
}

proof fn lemma_flatten_last<T>(v: Seq<Seq<T>>)
    requires
        v.len() > 0,
    ensures
        v.flatten() == v.drop_last().flatten() + v.last(),
{
    v.lemma_flatten_and_flatten_alt_are_equivalent();
    v.drop_last().lemma_flatten_and_flatten_alt_are_equivalent();
}

proof fn lemma_flatten_contains<T>(v: Seq<Seq<T>>, x: T)
    ensures
        v.flatten().contains(x) <==> exists|k: int| 0 <= k < v.len() && (#[trigger] v[k]).contains(x),
    decreases v.len(),
{
    if v.len() > 0 {
        let d = v.drop_last();
        lemma_flatten_last(v);
        lemma_flatten_contains(d, x);
        let (a, b) = (d.flatten(), v.last());
        if v.flatten().contains(x) {
            let i = choose|i: int| 0 <= i < (a + b).len() && (a + b)[i] == x;
            if i < a.len() {
                assert(a[i] == x);
                let k = choose|k: int| 0 <= k < d.len() && (#[trigger] d[k]).contains(x);
                assert(v[k].contains(x));
            } else {
                assert(b[i - a.len()] == x);
                assert(v[v.len() - 1].contains(x));
            }
        }
        if exists|k: int| 0 <= k < v.len() && (#[trigger] v[k]).contains(x) {
            let k = choose|k: int| 0 <= k < v.len() && (#[trigger] v[k]).contains(x);
            if k < d.len() {
                assert(d[k].contains(x));
                let i = choose|i: int| 0 <= i < a.len() && a[i] == x;
                assert((a + b)[i] == x);
            } else {
                let i = choose|i: int| 0 <= i < b.len() && b[i] == x;
                assert((a + b)[a.len() + i] == x);
            }
        }
    }
}

proof fn lemma_all_packs(resolved: Seq<ResolvedView>)
    ensures
        all_packs(resolved) == resolved.map_values(|r: ResolvedView| r.packs).flatten(),
    decreases resolved.len(),
{
    let packs = resolved.map_values(|r: ResolvedView| r.packs);
    if resolved.len() > 0 {
        lemma_all_packs(resolved.drop_last());
        lemma_flatten_last(packs);
        assert(packs.drop_last() =~= resolved.drop_last().map_values(|r: ResolvedView| r.packs));
    } else {
        assert(all_packs(resolved) =~= packs.flatten());
    }
}

/// The game is passed the packs of every resolved mod, wherever the mod is
/// loaded from, and no others: each once, in the load order, at the place of the
/// last mod that has it.
pub proof fn the_game_is_passed_every_pack(resolved: Seq<ResolvedView>)
    ensures
        ({
            let r = used_packs(resolved);
            let all = resolved.map_values(|m: ResolvedView| m.packs).flatten();
            &&& r.no_duplicates()
            &&& forall|p: Seq<char>| #[trigger]
                r.contains(p) <==> exists|k: int|
                    0 <= k < resolved.len() && (#[trigger] resolved[k]).packs.contains(p)
            &&& r == Seq::new(all.len(), |i: int| i).filter(
                |i: int| forall|j: int| i < j < all.len() ==> #[trigger] all[j] != all[i],
            ).map_values(|i: int| all[i])
        }),
{
    let lists = resolved.map_values(|m: ResolvedView| m.packs);
    let all = lists.flatten();
    let r = used_packs(resolved);
    lemma_all_packs(resolved);
    keep_last_keeps_each_key_once(all, all);
    kept_elements_are_the_last_of_their_keys(all, all);
    assert forall|p: Seq<char>| #[trigger]
        r.contains(p) <==> exists|k: int|
            0 <= k < resolved.len() && (#[trigger] resolved[k]).packs.contains(p) by {
        assert(r.to_set().contains(p) == all.to_set().contains(p));
        lemma_flatten_contains(lists, p);
        if all.contains(p) {
            let k = choose|k: int| 0 <= k < lists.len() && (#[trigger] lists[k]).contains(p);
            assert(resolved[k].packs.contains(p));
        }
        if exists|k: int| 0 <= k < resolved.len() && (#[trigger] resolved[k]).packs.contains(p) {
            let k = choose|k: int|
                0 <= k < resolved.len() && (#[trigger] resolved[k]).packs.contains(p);
            assert(lists[k].contains(p));
        }
    }
}

/// The files of the resolved mods, mod by mod: a file lies where it is served
/// from, or else in the folder of its mod.
pub open spec fn files_of_mods(
    pool: Seq<ModView>,
    resolved: Seq<ResolvedView>,
    there: Seq<Vec<bool>>,
) -> Seq<Seq<(Seq<char>, Seq<char>)>> {
    Seq::new(
        resolved.len(),
        |k: int|
            Seq::new(
                resolved[k].files.len(),
                |j: int|
                    if there[k]@[j] || resolved[k].idx is None {
                        resolved[k].files[j]
                    } else {
                        (
                            resolved[k].files[j].0,
                            path_join(
                                pool[resolved[k].idx->0 as int].dir,
                                resolved[k].files[j].0,
                            ),
                        )
                    },
            ),
    )
}

proof fn lemma_all_entries(pool: Seq<ModView>, resolved: Seq<ResolvedView>, there: Seq<Vec<bool>>)
    requires
        resolved.len() == there.len(),
    ensures
        all_entries(pool, resolved, there) == files_of_mods(pool, resolved, there).flatten(),
    decreases resolved.len(),
{
    let f = files_of_mods(pool, resolved, there);
    if resolved.len() > 0 {
        let (r, t) = (resolved.drop_last(), there.drop_last());
        lemma_all_entries(pool, r, t);
        lemma_flatten_last(f);
        assert forall|k: int| 0 <= k < r.len() implies #[trigger] f.drop_last()[k]
            == files_of_mods(pool, r, t)[k] by {
            assert(r[k] == resolved[k] && t[k] == there[k]);
            assert(f.drop_last()[k] =~= files_of_mods(pool, r, t)[k]);
        }
        assert(f.drop_last() =~= files_of_mods(pool, r, t));
        assert(f.last() =~= entries_of(pool, resolved.last(), there.last()@));
    } else {
        assert(all_entries(pool, resolved, there) =~= f.flatten());
    }
}

/// Every file of every resolved mod is staged: each path once, with the file of
/// the last mod in the load order that has it.
pub proof fn every_file_is_staged(
    pool: Seq<ModView>,
    resolved: Seq<ResolvedView>,
    there: Seq<Vec<bool>>,
)
    requires
        resolved.len() == there.len(),
    ensures
        ({
            let all = files_of_mods(pool, resolved, there).flatten();
            &&& staged(pool, resolved, there) == Seq::new(all.len(), |i: int| i).filter(
                |i: int| forall|j: int| i < j < all.len() ==> (#[trigger] all[j]).0 != all[i].0,
            ).map_values(|i: int| all[i])
            &&& forall|k: int, j: int|
                0 <= k < resolved.len() && 0 <= j < resolved[k].files.len() ==> exists|i: int|
                    0 <= i < staged(pool, resolved, there).len() && (#[trigger] staged(
                        pool,
                        resolved,
                        there,
                    )[i]).0 == (#[trigger] resolved[k].files[j]).0
        }),
{
    let lists = files_of_mods(pool, resolved, there);
    let all = lists.flatten();
    lemma_all_entries(pool, resolved, there);
    let rel = |e: (Seq<char>, Seq<char>)| e.0;
    let rels = all.map_values(rel);
    kept_elements_are_the_last_of_their_keys(all, rels);
    let n = Seq::new(all.len(), |i: int| i);
    let p = |i: int| forall|j: int| i < j < all.len() ==> (#[trigger] all[j]).0 != all[i].0;
    let q = |i: int| forall|j: int| i < j < all.len() ==> #[trigger] rels[j] != rels[i];
    assert forall|k: int| 0 <= k < n.len() implies p(#[trigger] n[k]) == q(n[k]) by {
        let i = n[k];
        if p(i) {
            assert forall|j: int| i < j < all.len() implies #[trigger] rels[j] != rels[i] by {
                assert(all[j].0 != all[i].0);
            }
        }
        if q(i) {
            assert forall|j: int| i < j < all.len() implies (#[trigger] all[j]).0 != all[i].0 by {
                assert(rels[j] != rels[i]);
            }
        }
    }
    lemma_same_filter(n, p, q);
    later_mods_override_earlier_ones(pool, resolved, there);
    let s = staged(pool, resolved, there);
    let srels = s.map_values(rel);
    assert forall|k: int, j: int|
        0 <= k < resolved.len() && 0 <= j < resolved[k].files.len() implies exists|i: int|
        0 <= i < s.len() && (#[trigger] s[i]).0 == (#[trigger] resolved[k].files[j]).0 by {
        let x = lists[k][j];
        assert(lists[k].contains(x));
        lemma_flatten_contains(lists, x);
        let i = choose|i: int| 0 <= i < all.len() && all[i] == x;
        assert(rels[i] == resolved[k].files[j].0);
        assert(rels.to_set().contains(rels[i]));
        assert(srels.contains(rels[i]));
        let m = choose|m: int| 0 <= m < srels.len() && srels[m] == rels[i];
        assert(s[m].0 == rels[i]);
    }
}

proof fn lemma_same_filter(v: Seq<int>, p: spec_fn(int) -> bool, q: spec_fn(int) -> bool)
    requires
        forall|k: int| 0 <= k < v.len() ==> p(#[trigger] v[k]) == q(v[k]),
    ensures
        v.filter(p) == v.filter(q),
    decreases v.len(),
{
    reveal(Seq::filter);
    if v.len() > 0 {
        assert forall|k: int| 0 <= k < v.drop_last().len() implies p(#[trigger] v.drop_last()[k])
            == q(v.drop_last()[k]) by {
            assert(v.drop_last()[k] == v[k]);
        }
        lemma_same_filter(v.drop_last(), p, q);
        assert(v[v.len() - 1] == v.last());
    }
}

/// The lists that the game is passed have one line for each pack, in order; the
/// one without the overlay names the staging folder before them.
pub proof fn the_lists_have_a_line_for_each_pack(staging: Seq<char>, packs: Seq<Seq<char>>)
    ensures
        mod_lines(packs) == packs.map_values(
            |p: Seq<char>| "mod \""@ + p + "\";\n"@,
        ).flatten(),
        used_mods_text(staging, packs) == "add_working_directory \""@ + win_path(staging)
            + "\";\n"@ + packs.map_values(|p: Seq<char>| "mod \""@ + p + "\";\n"@).flatten(),
    decreases packs.len(),
{
    let line = |p: Seq<char>| "mod \""@ + p + "\";\n"@;
    let lines = packs.map_values(line);
    if packs.len() > 0 {
        the_lists_have_a_line_for_each_pack(staging, packs.drop_last());
        lemma_flatten_last(lines);
        assert(lines.drop_last() =~= packs.drop_last().map_values(line));
    } else {
        assert(mod_lines(packs) =~= lines.flatten());
    }
}

proof fn lemma_pack_names(packs: Seq<Seq<char>>)
    ensures
        pack_names(packs) == packs.filter_map(|p: Seq<char>| name_of(p)),
    decreases packs.len(),
{
    if packs.len() > 0 {
        lemma_pack_names(packs.drop_last());
    }
    assert(pack_names(packs) =~= packs.filter_map(|p: Seq<char>| name_of(p)));
}

/// The slot at position `k` plays: it is enabled, and its mod is installed or
/// its pinned version is stored.
pub open spec fn slot_plays(
    v: AppView,
    slots: Seq<SlotView>,
    found: Seq<SlotFiles>,
    k: int,
) -> bool {
    slots[k].enabled && match slots[k].idx {
        Some(i) => !v.pool[i as int].missing,
        None => v.pins.contains_key(slots[k].id) && found[k].pin_stored,
    }
}

/// A launch resolves the slots that play, all of them and in order, each to its
/// own mod with all packs of that mod.
pub proof fn every_playing_slot_is_resolved(
    v: AppView,
    slots: Seq<SlotView>,
    found: Seq<SlotFiles>,
    vault: Seq<char>,
)
    requires
        slots.len() == found.len(),
    ensures
        ({
            let r = v.resolved(slots, found, vault);
            let at = Seq::new(slots.len(), |k: int| k).filter(
                |k: int| slot_plays(v, slots, found, k),
            );
            &&& r.len() == at.len()
            &&& forall|j: int|
                #![trigger r[j]]
                0 <= j < r.len() ==> {
                    let s = slots[at[j]];
                    &&& 0 <= at[j] < slots.len()
                    &&& r[j].idx == s.idx
                    &&& s.idx matches Some(i) ==> r[j].name == v.pool[i as int].name && r[j].packs
                        == v.pool[i as int].packs.filter_map(|p: Seq<char>| name_of(p))
                    &&& s.idx is None ==> r[j].name == s.id && r[j].packs == packs_of(
                        found[at[j]].files@,
                    ).filter_map(|p: Seq<char>| name_of(p)) && r[j].source == PackSource::Pinned
                        && r[j].manifest == Some(v.pins[s.id])
                }
        }),
{
    let all = Seq::new(slots.len(), |k: int| k);
    let plays = |k: int| slot_plays(v, slots, found, k);
    let at = all.filter(plays);
    lemma_resolved_up_to(v, slots, found, vault, slots.len() as int);
    assert(slots.take(slots.len() as int) =~= slots);
    assert(found.take(slots.len() as int) =~= found);
    assert(all.take(slots.len() as int) =~= all);
    let r = v.resolved(slots, found, vault);
    assert(r.len() == at.len());
    assert forall|j: int|
        #![trigger r[j]]
        0 <= j < r.len() implies 0 <= at[j] < slots.len() && r[j] == v.resolved_slot(
        slots[at[j]],
        found[at[j]],
        vault,
    ) by {
        all.lemma_filter_contains_rev(plays, at[j]);
    }
    assert forall|j: int|
        #![trigger r[j]]
        0 <= j < r.len() implies {
        let s = slots[at[j]];
        &&& r[j].idx == s.idx
        &&& s.idx matches Some(i) ==> r[j].packs == v.pool[i as int].packs.filter_map(
            |p: Seq<char>| name_of(p),
        )
        &&& s.idx is None ==> r[j].packs == packs_of(found[at[j]].files@).filter_map(
            |p: Seq<char>| name_of(p),
        )
    } by {
        let s = slots[at[j]];
        match s.idx {
            Some(i) => lemma_pack_names(v.pool[i as int].packs),
            None => lemma_pack_names(packs_of(found[at[j]].files@)),
        }
    }
}

proof fn lemma_resolved_up_to(
    v: AppView,
    slots: Seq<SlotView>,
    found: Seq<SlotFiles>,
    vault: Seq<char>,
    n: int,
)
    requires
        0 <= n <= slots.len() == found.len(),
    ensures
        v.resolved(slots.take(n), found.take(n), vault) == Seq::new(slots.len(), |k: int| k).take(
            n,
        ).filter(|k: int| slot_plays(v, slots, found, k)).map_values(
            |k: int| v.resolved_slot(slots[k], found[k], vault),
        ),
    decreases n,
{
    let all = Seq::new(slots.len(), |k: int| k);
    let plays = |k: int| slot_plays(v, slots, found, k);
    let make = |k: int| v.resolved_slot(slots[k], found[k], vault);
    reveal(Seq::filter);
    if n > 0 {
        lemma_resolved_up_to(v, slots, found, vault, n - 1);
        assert(slots.take(n).drop_last() =~= slots.take(n - 1));
        assert(found.take(n).drop_last() =~= found.take(n - 1));
        assert(all.take(n).drop_last() =~= all.take(n - 1));
        assert(all.take(n).last() == n - 1);
        let kept = all.take(n - 1).filter(plays);
        assert(kept.push(n - 1).map_values(make) =~= kept.map_values(make).push(make(n - 1)));
    } else {
        assert(v.resolved(slots.take(0), found.take(0), vault) =~= all.take(0).filter(
            plays,
        ).map_values(make));
    }
}

/// Where the files of an installed mod are loaded from: a local mod's and those
/// of a mod of unknown version from its folder, and else from the store, from
/// the pinned version where Steam has another one installed and the pinned one
/// is stored, and from the installed version otherwise.
pub proof fn installed_mods_are_loaded_in_their_version(
    v: AppView,
    s: SlotView,
    f: SlotFiles,
    vault: Seq<char>,
)
    requires
        s.idx is Some,
    ensures
        ({
            let r = v.resolved_slot(s, f, vault);
            let m = v.pool[s.idx->0 as int];
            let sid = match m.steam_id {
                Some(x) => x,
                None => Seq::empty(),
            };
            let known = !m.local && v.ws.contains_key(sid) && v.ws[sid].manifest.len() > 0;
            let old = m.steam_id is Some && v.pins.contains_key(s.id) && v.pins[s.id]
                != v.ws[sid].manifest && f.pin_stored;
            let from_store = |version: Seq<char>|
                Seq::new(
                    f.files@.len(),
                    |j: int|
                        (
                            f.files@[j].rel@,
                            path_join(
                                path_join(path_join(vault, sid), version),
                                f.files@[j].rel@,
                            ),
                        ),
                );
            &&& m.local ==> r.source == PackSource::Local
            &&& !known ==> {
                &&& r.manifest is None
                &&& r.files == Seq::new(
                    f.files@.len(),
                    |j: int| (f.files@[j].rel@, f.files@[j].abs@),
                )
            }
            &&& !m.local && !known ==> r.source == PackSource::Workshop
            &&& known && old ==> r.source == PackSource::Pinned && r.manifest == Some(v.pins[s.id])
                && r.files == from_store(v.pins[s.id])
            &&& known && !old ==> r.source == PackSource::Vault && r.manifest == Some(
                v.ws[sid].manifest,
            ) && r.files == from_store(v.ws[sid].manifest)
        }),
{
    let r = v.resolved_slot(s, f, vault);
    let m = v.pool[s.idx->0 as int];
    let sid = match m.steam_id {
        Some(x) => x,
        None => Seq::empty(),
    };
    let here = Seq::new(f.files@.len(), |j: int| (f.files@[j].rel@, f.files@[j].abs@));
    let version = match r.manifest {
        Some(x) => x,
        None => Seq::empty(),
    };
    let stored = Seq::new(
        f.files@.len(),
        |j: int|
            (
                f.files@[j].rel@,
                path_join(path_join(path_join(vault, sid), version), f.files@[j].rel@),
            ),
    );
    if r.manifest is None {
        assert(r.files =~= here);
    } else {
        assert(r.files =~= stored);
    }
}

/// Before a launch the installed version of every mod that is served from the
/// store in that version is stored, from the mod's folder, and nothing else.
pub proof fn served_versions_are_stored_first(v: AppView, resolved: Seq<ResolvedView>)
    ensures
        v.launch_stores(resolved) == resolved.filter_map(
            |r: ResolvedView|
                if r.source == PackSource::Vault && r.idx is Some && r.manifest is Some
                    && v.pool[r.idx->0 as int].steam_id is Some {
                    let m = v.pool[r.idx->0 as int];
                    let sid = m.steam_id->0;
                    Some(
                        StoreView {
                            sid,
                            manifest: r.manifest->0,
                            dir: m.dir,
                            timeupdated: if v.ws.contains_key(sid) {
                                v.ws[sid].timeupdated
                            } else {
                                0
                            },
                            size: if v.ws.contains_key(sid) {
                                v.ws[sid].size
                            } else {
                                0
                            },
                        },
                    )
                } else {
                    None
                },
        ),
    decreases resolved.len(),
{
    if resolved.len() > 0 {
        served_versions_are_stored_first(v, resolved.drop_last());
    }
    let f = |r: ResolvedView|
        if r.source == PackSource::Vault && r.idx is Some && r.manifest is Some
            && v.pool[r.idx->0 as int].steam_id is Some {
            let m = v.pool[r.idx->0 as int];
            let sid = m.steam_id->0;
            Some(
                StoreView {
                    sid,
                    manifest: r.manifest->0,
                    dir: m.dir,
                    timeupdated: if v.ws.contains_key(sid) {
                        v.ws[sid].timeupdated
                    } else {
                        0
                    },
                    size: if v.ws.contains_key(sid) {
                        v.ws[sid].size
                    } else {
                        0
                    },
                },
            )
        } else {
            None
        };
    assert(v.launch_stores(resolved) =~= resolved.filter_map(f));
}

/// The mods that are counted as pinned are those loaded in their pinned
/// versions; the slots that are counted as skipped are those that have no mod
/// installed and do not play.
pub proof fn launches_are_counted(
    v: AppView,
    slots: Seq<SlotView>,
    found: Seq<SlotFiles>,
    resolved: Seq<ResolvedView>,
)
    requires
        slots.len() == found.len(),
    ensures
        pinned_among(resolved) == resolved.filter(
            |r: ResolvedView| r.source == PackSource::Pinned,
        ).len(),
        v.skipped_among(slots, found) == Seq::new(slots.len(), |k: int| k).filter(
            |k: int|
                (match slots[k].idx {
                    Some(i) => v.pool[i as int].missing,
                    None => true,
                }) && !slot_plays(v, slots, found, k),
        ).len(),
{
    lemma_pinned_count(resolved);
    lemma_skipped_up_to(v, slots, found, slots.len() as int);
    let all = Seq::new(slots.len(), |k: int| k);
    assert(slots.take(slots.len() as int) =~= slots);
    assert(found.take(slots.len() as int) =~= found);
    assert(all.take(slots.len() as int) =~= all);
}

proof fn lemma_pinned_count(resolved: Seq<ResolvedView>)
    ensures
        pinned_among(resolved) == resolved.filter(
            |r: ResolvedView| r.source == PackSource::Pinned,
        ).len(),
    decreases resolved.len(),
{
    reveal(Seq::filter);
    if resolved.len() > 0 {
        lemma_pinned_count(resolved.drop_last());
    }
}

proof fn lemma_skipped_up_to(v: AppView, slots: Seq<SlotView>, found: Seq<SlotFiles>, n: int)
    requires
        0 <= n <= slots.len() == found.len(),
    ensures
        v.skipped_among(slots.take(n), found.take(n)) == Seq::new(slots.len(), |k: int| k).take(
            n,
        ).filter(
            |k: int|
                (match slots[k].idx {
                    Some(i) => v.pool[i as int].missing,
                    None => true,
                }) && !slot_plays(v, slots, found, k),
        ).len(),
    decreases n,
{
    reveal(Seq::filter);
    if n > 0 {
        lemma_skipped_up_to(v, slots, found, n - 1);
        let all = Seq::new(slots.len(), |k: int| k);
        assert(slots.take(n).drop_last() =~= slots.take(n - 1));
        assert(found.take(n).drop_last() =~= found.take(n - 1));
        assert(all.take(n).drop_last() =~= all.take(n - 1));
        assert(all.take(n).last() == n - 1);
    }
}

/// The dry run has one row for each resolved mod, in the load order.
pub proof fn the_dry_run_has_a_row_for_each_mod(resolved: Seq<ResolvedView>)
    ensures
        preview_rows(resolved) == Seq::new(
            resolved.len(),
            |k: int|
                padded(decimal((k + 1) as nat), 3, ' ') + "  "@ + resolved[k].name + "  ["@ + (
                match resolved[k].source {
                    PackSource::Vault => "versioned"@,
                    PackSource::Pinned => "versioned (pinned)"@,
                    PackSource::Local => "local"@,
                    PackSource::Workshop => "workshop (live)"@,
                }) + if resolved[k].packs.len() == 1 {
                    Seq::empty()
                } else {
                    ", "@ + decimal(resolved[k].packs.len()) + " packs"@
                } + "]\n"@,
        ).flatten(),
    decreases resolved.len(),
{
    let rows = Seq::new(resolved.len(), |k: int| preview_row(k, resolved[k]));
    let shown = Seq::new(
        resolved.len(),
        |k: int|
            padded(decimal((k + 1) as nat), 3, ' ') + "  "@ + resolved[k].name + "  ["@ + (
            match resolved[k].source {
                PackSource::Vault => "versioned"@,
                PackSource::Pinned => "versioned (pinned)"@,
                PackSource::Local => "local"@,
                PackSource::Workshop => "workshop (live)"@,
            }) + if resolved[k].packs.len() == 1 {
                Seq::empty()
            } else {
                ", "@ + decimal(resolved[k].packs.len()) + " packs"@
            } + "]\n"@,
    );
    assert(rows =~= shown);
    lemma_rows(resolved);
}

proof fn lemma_rows(resolved: Seq<ResolvedView>)
    ensures
        preview_rows(resolved) == Seq::new(
            resolved.len(),
            |k: int| preview_row(k, resolved[k]),
        ).flatten(),
    decreases resolved.len(),
{
    let rows = Seq::new(resolved.len(), |k: int| preview_row(k, resolved[k]));
    if resolved.len() > 0 {
        let d = resolved.drop_last();
        lemma_rows(d);
        lemma_flatten_last(rows);
        assert(rows.drop_last() =~= Seq::new(d.len(), |k: int| preview_row(k, d[k])));
    } else {
        assert(preview_rows(resolved) =~= rows.flatten());
    }
}

/// Once a launch has written the lists, a preview that was mounted is no longer
/// this program's to unmount, and a report is awaited if Steam was started; a
/// launch that wrote nothing changes nothing but the status.
pub proof fn launches_change_nothing_else(v: AppView, outcome: OutcomeView)
    ensures
        ({
            let r = v.launched(outcome);
            &&& r == (AppView {
                status: r.status,
                preview_mounted: v.preview_mounted && outcome is NotWritten,
                overlay_watch_since: match outcome {
                    OutcomeView::Started { now, .. } => now,
                    _ => v.overlay_watch_since,
                },
                ..v
            })
        }),
{
}

/// The report on the overlay is shown once it is there and not older than the
/// launch; nothing else changes, and no report is shown that is not awaited.
pub proof fn reports_are_shown_once(v: AppView, time: nat, message: Seq<char>, since: u64)
    requires
        time <= u64::MAX,
        v.overlay_watch_since == Some(since),
        trimmed(decimal(time).push('\t') + message) == decimal(time).push('\t') + message,
    ensures
        ({
            let r = v.polled(Some(decimal(time).push('\t') + message));
            &&& time >= since ==> r == (AppView {
                status: message,
                overlay_watch_since: None,
                ..v
            })
            &&& time < since ==> r == v
            &&& v.polled(None) == v
            &&& forall|t: Option<Seq<char>>| (AppView { overlay_watch_since: None, ..v }).polled(t)
                == (AppView { overlay_watch_since: None, ..v })
        }),
{
    let d = decimal(time);
    let t = d.push('\t') + message;
    decimal_reads_back(time);
    lemma_first_tab(t, d.len() as int, 0);
    assert(t.take(d.len() as int) =~= d);
    assert(t.skip(d.len() as int + 1) =~= message);
}

proof fn lemma_first_tab(s: Seq<char>, at: int, from: int)
    requires
        0 <= from <= at < s.len(),
        s[at] == '\t',
        forall|i: int| 0 <= i < at ==> #[trigger] s[i] != '\t',
    ensures
        first_tab(s, from) == Some(at),
    decreases at - from,
{
    if from < at {
        lemma_first_tab(s, at, from + 1);
    }
}

/// A mod that is not installed is loaded from the store, in the version that it
/// is pinned to: every file of that version but the store's own, in order, each
/// from its place there.
pub proof fn stored_mods_are_loaded_whole(
    v: AppView,
    s: SlotView,
    f: SlotFiles,
    vault: Seq<char>,
)
    requires
        s.idx is None,
    ensures
        ({
            let r = v.resolved_slot(s, f, vault);
            let own = f.files@.filter(|x: FoundFile| !is_store_record(x.rel@));
            &&& r.files.len() == own.len()
            &&& forall|j: int|
                #![trigger r.files[j]]
                0 <= j < own.len() ==> r.files[j].0 == own[j].rel@ && r.files[j].1 == path_join(
                    path_join(path_join(vault, s.id), v.pins[s.id]),
                    own[j].rel@,
                )
            &&& forall|i: int|
                0 <= i < f.files@.len() && !is_store_record((#[trigger] f.files@[i]).rel@)
                    ==> exists|j: int|
                    0 <= j < r.files.len() && (#[trigger] r.files[j]).0 == f.files@[i].rel@
        }),
{
    let keep = |x: FoundFile| !is_store_record(x.rel@);
    let own = f.files@.filter(keep);
    let r = v.resolved_slot(s, f, vault);
    assert forall|i: int|
        0 <= i < f.files@.len() && !is_store_record((#[trigger] f.files@[i]).rel@) implies exists|
        j: int,
    |
        0 <= j < r.files.len() && (#[trigger] r.files[j]).0 == f.files@[i].rel@ by {
        f.files@.lemma_filter_contains(keep, i);
        let j = choose|j: int| 0 <= j < own.len() && own[j] == f.files@[i];
        assert(r.files[j].0 == f.files@[i].rel@);
    }
}

/// The dry run says how many mods and packs the game is passed and how many were
/// skipped, and which list is used.
pub proof fn the_dry_run_counts_mods_and_packs(
    s: Settings,
    skipped: nat,
    resolved: Seq<ResolvedView>,
)
    ensures
        ({
            let head = "Load order — "@ + decimal(resolved.len()) + " mods ("@ + decimal(
                used_packs(resolved).len(),
            ) + " packs), in launch order:\n"@ + preview_rows(resolved);
            let note = "     ("@ + decimal(skipped) + " missing / not installed — skipped)\n"@;
            &&& skipped == 0 ==> preview_head(s, skipped, resolved) == head + "\n"@ + overlay_note(
                overlay_off(s),
            )
            &&& skipped > 0 ==> preview_head(s, skipped, resolved) == head + note + "\n"@
                + overlay_note(overlay_off(s))
        }),
        overlay_off(s) <==> (s.env@.contains_key("TWWH3_OVERLAY"@) && s.env@["TWWH3_OVERLAY"@]@
            == "off"@) || (!s.env@.contains_key("TWWH3_OVERLAY"@) && s.config@.contains_key(
            "overlay"@,
        ) && s.config@["overlay"@]@ == "off"@),
{
    let head = "Load order — "@ + decimal(resolved.len()) + " mods ("@ + decimal(
        used_packs(resolved).len(),
    ) + " packs), in launch order:\n"@ + preview_rows(resolved);
    assert(head + Seq::<char>::empty() =~= head);
}

/// What is told of a launch: why it failed, or how many mods were passed and how
/// many of them in pinned versions.
pub proof fn launches_are_reported(v: AppView, e: Seq<char>, mods: nat, pinned: nat, now: Option<u64>)
    ensures
        v.launched(OutcomeView::NotWritten(e)).status == "Launch failed: "@ + e,
        v.launched(OutcomeView::NoSteam(e)).status == "could not run steam: "@ + e,
        ({
            let r = v.launched(OutcomeView::Started { mods, pinned, now }).status;
            let tail = " — overlay result will appear here when the game starts"@;
            &&& pinned == 0 ==> r == "Launching via Steam: "@ + decimal(mods) + " mods"@ + tail
            &&& pinned > 0 ==> r == "Launching via Steam: "@ + decimal(mods) + " mods"@ + (", "@
                + decimal(pinned) + " pinned versions"@) + tail
        }),
{
    let head = "Launching via Steam: "@ + decimal(mods) + " mods"@;
    assert(head + Seq::<char>::empty() =~= head);
}

/// A launch may begin exactly if nothing is unsaved; else that is told, and
/// nothing changes.
pub proof fn only_saved_load_orders_are_launched(v: AppView)
    ensures
        v.launch_asked().1 <==> !v.dirty,
        !v.dirty ==> v.launch_asked().0 == v,
        v.dirty ==> v.launch_asked().0 == (AppView {
            status: "Unsaved changes — press s first, then L to launch"@,
            ..v
        }),
{
}

/// A stored version is looked for where it was put: below the id of the item and
/// the pinned version. For an installed mod that is done exactly where another
/// version is installed than the pinned one.
pub proof fn pinned_versions_are_looked_for_in_the_store(
    v: AppView,
    s: SlotView,
    vault: Seq<char>,
)
    ensures
        ({
            let r = v.pinned_folder(s, vault);
            let m = v.pool[s.idx->0 as int];
            let w = v.ws[m.steam_id->0];
            let moved = v.pins.contains_key(s.id) && m.steam_id is Some && v.ws.contains_key(
                m.steam_id->0,
            ) && w.manifest.len() > 0 && w.manifest != v.pins[s.id];
            &&& s.idx is Some ==> (r is Some <==> moved)
            &&& s.idx is Some && moved ==> r == Some(
                path_join(path_join(vault, m.steam_id->0), v.pins[s.id]),
            )
            &&& s.idx is None ==> (r is Some <==> v.pins.contains_key(s.id) && v.pins[s.id].len()
                > 0)
            &&& s.idx is None && r is Some ==> r == Some(
                path_join(path_join(vault, s.id), v.pins[s.id]),
            )
        }),
{
}

impl AppView {
    /// What a launch of the load order would pass to the game.
    pub open spec fn dry_run(self, s: Settings, found: Seq<SlotFiles>, vault: Seq<char>) -> Seq<char> {
        preview_text(
            s,
            self.skipped_among(self.slots, found),
            self.resolved(self.slots, found, vault),
        )
    }
}

/// The dry run ends with the two lists that a launch of the same load order
/// writes, which have a line for every pack of every slot that plays.
pub proof fn the_dry_run_is_of_the_load_order(
    v: AppView,
    s: Settings,
    found: Seq<SlotFiles>,
    vault: Seq<char>,
)
    ensures
        ({
            let packs = used_packs(v.resolved(v.slots, found, vault));
            let lines = packs.map_values(|p: Seq<char>| "mod \""@ + p + "\";\n"@).flatten();
            let tail = "----- used_mods_overlay.txt (packs merged into data/) -----\n"@ + lines
                + "\n----- used_mods.txt (fallback / overlay off) -----\n"@
                + ("add_working_directory \""@ + win_path(s.staging()) + "\";\n"@ + lines);
            v.dry_run(s, found, vault) == preview_head(
                s,
                v.skipped_among(v.slots, found),
                v.resolved(v.slots, found, vault),
            ) + tail
        }),
{
    let packs = used_packs(v.resolved(v.slots, found, vault));
    the_lists_have_a_line_for_each_pack(s.staging(), packs);
    let lines = packs.map_values(|p: Seq<char>| "mod \""@ + p + "\";\n"@).flatten();
    let head = preview_head(
        s,
        v.skipped_among(v.slots, found),
        v.resolved(v.slots, found, vault),
    );
    let a = "----- used_mods_overlay.txt (packs merged into data/) -----\n"@;
    let b = "\n----- used_mods.txt (fallback / overlay off) -----\n"@;
    let c = "add_working_directory \""@ + win_path(s.staging()) + "\";\n"@ + lines;
    assert(head + a + lines + b + c =~= head + (a + lines + b + c));
}

/// A report that does not begin with a time and a tab is not shown.
pub proof fn reports_begin_with_a_time(v: AppView, text: Seq<char>)
    ensures
        !trimmed(text).contains('\t') ==> v.polled(Some(text)) == v,
        forall|i: int|
            0 <= i < trimmed(text).len() && #[trigger] trimmed(text)[i] == '\t' && (forall|j: int|
                0 <= j < i ==> #[trigger] trimmed(text)[j] != '\t') && u64_of(
                trimmed(text).take(i),
            ) is None ==> v.polled(Some(text)) == v,
{
    let r = trimmed(text);
    if !r.contains('\t') {
        lemma_no_tab(r, 0);
    }
    assert forall|i: int|
        0 <= i < r.len() && #[trigger] r[i] == '\t' && (forall|j: int|
            0 <= j < i ==> #[trigger] r[j] != '\t') && u64_of(r.take(i)) is None implies v.polled(
        Some(text),
    ) == v by {
        lemma_first_tab(r, i, 0);
    }
}

proof fn lemma_no_tab(s: Seq<char>, from: int)
    requires
        0 <= from,
        !s.contains('\t'),
    ensures
        first_tab(s, from) is None,
    decreases s.len() - from,
{
    if from < s.len() {
        assert(s.contains(s[from]));
        lemma_no_tab(s, from + 1);
    }
}

} // verus!
