//! The mod model: a mod is a folder. Discovery and the types of the load order.

use vstd::prelude::*;
use vstd::seq_lib::group_to_multiset_ensures;

use crate::json::{Json, JsonView};
use crate::order::{
    differs_below, first_difference_decides, models, picked, sort_by_keys, sorted_indices,
    sorting_rearranges, text_before, SortKey,
};
use crate::paths::{extension_is, file_name, file_stem, has_extension, name_of, stem_of};
use crate::steam::{meta_views, MetaView, ModMeta};
use crate::strmap::StrMap;
use crate::text::{
    all_digits, is_all_digits, lowercase, opt_text, same, texts, to_chars, to_lowercase,
};

verus! {

/// A mod is a folder mirrored into the game's `data/`: a Workshop item or a
/// local mod. Either may hold several packs and loose files.
pub struct ModEntry {
    /// The mod's folder on disk.
    pub dir: String,
    /// Stable identity: the item id of a Workshop mod, the folder name of a
    /// local one.
    pub id: String,
    /// Display name.
    pub name: String,
    /// The packs in the folder, sorted.
    pub packs: Vec<String>,
    /// Combined size of the packs, if known.
    pub size: Option<u64>,
    /// Workshop item id; a local mod has none.
    pub steam_id: Option<String>,
    /// Preview image, if any.
    pub png: Option<String>,
    /// From the local mods rather than the Workshop.
    pub local: bool,
    /// Workshop category, for display only.
    pub category: String,
    /// Workshop description, for display only.
    pub short: String,
    /// The folder is gone or has no packs.
    pub missing: bool,
}

/// What is known of a mod.
#[verifier::ext_equal]
pub struct ModView {
    pub dir: Seq<char>,
    pub id: Seq<char>,
    pub name: Seq<char>,
    pub packs: Seq<Seq<char>>,
    pub size: Option<u64>,
    pub steam_id: Option<Seq<char>>,
    pub png: Option<Seq<char>>,
    pub local: bool,
    pub category: Seq<char>,
    pub short: Seq<char>,
    pub missing: bool,
}

impl View for ModEntry {
    type V = ModView;

    open spec fn view(&self) -> ModView {
        ModView {
            dir: self.dir@,
            id: self.id@,
            name: self.name@,
            packs: texts(self.packs@),
            size: self.size,
            steam_id: opt_text(self.steam_id),
            png: opt_text(self.png),
            local: self.local,
            category: self.category@,
            short: self.short@,
            missing: self.missing,
        }
    }
}

/// What is known of the mods of a pool.
pub open spec fn mod_views(v: Seq<ModEntry>) -> Seq<ModView> {
    v.map_values(|m: ModEntry| m@)
}

/// A file found below a mod's folder.
pub struct FoundFile {
    /// The path below the folder.
    pub rel: String,
    /// The whole path.
    pub abs: String,
    /// The size in bytes, if it could be read.
    pub size: Option<u64>,
}

/// A folder that may hold a mod, and what was found in it.
pub struct FoundDir {
    pub dir: String,
    pub files: Vec<FoundFile>,
    /// A preview image, if there is one.
    pub png: Option<String>,
}

/// The paths sort by their parts: a slash counts as less than any character of
/// a name.
pub open spec fn path_key(p: Seq<char>) -> Seq<char> {
    p.map_values(
        |c: char|
            if c == '/' {
                '\0'
            } else {
                c
            },
    )
}

/// Texts sorted by the keys that go with them.
pub open spec fn sorted_by_text<T>(v: Seq<T>, keys: Seq<Seq<char>>) -> Seq<T> {
    picked(v, sorted_indices(keys, |a: Seq<char>, b: Seq<char>| text_before(a, b)))
}

/// The packs among the files, in the order found.
pub open spec fn pack_files(files: Seq<FoundFile>) -> Seq<FoundFile>
    decreases files.len(),
{
    if files.len() == 0 {
        Seq::empty()
    } else if has_extension(files.last().abs@, "pack"@) {
        pack_files(files.drop_last()).push(files.last())
    } else {
        pack_files(files.drop_last())
    }
}

/// The paths of the files.
pub open spec fn abs_paths(files: Seq<FoundFile>) -> Seq<Seq<char>> {
    files.map_values(|f: FoundFile| f.abs@)
}

/// The paths in the order of their parts.
pub open spec fn sorted_paths(p: Seq<Seq<char>>) -> Seq<Seq<char>> {
    sorted_by_text(p, p.map_values(|q: Seq<char>| path_key(q)))
}

/// The paths of the packs among the files, sorted.
pub open spec fn packs_of(files: Seq<FoundFile>) -> Seq<Seq<char>> {
    sorted_paths(abs_paths(pack_files(files)))
}

/// The combined size of the packs among the files, as far as it is known.
pub open spec fn pack_bytes(files: Seq<FoundFile>) -> nat
    decreases files.len(),
{
    if files.len() == 0 {
        0
    } else {
        pack_bytes(files.drop_last()) + (match files.last().size {
            Some(n) => if has_extension(files.last().abs@, "pack"@) {
                n as nat
            } else {
                0
            },
            None => 0,
        })
    }
}

/// The key by which a path sorts.
fn sort_key_of_path(p: &str) -> (r: String)
    ensures
        r@ == path_key(p@),
{
    let v = to_chars(p);
    let mut s: String = String::new();
    let mut i: usize = 0;
    assert(s@ =~= path_key(v@).take(0));
    while i < v.len()
        invariant
            i <= v@.len(),
            s@ == path_key(v@).take(i as int),
        decreases v@.len() - i,
    {
        let c = if v[i] == '/' {
            '\0'
        } else {
            v[i]
        };
        s.push(c);
        i = i + 1;
        assert(path_key(v@).take(i as int) =~= path_key(v@).take(i - 1).push(c));
    }
    assert(path_key(v@).take(i as int) =~= path_key(v@));
    s
}

/// The paths of the packs among the files found below a folder, sorted.
pub fn packs_in(files: &Vec<FoundFile>) -> (r: Vec<String>)
    ensures
        texts(r@) == packs_of(files@),
{
    let mut packs: Vec<String> = Vec::new();
    let mut keys: Vec<String> = Vec::new();
    let mut i: usize = 0;
    assert(files@.take(0) =~= Seq::<FoundFile>::empty());
    assert(texts(packs@) =~= abs_paths(pack_files(files@.take(0))));
    assert(texts(keys@) =~= texts(packs@).map_values(|q: Seq<char>| path_key(q)));
    while i < files.len()
        invariant
            i <= files@.len(),
            texts(packs@) == abs_paths(pack_files(files@.take(i as int))),
            texts(keys@) == texts(packs@).map_values(|q: Seq<char>| path_key(q)),
        decreases files@.len() - i,
    {
        proof {
            assert(files@.take(i + 1).drop_last() =~= files@.take(i as int));
            assert(files@.take(i + 1).last() == files@[i as int]);
        }
        if extension_is(files[i].abs.as_str(), "pack") {
            let ghost p0 = packs@;
            let ghost k0 = keys@;
            keys.push(sort_key_of_path(files[i].abs.as_str()));
            packs.push(files[i].abs.clone());
            proof {
                let f0 = pack_files(files@.take(i as int));
                assert(texts(packs@) =~= texts(p0).push(files@[i as int].abs@));
                assert(abs_paths(f0.push(files@[i as int])) =~= abs_paths(f0).push(
                    files@[i as int].abs@,
                ));
                assert(texts(keys@) =~= texts(k0).push(path_key(files@[i as int].abs@)));
                assert(texts(keys@) =~= texts(packs@).map_values(|q: Seq<char>| path_key(q)));
            }
        }
        i = i + 1;
    }
    assert(files@.take(i as int) =~= files@);
    sort_texts(packs, keys)
}

/// Texts sorted by the keys that go with them; equal keys keep their order.
pub fn sort_texts(v: Vec<String>, keys: Vec<String>) -> (r: Vec<String>)
    requires
        v@.len() == keys@.len(),
    ensures
        texts(r@) == sorted_by_text(texts(v@), texts(keys@)),
        r@.len() == v@.len(),
{
    let ghost v0 = v@;
    let ghost k0 = keys@;
    proof {
        assert(models(k0) =~= texts(k0));
        <String as SortKey>::order_is_strict_weak();
        crate::order::sorted_indices_are_a_permutation(texts(k0), <String as SortKey>::order());
    }
    let r = sort_by_keys(v, keys);
    proof {
        let ord = sorted_indices(texts(k0), <String as SortKey>::order());
        assert(r@ == picked(v0, ord));
        assert(texts(r@) =~= picked(texts(v0), ord));
    }
    r
}

/// The first path with a `.png` extension.
pub open spec fn first_png(paths: Seq<Seq<char>>) -> Option<Seq<char>> {
    first_with_extension(paths, "png"@)
}

/// The first path with the given extension.
pub open spec fn first_with_extension(paths: Seq<Seq<char>>, ext: Seq<char>) -> Option<Seq<char>>
    decreases paths.len(),
{
    if paths.len() == 0 {
        None
    } else if has_extension(paths[0], ext) {
        Some(paths[0])
    } else {
        first_with_extension(paths.drop_first(), ext)
    }
}

/// The first path with the given extension.
pub fn find_with_extension(paths: &Vec<String>, ext: &str) -> (r: Option<String>)
    ensures
        opt_text(r) == first_with_extension(texts(paths@), ext@),
{
    let ghost all = texts(paths@);
    let mut i: usize = 0;
    assert(all.skip(0) =~= all);
    while i < paths.len()
        invariant
            i <= paths@.len(),
            all == texts(paths@),
            first_with_extension(all, ext@) == first_with_extension(all.skip(i as int), ext@),
        decreases paths@.len() - i,
    {
        assert(all.skip(i as int)[0] == paths@[i as int]@);
        assert(all.skip(i as int).drop_first() =~= all.skip(i + 1));
        if extension_is(paths[i].as_str(), ext) {
            return Some(paths[i].clone());
        }
        i = i + 1;
    }
    None
}

/// A preview image among the files of a folder.
pub fn find_png(paths: &Vec<String>) -> (r: Option<String>)
    ensures
        opt_text(r) == first_png(texts(paths@)),
{
    find_with_extension(paths, "png")
}

/// The last part of a path, or `?`.
pub open spec fn name_or_unknown(p: Seq<char>) -> Seq<char> {
    match name_of(p) {
        Some(n) => n,
        None => "?"@,
    }
}

/// The last part of a path, or `?`.
pub fn file_name_or_unknown(p: &str) -> (r: String)
    ensures
        r@ == name_or_unknown(p@),
{
    match file_name(p) {
        Some(n) => n,
        None => "?".to_owned(),
    }
}

/// The mod in a folder, if the folder holds a pack.
pub open spec fn mod_from(
    d: FoundDir,
    steam_id: Option<Seq<char>>,
    name: Seq<char>,
    local: bool,
) -> Option<ModView> {
    if pack_files(d.files@).len() == 0 {
        None
    } else {
        Some(
            ModView {
                dir: d.dir@,
                id: match steam_id {
                    Some(s) => s,
                    None => name_or_unknown(d.dir@),
                },
                name,
                packs: packs_of(d.files@),
                size: Some(pack_bytes(d.files@) as u64),
                steam_id,
                png: opt_text(d.png),
                local,
                category: Seq::empty(),
                short: Seq::empty(),
                missing: false,
            },
        )
    }
}

/// A mod that may not be there.
pub open spec fn opt_mod(m: Option<ModEntry>) -> Option<ModView> {
    match m {
        Some(e) => Some(e@),
        None => None,
    }
}

/// An optional text once more.
pub fn copy_opt(o: &Option<String>) -> (r: Option<String>)
    ensures
        opt_text(r) == opt_text(*o),
{
    match o {
        Some(s) => Some(s.clone()),
        None => None,
    }
}

/// The combined size of the packs among the files.
fn packs_size(files: &Vec<FoundFile>) -> (r: u64)
    requires
        pack_bytes(files@) <= u64::MAX,
    ensures
        r == pack_bytes(files@),
{
    let mut n: u64 = 0;
    let mut i: usize = 0;
    assert(files@.take(0) =~= Seq::<FoundFile>::empty());
    while i < files.len()
        invariant
            i <= files@.len(),
            pack_bytes(files@) <= u64::MAX,
            n == pack_bytes(files@.take(i as int)),
        decreases files@.len() - i,
    {
        proof {
            assert(files@.take(i + 1).drop_last() =~= files@.take(i as int));
            assert(files@.take(i + 1).last() == files@[i as int]);
            lemma_pack_bytes_grow(files@, i + 1);
        }
        match files[i].size {
            Some(k) => if extension_is(files[i].abs.as_str(), "pack") {
                n = n + k;
            },
            None => {},
        }
        i = i + 1;
    }
    assert(files@.take(i as int) =~= files@);
    n
}

proof fn lemma_pack_bytes_grow(files: Seq<FoundFile>, n: int)
    requires
        0 <= n <= files.len(),
    ensures
        pack_bytes(files.take(n)) <= pack_bytes(files),
    decreases files.len() - n,
{
    if n < files.len() {
        lemma_pack_bytes_grow(files, n + 1);
        assert(files.take(n + 1).drop_last() =~= files.take(n));
    } else {
        assert(files.take(n) =~= files);
    }
}

impl ModEntry {
    /// The mod in a folder. A `steam_id` marks a Workshop mod. A folder
    /// without packs holds no mod.
    pub fn from_dir(d: &FoundDir, steam_id: Option<String>, name: String, local: bool) -> (r: Option<
        ModEntry,
    >)
        requires
            pack_bytes(d.files@) <= u64::MAX,
        ensures
            opt_mod(r) == mod_from(*d, opt_text(steam_id), name@, local),
    {
        let packs = packs_in(&d.files);
        proof {
            lemma_packs_count(d.files@);
            assert(texts(packs@).len() == packs@.len());
        }
        if packs.len() == 0 {
            return None;
        }
        let size = packs_size(&d.files);
        let id = match &steam_id {
            Some(s) => s.clone(),
            None => file_name_or_unknown(d.dir.as_str()),
        };
        let e = ModEntry {
            dir: d.dir.clone(),
            id,
            name,
            packs,
            size: Some(size),
            steam_id,
            png: copy_opt(&d.png),
            local,
            category: String::new(),
            short: String::new(),
            missing: false,
        };
        assert(e.category@ =~= Seq::<char>::empty());
        assert(e.short@ =~= Seq::<char>::empty());
        Some(e)
    }

    pub fn id(&self) -> (r: &str)
        ensures
            r@ == self@.id,
    {
        self.id.as_str()
    }

    pub fn name(&self) -> (r: &str)
        ensures
            r@ == self@.name,
    {
        self.name.as_str()
    }

    /// The category, or a dash.
    pub fn category(&self) -> (r: &str)
        ensures
            r@ == (if self@.category.len() == 0 {
                "-"@
            } else {
                self@.category
            }),
    {
        if self.category.as_str().is_empty() {
            "-"
        } else {
            self.category.as_str()
        }
    }

    /// The description with its `[tags]` stripped.
    pub fn description(&self) -> (r: String)
        ensures
            r@ == untagged(self@.short).0,
    {
        let v = to_chars(self.short.as_str());
        let mut out: String = String::new();
        let mut in_tag: bool = false;
        let mut i: usize = 0;
        assert(v@.take(0) =~= Seq::<char>::empty());
        while i < v.len()
            invariant
                i <= v@.len(),
                untagged(v@.take(i as int)) == (out@, in_tag),
            decreases v@.len() - i,
        {
            assert(v@.take(i + 1).drop_last() =~= v@.take(i as int));
            let c = v[i];
            if c == '[' {
                in_tag = true;
            } else if c == ']' {
                in_tag = false;
            } else if c != '\r' && !in_tag {
                out.push(c);
            }
            i = i + 1;
        }
        assert(v@.take(i as int) =~= v@);
        out
    }
}

/// A text without carriage returns and without what stands in square brackets,
/// and whether a bracket is still open at its end.
pub open spec fn untagged(s: Seq<char>) -> (Seq<char>, bool)
    decreases s.len(),
{
    if s.len() == 0 {
        (Seq::empty(), false)
    } else {
        let (out, in_tag) = untagged(s.drop_last());
        let c = s.last();
        if c == '[' {
            (out, true)
        } else if c == ']' {
            (out, false)
        } else if c != '\r' && !in_tag {
            (out.push(c), in_tag)
        } else {
            (out, in_tag)
        }
    }
}

proof fn lemma_packs_count(files: Seq<FoundFile>)
    ensures
        packs_of(files).len() == pack_files(files).len(),
{
    let p = abs_paths(pack_files(files));
    let keys = p.map_values(|q: Seq<char>| path_key(q));
    <String as SortKey>::order_is_strict_weak();
    crate::order::sorted_indices_are_a_permutation(keys, <String as SortKey>::order());
}

/// The item id that a Workshop folder's name gives.
pub open spec fn item_id(dir: Seq<char>) -> Option<Seq<char>> {
    match name_of(dir) {
        Some(n) => if n.len() > 0 && all_digits(n) {
            Some(n)
        } else {
            None
        },
        None => None,
    }
}

/// The launcher's record of the first of the packs that it knows.
pub open spec fn first_meta(meta: Map<Seq<char>, MetaView>, packs: Seq<Seq<char>>) -> Option<
    MetaView,
>
    decreases packs.len(),
{
    if packs.len() == 0 {
        None
    } else {
        match name_of(packs[0]) {
            Some(n) => if meta.contains_key(lowercase(n)) {
                Some(meta[lowercase(n)])
            } else {
                first_meta(meta, packs.drop_first())
            },
            None => first_meta(meta, packs.drop_first()),
        }
    }
}

/// The file name of the first pack without its extension, or `?`.
pub open spec fn pack_title(packs: Seq<Seq<char>>) -> Seq<char> {
    match stem_of(packs[0]) {
        Some(s) => s,
        None => "?"@,
    }
}

/// The Workshop mod in a folder: named, categorised and described as the
/// launcher recorded it, or else named after its first pack.
pub open spec fn workshop_mod(meta: Map<Seq<char>, MetaView>, d: FoundDir) -> Option<ModView> {
    let packs = packs_of(d.files@);
    let m = first_meta(meta, packs);
    let name = match m {
        Some(x) => if x.name.len() > 0 {
            x.name
        } else {
            pack_title(packs)
        },
        None => pack_title(packs),
    };
    match mod_from(d, item_id(d.dir@), name, false) {
        Some(e) => Some(
            match m {
                Some(x) => ModView { category: x.category, short: x.short, ..e },
                None => e,
            },
        ),
        None => None,
    }
}

/// The local mod in a folder, named after the folder.
pub open spec fn local_mod(d: FoundDir) -> Option<ModView> {
    mod_from(d, None, name_or_unknown(d.dir@), true)
}

/// The Workshop mods in the folders.
pub open spec fn workshop_mods(meta: Map<Seq<char>, MetaView>, dirs: Seq<FoundDir>) -> Seq<ModView>
    decreases dirs.len(),
{
    if dirs.len() == 0 {
        Seq::empty()
    } else {
        match workshop_mod(meta, dirs.last()) {
            Some(m) => workshop_mods(meta, dirs.drop_last()).push(m),
            None => workshop_mods(meta, dirs.drop_last()),
        }
    }
}

/// The local mods in the folders.
pub open spec fn local_mods(dirs: Seq<FoundDir>) -> Seq<ModView>
    decreases dirs.len(),
{
    if dirs.len() == 0 {
        Seq::empty()
    } else {
        match local_mod(dirs.last()) {
            Some(m) => local_mods(dirs.drop_last()).push(m),
            None => local_mods(dirs.drop_last()),
        }
    }
}

/// The mods sorted by name, whatever the case.
pub open spec fn sorted_by_name(mods: Seq<ModView>) -> Seq<ModView> {
    sorted_by_text(mods, mods.map_values(|m: ModView| lowercase(m.name)))
}

/// The sizes of the packs in the folders can be added up.
pub open spec fn sizes_fit(dirs: Seq<FoundDir>) -> bool {
    forall|i: int| 0 <= i < dirs.len() ==> pack_bytes((#[trigger] dirs[i]).files@) <= u64::MAX
}

/// The launcher's record of the first of the packs that it knows.
fn find_meta<'a>(meta: &'a StrMap<ModMeta>, packs: &Vec<String>) -> (r: Option<&'a ModMeta>)
    ensures
        match r {
            Some(m) => first_meta(meta_views(meta@), texts(packs@)) == Some(m@),
            None => first_meta(meta_views(meta@), texts(packs@)) is None,
        },
{
    let ghost all = texts(packs@);
    let ghost mv = meta_views(meta@);
    let mut i: usize = 0;
    assert(all.skip(0) =~= all);
    while i < packs.len()
        invariant
            i <= packs@.len(),
            all == texts(packs@),
            mv == meta_views(meta@),
            first_meta(mv, all) == first_meta(mv, all.skip(i as int)),
        decreases packs@.len() - i,
    {
        assert(all.skip(i as int)[0] == packs@[i as int]@);
        assert(all.skip(i as int).drop_first() =~= all.skip(i + 1));
        match file_name(packs[i].as_str()) {
            Some(n) => match meta.get(to_lowercase(n.as_str()).as_str()) {
                Some(m) => {
                    return Some(m);
                },
                None => {},
            },
            None => {},
        }
        i = i + 1;
    }
    None
}

/// The Workshop mod in a folder.
pub fn workshop_entry(meta: &StrMap<ModMeta>, d: &FoundDir) -> (r: Option<ModEntry>)
    requires
        pack_bytes(d.files@) <= u64::MAX,
    ensures
        opt_mod(r) == workshop_mod(meta_views(meta@), *d),
{
    let packs = packs_in(&d.files);
    proof {
        lemma_packs_count(d.files@);
        assert(texts(packs@).len() == packs@.len());
    }
    if packs.len() == 0 {
        return None;
    }
    let steam_id = match file_name(d.dir.as_str()) {
        Some(n) => if !n.as_str().is_empty() && is_all_digits(n.as_str()) {
            Some(n)
        } else {
            None
        },
        None => None,
    };
    let m = find_meta(meta, &packs);
    assert(texts(packs@)[0] == packs@[0]@);
    let title = match file_stem(packs[0].as_str()) {
        Some(s) => s,
        None => "?".to_owned(),
    };
    let name = match m {
        Some(x) => if x.name.as_str().is_empty() {
            title
        } else {
            x.name.clone()
        },
        None => title,
    };
    match ModEntry::from_dir(d, steam_id, name, false) {
        Some(e) => {
            let mut e = e;
            match m {
                Some(x) => {
                    e.category = x.category.clone();
                    e.short = x.short.clone();
                },
                None => {},
            }
            Some(e)
        },
        None => None,
    }
}

/// The local mod in a folder.
pub fn local_entry(d: &FoundDir) -> (r: Option<ModEntry>)
    requires
        pack_bytes(d.files@) <= u64::MAX,
    ensures
        opt_mod(r) == local_mod(*d),
{
    let name = file_name_or_unknown(d.dir.as_str());
    ModEntry::from_dir(d, None, name, true)
}

/// The mod pool: every Workshop folder and every local folder that holds at
/// least one pack, sorted by name.
pub fn discover_mods(meta: &StrMap<ModMeta>, workshop: &Vec<FoundDir>, local: &Vec<FoundDir>) -> (r:
    Vec<ModEntry>)
    requires
        sizes_fit(workshop@),
        sizes_fit(local@),
    ensures
        mod_views(r@) == pool_of(meta_views(meta@), workshop@, local@),
        mod_views(r@) == sorted_by_name(
            workshop_mods(meta_views(meta@), workshop@) + local_mods(local@),
        ),
{
    let ghost mv = meta_views(meta@);
    let mut pool: Vec<ModEntry> = Vec::new();
    let mut i: usize = 0;
    assert(workshop@.take(0) =~= Seq::<FoundDir>::empty());
    assert(mod_views(pool@) =~= workshop_mods(mv, workshop@.take(0)));
    while i < workshop.len()
        invariant
            i <= workshop@.len(),
            sizes_fit(workshop@),
            mv == meta_views(meta@),
            mod_views(pool@) == workshop_mods(mv, workshop@.take(i as int)),
        decreases workshop@.len() - i,
    {
        assert(workshop@.take(i + 1).drop_last() =~= workshop@.take(i as int));
        match workshop_entry(meta, &workshop[i]) {
            Some(e) => {
                let ghost p0 = pool@;
                pool.push(e);
                assert(mod_views(pool@) =~= mod_views(p0).push(e@));
            },
            None => {},
        }
        i = i + 1;
    }
    assert(workshop@.take(i as int) =~= workshop@);
    let ghost w = mod_views(pool@);
    let mut k: usize = 0;
    assert(local@.take(0) =~= Seq::<FoundDir>::empty());
    assert(mod_views(pool@) =~= w + local_mods(local@.take(0)));
    while k < local.len()
        invariant
            k <= local@.len(),
            sizes_fit(local@),
            mod_views(pool@) == w + local_mods(local@.take(k as int)),
        decreases local@.len() - k,
    {
        assert(local@.take(k + 1).drop_last() =~= local@.take(k as int));
        match local_entry(&local[k]) {
            Some(e) => {
                let ghost p0 = pool@;
                pool.push(e);
                assert(mod_views(pool@) =~= mod_views(p0).push(e@));
                assert(mod_views(pool@) =~= w + local_mods(local@.take(k + 1)));
            },
            None => {},
        }
        k = k + 1;
    }
    assert(local@.take(k as int) =~= local@);
    let ghost found = mod_views(pool@);
    let mut keys: Vec<String> = Vec::new();
    let mut n: usize = 0;
    while n < pool.len()
        invariant
            n <= pool@.len(),
            found == mod_views(pool@),
            texts(keys@) == found.map_values(|m: ModView| lowercase(m.name)).take(n as int),
        decreases pool@.len() - n,
    {
        let ghost k0 = keys@;
        let key = to_lowercase(pool[n].name());
        keys.push(key);
        n = n + 1;
        proof {
            let lows = found.map_values(|m: ModView| lowercase(m.name));
            assert(texts(keys@) =~= texts(k0).push(key@));
            assert(lows.take(n as int) =~= lows.take(n - 1).push(lows[n - 1]));
        }
    }
    let ghost lows = found.map_values(|m: ModView| lowercase(m.name));
    proof {
        assert(lows.take(n as int) =~= lows);
        assert(texts(keys@).len() == keys@.len());
        assert(models(keys@) =~= lows);
        <String as SortKey>::order_is_strict_weak();
        crate::order::sorted_indices_are_a_permutation(lows, <String as SortKey>::order());
    }
    let r = sort_by_keys(pool, keys);
    proof {
        let ord = sorted_indices(lows, <String as SortKey>::order());
        assert(mod_views(r@) =~= picked(found, ord));
    }
    r
}

/// One selectable version of a Workshop mod.
pub struct VersionInfo {
    pub manifest: String,
    pub timeupdated: u64,
    pub size: u64,
    /// A copy is in the version store, so it can be pinned.
    pub stored: bool,
    /// It is the version that Steam has installed now.
    pub current: bool,
}

/// What is known of a selectable version.
pub struct VersionView {
    pub manifest: Seq<char>,
    pub timeupdated: u64,
    pub size: u64,
    pub stored: bool,
    pub current: bool,
}

impl View for VersionInfo {
    type V = VersionView;

    open spec fn view(&self) -> VersionView {
        VersionView {
            manifest: self.manifest@,
            timeupdated: self.timeupdated,
            size: self.size,
            stored: self.stored,
            current: self.current,
        }
    }
}

/// What is known of the versions.
pub open spec fn version_views(v: Seq<VersionInfo>) -> Seq<VersionView> {
    v.map_values(|x: VersionInfo| x@)
}

/// One position in the load order: a mod id, resolved to the pool where
/// possible. Without an index the mod is not installed at all.
pub struct Slot {
    pub id: String,
    pub idx: Option<usize>,
    /// Disabled slots keep their spot but are skipped at launch.
    pub enabled: bool,
    /// Ids of other mods that this one requires.
    pub requires: Vec<String>,
}

/// What a slot holds.
#[verifier::ext_equal]
pub struct SlotView {
    pub id: Seq<char>,
    pub idx: Option<usize>,
    pub enabled: bool,
    pub requires: Seq<Seq<char>>,
}

impl View for Slot {
    type V = SlotView;

    open spec fn view(&self) -> SlotView {
        SlotView {
            id: self.id@,
            idx: self.idx,
            enabled: self.enabled,
            requires: texts(self.requires@),
        }
    }
}

impl SlotView {
    /// The slot's mod is the one at position `i` of the pool.
    pub open spec fn is_mod(self, i: int) -> bool {
        self.idx matches Some(j) && j == i
    }

    /// The slot's mod, if it is known, is in a pool of `n` mods.
    pub open spec fn is_below(self, n: nat) -> bool {
        self.idx matches Some(i) ==> i < n
    }
}

/// What the slots hold.
pub open spec fn slot_views(v: Seq<Slot>) -> Seq<SlotView> {
    v.map_values(|s: Slot| s@)
}

/// A line of the preview of a profile.
pub struct PreviewLine {
    pub label: String,
    pub missing: bool,
    pub updated: bool,
}

/// What a line of the preview says.
pub struct PreviewView {
    pub label: Seq<char>,
    pub missing: bool,
    pub updated: bool,
}

impl View for PreviewLine {
    type V = PreviewView;

    open spec fn view(&self) -> PreviewView {
        PreviewView { label: self.label@, missing: self.missing, updated: self.updated }
    }
}

/// What the lines of the preview say.
pub open spec fn preview_views(v: Seq<PreviewLine>) -> Seq<PreviewView> {
    v.map_values(|l: PreviewLine| l@)
}

/// A profile entry as stored on disk. `id` is the item id of a Workshop mod or
/// the folder name of a local one; Workshop entries also pin a version.
pub struct MlEntry {
    pub id: String,
    pub local: bool,
    pub enabled: bool,
    pub requires: Vec<String>,
    pub steam_id: Option<String>,
    pub manifest: Option<String>,
    pub sha256: Option<String>,
}

/// What a profile entry says.
#[verifier::ext_equal]
pub struct MlView {
    pub id: Seq<char>,
    pub local: bool,
    pub enabled: bool,
    pub requires: Seq<Seq<char>>,
    pub steam_id: Option<Seq<char>>,
    pub manifest: Option<Seq<char>>,
    pub sha256: Option<Seq<char>>,
}

impl View for MlEntry {
    type V = MlView;

    open spec fn view(&self) -> MlView {
        MlView {
            id: self.id@,
            local: self.local,
            enabled: self.enabled,
            requires: texts(self.requires@),
            steam_id: opt_text(self.steam_id),
            manifest: opt_text(self.manifest),
            sha256: opt_text(self.sha256),
        }
    }
}

/// What the profile entries say.
pub open spec fn ml_views(v: Seq<MlEntry>) -> Seq<MlView> {
    v.map_values(|e: MlEntry| e@)
}

/// The mod that a stored profile entry names: by `id`, else by `steam_id`,
/// else by `uuid`, as older profiles do.
pub open spec fn entry_id(e: JsonView) -> Option<Seq<char>> {
    match e.text_at("id"@) {
        Some(s) => Some(s),
        None => match e.text_at("steam_id"@) {
            Some(s) => Some(s),
            None => e.text_at("uuid"@),
        },
    }
}

/// The mod that a stored profile entry names.
pub fn ml_entry_id(e: &Json) -> (r: Option<String>)
    ensures
        opt_text(r) == entry_id(e@),
{
    match e.str_at("id") {
        Some(s) => Some(s),
        None => match e.str_at("steam_id") {
            Some(s) => Some(s),
            None => e.str_at("uuid"),
        },
    }
}

/// Where a resolved mod's files load from at launch.
#[derive(Clone, Copy, PartialEq, Eq, Structural)]
pub enum PackSource {
    /// The current Workshop version, served from the version store.
    Vault,
    /// The pinned Workshop version from the store: Steam moved past it, or the mod
    /// is not installed.
    Pinned,
    /// A local mod, loaded from its folder.
    Local,
    /// A Workshop mod of unknown version, loaded from the Workshop folder.
    Workshop,
}

impl PackSource {
    pub open spec fn text(self) -> Seq<char> {
        match self {
            PackSource::Vault => "versioned"@,
            PackSource::Pinned => "versioned (pinned)"@,
            PackSource::Local => "local"@,
            PackSource::Workshop => "workshop (live)"@,
        }
    }

    pub fn label(self) -> (r: &'static str)
        ensures
            r@ == self.text(),
    {
        match self {
            PackSource::Vault => "versioned",
            PackSource::Pinned => "versioned (pinned)",
            PackSource::Local => "local",
            PackSource::Workshop => "workshop (live)",
        }
    }
}

/// The elements whose key does not come again: the last one for each key, in
/// their order.
pub open spec fn keep_last<T, K>(v: Seq<T>, keys: Seq<K>) -> Seq<T>
    decreases v.len(),
{
    if v.len() == 0 {
        Seq::empty()
    } else if keys.drop_first().contains(keys[0]) {
        keep_last(v.drop_first(), keys.drop_first())
    } else {
        seq![v[0]] + keep_last(v.drop_first(), keys.drop_first())
    }
}

/// A key by which elements are told apart.
pub trait Key: Sized {
    type M;

    /// What the key stands for.
    spec fn stands_for(self) -> Self::M;

    /// Whether this key and `other` stand for the same.
    fn same_as(&self, other: &Self) -> (r: bool)
        ensures
            r == (self.stands_for() == other.stands_for()),
    ;
}

impl Key for String {
    type M = Seq<char>;

    open spec fn stands_for(self) -> Seq<char> {
        self@
    }

    fn same_as(&self, other: &String) -> (r: bool) {
        same(self.as_str(), other.as_str())
    }
}

impl Key for u64 {
    type M = u64;

    open spec fn stands_for(self) -> u64 {
        self
    }

    fn same_as(&self, other: &u64) -> (r: bool) {
        *self == *other
    }
}

/// What the keys stand for.
pub open spec fn key_models<K: Key>(keys: Seq<K>) -> Seq<K::M> {
    keys.map_values(|k: K| k.stands_for())
}

/// `k` is a key of `x`.
pub open spec fn is_key<T, K: Key, F: Fn(&T) -> K>(x: T, key: F, k: K::M) -> bool {
    exists|s: K| #[trigger] call_ensures(key, (&x,), s) && s.stands_for() == k
}

/// The key of each element.
pub open spec fn are_keys<T, K: Key, F: Fn(&T) -> K>(v: Seq<T>, key: F, keys: Seq<K::M>) -> bool {
    &&& keys.len() == v.len()
    &&& forall|i: int| 0 <= i < v.len() ==> #[trigger] is_key(v[i], key, keys[i])
}

/// Whether a key is among others from position `from` on.
fn listed_from<K: Key>(keys: &Vec<K>, from: usize, key: &K) -> (r: bool)
    requires
        from <= keys@.len(),
    ensures
        r == key_models(keys@).skip(from as int).contains(key.stands_for()),
{
    let ghost rest = key_models(keys@).skip(from as int);
    let mut i: usize = from;
    while i < keys.len()
        invariant
            from <= i <= keys@.len(),
            rest == key_models(keys@).skip(from as int),
            forall|j: int| 0 <= j < i - from ==> rest[j] != key.stands_for(),
        decreases keys@.len() - i,
    {
        if keys[i].same_as(key) {
            assert(rest[i - from] == key.stands_for());
            return true;
        }
        i = i + 1;
    }
    false
}

/// Keep the last element for each key, in order: a later mod's file or pack
/// wins over an earlier one's.
pub fn dedup_last<T, K: Key, F: Fn(&T) -> K>(v: Vec<T>, key: F) -> (r: Vec<T>)
    requires
        forall|i: int| 0 <= i < v@.len() ==> call_requires(key, (&#[trigger] v@[i],)),
    ensures
        exists|keys: Seq<K::M>| #[trigger]
            are_keys(v@, key, keys) && r@ == keep_last(v@, keys),
{
    let mut keys: Vec<K> = Vec::new();
    let mut i: usize = 0;
    while i < v.len()
        invariant
            i <= v@.len(),
            keys@.len() == i,
            forall|j: int| 0 <= j < v@.len() ==> call_requires(key, (&#[trigger] v@[j],)),
            forall|j: int|
                0 <= j < i ==> call_ensures(key, (&#[trigger] v@[j],), keys@[j]),
        decreases v@.len() - i,
    {
        let k = key(&v[i]);
        keys.push(k);
        i = i + 1;
    }
    let ghost v0 = v@;
    let ghost ks = key_models(keys@);
    proof {
        assert(ks.len() == v0.len());
        assert forall|j: int| 0 <= j < v0.len() implies #[trigger] is_key(v0[j], key, ks[j]) by {
            assert(call_ensures(key, (&v0[j],), keys@[j]));
        }
        assert(are_keys(v0, key, ks));
    }
    let mut v = v;
    let mut out: Vec<T> = Vec::new();
    assert(v0.take(v0.len() as int) =~= v0);
    assert(v0.skip(v0.len() as int) =~= Seq::<T>::empty());
    assert(out@ =~= keep_last(v0.skip(v0.len() as int), ks.skip(v0.len() as int)));
    while v.len() > 0
        invariant
            v@.len() <= v0.len() == ks.len(),
            v@ == v0.take(v@.len() as int),
            ks == key_models(keys@),
            out@ == keep_last(v0.skip(v@.len() as int), ks.skip(v@.len() as int)),
        decreases v@.len(),
    {
        let item = v.pop().unwrap();
        let n: usize = v.len();
        proof {
            assert(v@ =~= v0.take(n as int));
            assert(item == v0[n as int]);
            let a = v0.skip(n as int);
            let b = ks.skip(n as int);
            assert(a.drop_first() =~= v0.skip(n + 1));
            assert(b.drop_first() =~= ks.skip(n + 1));
        }
        if !listed_from(&keys, n + 1, &keys[n]) {
            let ghost o0 = out@;
            out.insert(0, item);
            assert(out@ =~= seq![item] + o0);
        }
    }
    proof {
        assert(v0.skip(0) =~= v0);
        assert(ks.skip(0) =~= ks);
    }
    out
}

/// The last element of each key stays, and nothing else: every key is kept,
/// once, with its last element.
pub proof fn keep_last_keeps_each_key_once<T, K>(v: Seq<T>, keys: Seq<K>)
    requires
        v.len() == keys.len(),
    ensures
        keep_last(keys, keys).no_duplicates(),
        keep_last(keys, keys).to_set() == keys.to_set(),
        forall|x: T| keep_last(v, keys).contains(x) <==> exists|i: int|
            0 <= i < v.len() && v[i] == x && !(#[trigger] keys.skip(i + 1)).contains(keys[i]),
    decreases v.len(),
{
    if v.len() > 0 {
        let (v1, k1) = (v.drop_first(), keys.drop_first());
        keep_last_keeps_each_key_once(v1, k1);
        let kept = keep_last(keys, keys);
        let kept1 = keep_last(k1, k1);
        assert(keys =~= seq![keys[0]] + k1);
        assert(kept.no_duplicates()) by {
            if !k1.contains(keys[0]) {
                assert(!kept1.contains(keys[0])) by {
                    assert(kept1.to_set().contains(keys[0]) == k1.to_set().contains(keys[0]));
                }
                assert(kept =~= seq![keys[0]] + kept1);
            }
        }
        assert(kept.to_set() =~= keys.to_set()) by {
            assert forall|k: K| kept.contains(k) <==> keys.contains(k) by {
                assert(kept1.to_set().contains(k) == k1.to_set().contains(k));
                if keys.contains(k) {
                    let i = choose|i: int| 0 <= i < keys.len() && keys[i] == k;
                    if i > 0 {
                        assert(k1[i - 1] == k);
                    }
                    if !k1.contains(k) {
                        assert(kept[0] == k);
                    } else if !k1.contains(keys[0]) {
                        let j = choose|j: int| 0 <= j < kept1.len() && kept1[j] == k;
                        assert(kept[j + 1] == k);
                    }
                }
                if kept.contains(k) {
                    let j = choose|j: int| 0 <= j < kept.len() && kept[j] == k;
                    if k1.contains(keys[0]) {
                        assert(kept1.contains(k));
                        let i = choose|i: int| 0 <= i < k1.len() && k1[i] == k;
                        assert(keys[i + 1] == k);
                    } else if j > 0 {
                        assert(kept1[j - 1] == k);
                        let i = choose|i: int| 0 <= i < k1.len() && k1[i] == k;
                        assert(keys[i + 1] == k);
                    } else {
                        assert(keys[0] == k);
                    }
                }
            }
        }
        let r = keep_last(v, keys);
        let r1 = keep_last(v1, k1);
        assert forall|x: T| r.contains(x) <==> exists|i: int|
            0 <= i < v.len() && v[i] == x && !(#[trigger] keys.skip(i + 1)).contains(keys[i]) by {
            assert(keys.skip(1) =~= k1);
            if r.contains(x) {
                let j = choose|j: int| 0 <= j < r.len() && r[j] == x;
                if !k1.contains(keys[0]) && j == 0 {
                    assert(v[0] == x && !keys.skip(0int + 1).contains(keys[0]));
                } else {
                    assert(r1.contains(x)) by {
                        if !k1.contains(keys[0]) {
                            assert(r1[j - 1] == x);
                        }
                    }
                    let i = choose|i: int|
                        0 <= i < v1.len() && v1[i] == x && !(#[trigger] k1.skip(i + 1)).contains(
                            k1[i],
                        );
                    assert(keys.skip(i + 1 + 1) =~= k1.skip(i + 1));
                    assert(v[i + 1] == x && !keys.skip(i + 1 + 1).contains(keys[i + 1]));
                }
            }
            if exists|i: int|
                0 <= i < v.len() && v[i] == x && !(#[trigger] keys.skip(i + 1)).contains(keys[i]) {
                let i = choose|i: int|
                    0 <= i < v.len() && v[i] == x && !(#[trigger] keys.skip(i + 1)).contains(
                        keys[i],
                    );
                if i == 0 {
                    assert(r[0] == x);
                } else {
                    assert(k1.skip(i - 1 + 1) =~= keys.skip(i + 1));
                    assert(v1[i - 1] == x && !k1.skip(i - 1 + 1).contains(k1[i - 1]));
                    assert(r1.contains(x));
                    let j = choose|j: int| 0 <= j < r1.len() && r1[j] == x;
                    if !k1.contains(keys[0]) {
                        assert(r[j + 1] == x);
                    }
                }
            }
        }
    } else {
        assert(keep_last(keys, keys).to_set() =~= keys.to_set());
    }
}

/// The elements that stay are those whose key does not come again, in their
/// order.
pub proof fn kept_elements_are_the_last_of_their_keys<T, K>(v: Seq<T>, keys: Seq<K>)
    requires
        v.len() == keys.len(),
    ensures
        keep_last(v, keys) == Seq::new(v.len(), |i: int| i).filter(
            |i: int| forall|j: int| i < j < v.len() ==> #[trigger] keys[j] != keys[i],
        ).map_values(|i: int| v[i]),
{
    lemma_kept_from(v, keys, 0);
    assert(v.skip(0) =~= v && keys.skip(0) =~= keys);
    let all = Seq::new(v.len(), |i: int| i);
    assert(all.skip(0) =~= all);
}

proof fn lemma_filter_front<T>(v: Seq<T>, p: spec_fn(T) -> bool)
    requires
        v.len() > 0,
    ensures
        v.filter(p) == (if p(v[0]) {
            seq![v[0]] + v.drop_first().filter(p)
        } else {
            v.drop_first().filter(p)
        }),
    decreases v.len(),
{
    reveal(Seq::filter);
    let r = v.drop_first();
    if v.len() == 1 {
        assert(r =~= Seq::<T>::empty());
        assert(v.drop_last() =~= Seq::<T>::empty());
        assert(v.filter(p) =~= if p(v[0]) {
            seq![v[0]] + r.filter(p)
        } else {
            r.filter(p)
        });
    } else {
        lemma_filter_front(v.drop_last(), p);
        assert(v.drop_last().drop_first() =~= r.drop_last());
        let m = r.drop_last().filter(p);
        assert((seq![v[0]] + m).push(v.last()) =~= seq![v[0]] + m.push(v.last()));
    }
}

proof fn lemma_kept_from<T, K>(v: Seq<T>, keys: Seq<K>, n: int)
    requires
        v.len() == keys.len(),
        0 <= n <= v.len(),
    ensures
        keep_last(v.skip(n), keys.skip(n)) == Seq::new(v.len(), |i: int| i).skip(n).filter(
            |i: int| forall|j: int| i < j < v.len() ==> #[trigger] keys[j] != keys[i],
        ).map_values(|i: int| v[i]),
    decreases v.len() - n,
{
    let all = Seq::new(v.len(), |i: int| i);
    let last = |i: int| forall|j: int| i < j < v.len() ==> #[trigger] keys[j] != keys[i];
    let at = |i: int| v[i];
    let (a, b, c) = (v.skip(n), keys.skip(n), all.skip(n));
    if n < v.len() {
        lemma_kept_from(v, keys, n + 1);
        lemma_filter_front(c, last);
        assert(a.drop_first() =~= v.skip(n + 1));
        assert(b.drop_first() =~= keys.skip(n + 1));
        assert(c.drop_first() =~= all.skip(n + 1));
        assert(c[0] == n && a[0] == v[n] && b[0] == keys[n]);
        let rest = c.drop_first().filter(last);
        assert((seq![n] + rest).map_values(at) =~= seq![v[n]] + rest.map_values(at));
        if b.drop_first().contains(b[0]) {
            let j = choose|j: int| 0 <= j < b.drop_first().len() && b.drop_first()[j] == b[0];
            assert(keys[n + 1 + j] == keys[n]);
            assert(!last(n));
        } else {
            assert forall|j: int| n < j < v.len() implies #[trigger] keys[j] != keys[n] by {
                assert(b.drop_first()[j - n - 1] == keys[j]);
            }
            assert(last(n));
        }
    } else {
        reveal(Seq::filter);
        assert(c =~= Seq::<int>::empty());
        assert(keep_last(a, b) =~= c.filter(last).map_values(at));
    }
}

/// A path with its slashes counted as less than any character of a name.
pub open spec fn by_parts(p: Seq<char>) -> Seq<char> {
    Seq::new(
        p.len(),
        |i: int|
            if p[i] == '/' {
                '\0'
            } else {
                p[i]
            },
    )
}

/// The packs of a folder are all files below it with the extension `pack`, each
/// once, sorted by the parts of their paths.
pub proof fn packs_are_all_the_packs(files: Seq<FoundFile>)
    ensures
        ({
            let is_pack = |f: FoundFile| has_extension(f.abs@, "pack"@);
            let r = packs_of(files);
            &&& r.to_multiset() == files.filter(is_pack).map_values(
                |f: FoundFile| f.abs@,
            ).to_multiset()
            &&& r.len() == files.filter(is_pack).len()
            &&& forall|p: Seq<char>| #[trigger]
                r.contains(p) <==> has_extension(p, "pack"@) && exists|i: int|
                    0 <= i < files.len() && (#[trigger] files[i]).abs@ == p
            &&& forall|i: int, j: int, at: int|
                0 <= i < j < r.len() ==> !#[trigger] differs_below(
                    by_parts(r[j]),
                    by_parts(r[i]),
                    at,
                )
        }),
{
    broadcast use group_to_multiset_ensures;

    let is_pack = |f: FoundFile| has_extension(f.abs@, "pack"@);
    let kept = files.filter(is_pack);
    lemma_pack_files(files);
    let v = abs_paths(kept);
    let keys = v.map_values(|q: Seq<char>| path_key(q));
    let before = |a: Seq<char>, b: Seq<char>| text_before(a, b);
    <String as SortKey>::order_is_strict_weak();
    assert(before =~= <String as SortKey>::order());
    sorting_rearranges(v, keys, before);
    let at = sorted_indices(keys, before);
    let r = packs_of(files);
    assert(v =~= kept.map_values(|f: FoundFile| f.abs@));
    assert forall|p: Seq<char>| #[trigger]
        r.contains(p) <==> has_extension(p, "pack"@) && exists|i: int|
            0 <= i < files.len() && (#[trigger] files[i]).abs@ == p by {
        assert(r.contains(p) <==> r.to_multiset().count(p) > 0);
        assert(v.contains(p) <==> v.to_multiset().count(p) > 0);
        if v.contains(p) {
            let k = choose|k: int| 0 <= k < v.len() && v[k] == p;
            files.lemma_filter_pred(is_pack, k);
            files.lemma_filter_contains_rev(is_pack, kept[k]);
            let i = choose|i: int| 0 <= i < files.len() && files[i] == kept[k];
            assert(files[i].abs@ == p);
        }
        if has_extension(p, "pack"@) && exists|i: int|
            0 <= i < files.len() && (#[trigger] files[i]).abs@ == p {
            let i = choose|i: int| 0 <= i < files.len() && (#[trigger] files[i]).abs@ == p;
            files.lemma_filter_contains(is_pack, i);
            let k = choose|k: int| 0 <= k < kept.len() && kept[k] == files[i];
            assert(v[k] == p);
        }
    }
    assert forall|i: int, j: int, d: int| 0 <= i < j < r.len() implies !#[trigger] differs_below(
        by_parts(r[j]),
        by_parts(r[i]),
        d,
    ) by {
        assert(!before(keys[at[j]], keys[at[i]]));
        assert(by_parts(r[j]) =~= path_key(r[j]));
        assert(by_parts(r[i]) =~= path_key(r[i]));
        first_difference_decides(path_key(r[j]), path_key(r[i]));
    }
}

proof fn lemma_pack_files(files: Seq<FoundFile>)
    ensures
        pack_files(files) == files.filter(|f: FoundFile| has_extension(f.abs@, "pack"@)),
    decreases files.len(),
{
    reveal(Seq::filter);
    if files.len() > 0 {
        lemma_pack_files(files.drop_last());
    }
}

/// A folder holds a mod exactly if a pack is in it. The mod has the packs of the
/// folder and their size, and it is known by its item id or else by the name of
/// the folder.
pub proof fn a_folder_with_a_pack_is_a_mod(
    d: FoundDir,
    steam_id: Option<Seq<char>>,
    name: Seq<char>,
    local: bool,
)
    requires
        pack_bytes(d.files@) <= u64::MAX,
    ensures
        mod_from(d, steam_id, name, local) is Some <==> exists|i: int|
            0 <= i < d.files@.len() && has_extension((#[trigger] d.files@[i]).abs@, "pack"@),
        mod_from(d, steam_id, name, local) matches Some(m) ==> {
            &&& m.dir == d.dir@
            &&& m.id == (match steam_id {
                Some(s) => s,
                None => match name_of(d.dir@) {
                    Some(n) => n,
                    None => "?"@,
                },
            })
            &&& m.name == name
            &&& m.packs.to_multiset() == d.files@.filter(
                |f: FoundFile| has_extension(f.abs@, "pack"@),
            ).map_values(|f: FoundFile| f.abs@).to_multiset()
            &&& m.packs == packs_of(d.files@)
            &&& m.size == Some(
                d.files@.fold_left(
                    0int,
                    |n: int, f: FoundFile|
                        if has_extension(f.abs@, "pack"@) && f.size is Some {
                            n + f.size->0
                        } else {
                            n
                        },
                ) as u64,
            )
            &&& m.steam_id == steam_id
            &&& m.png == opt_text(d.png)
            &&& m.local == local
            &&& m.category.len() == 0 && m.short.len() == 0
            &&& !m.missing
        },
{
    packs_are_all_the_packs(d.files@);
    lemma_packs_count(d.files@);
    lemma_pack_sum(d.files@);
    let is_pack = |f: FoundFile| has_extension(f.abs@, "pack"@);
    lemma_pack_files(d.files@);
    if exists|i: int| 0 <= i < d.files@.len() && has_extension(
        (#[trigger] d.files@[i]).abs@,
        "pack"@,
    ) {
        let i = choose|i: int|
            0 <= i < d.files@.len() && has_extension((#[trigger] d.files@[i]).abs@, "pack"@);
        d.files@.lemma_filter_contains(is_pack, i);
    }
    if pack_files(d.files@).len() > 0 {
        d.files@.lemma_filter_pred(is_pack, 0);
        d.files@.lemma_filter_contains_rev(is_pack, d.files@.filter(is_pack)[0]);
    }
}

proof fn lemma_pack_sum(files: Seq<FoundFile>)
    ensures
        pack_bytes(files) == files.fold_left(
            0int,
            |n: int, f: FoundFile|
                if has_extension(f.abs@, "pack"@) && f.size is Some {
                    n + f.size->0
                } else {
                    n
                },
        ),
    decreases files.len(),
{
    if files.len() > 0 {
        lemma_pack_sum(files.drop_last());
    }
}

/// The place of the first of the packs that the launcher knows.
pub open spec fn is_first_known(
    meta: Map<Seq<char>, MetaView>,
    packs: Seq<Seq<char>>,
    k: int,
) -> bool {
    &&& 0 <= k < packs.len()
    &&& name_of(packs[k]) is Some && meta.contains_key(lowercase(name_of(packs[k])->0))
    &&& forall|j: int|
        0 <= j < k ==> !(name_of(#[trigger] packs[j]) is Some && meta.contains_key(
            lowercase(name_of(packs[j])->0),
        ))
}

proof fn lemma_first_meta(meta: Map<Seq<char>, MetaView>, packs: Seq<Seq<char>>)
    ensures
        first_meta(meta, packs) is Some <==> exists|k: int| is_first_known(meta, packs, k),
        forall|k: int| #[trigger]
            is_first_known(meta, packs, k) ==> first_meta(meta, packs) == Some(
                meta[lowercase(name_of(packs[k])->0)],
            ),
    decreases packs.len(),
{
    if packs.len() > 0 {
        let rest = packs.drop_first();
        lemma_first_meta(meta, rest);
        let here = name_of(packs[0]) is Some && meta.contains_key(lowercase(name_of(packs[0])->0));
        if here {
            assert(is_first_known(meta, packs, 0));
        }
        assert forall|k: int| #[trigger] is_first_known(meta, packs, k) implies first_meta(
            meta,
            packs,
        ) == Some(meta[lowercase(name_of(packs[k])->0)]) by {
            if k > 0 {
                assert(!(name_of(packs[0]) is Some && meta.contains_key(
                    lowercase(name_of(packs[0])->0),
                )));
                assert forall|j: int| 0 <= j < k - 1 implies !(name_of(#[trigger] rest[j]) is Some
                    && meta.contains_key(lowercase(name_of(rest[j])->0))) by {
                    assert(rest[j] == packs[j + 1]);
                }
                assert(is_first_known(meta, rest, k - 1));
            }
        }
        if !here && first_meta(meta, packs) is Some {
            let k = choose|k: int| is_first_known(meta, rest, k);
            assert forall|j: int| 0 <= j < k + 1 implies !(name_of(#[trigger] packs[j]) is Some
                && meta.contains_key(lowercase(name_of(packs[j])->0))) by {
                if j > 0 {
                    assert(packs[j] == rest[j - 1]);
                }
            }
            assert(is_first_known(meta, packs, k + 1));
        }
    }
}

/// A Workshop folder with a pack is a mod that is not local, with the packs of
/// the folder; its item id is the name of the folder, where that is a number.
/// It has the name, category and description that the launcher recorded for the
/// first of its packs that the launcher knows, and else the name of its first
/// pack.
pub proof fn workshop_mods_are_named_by_the_launcher(meta: Map<Seq<char>, MetaView>, d: FoundDir)
    requires
        pack_bytes(d.files@) <= u64::MAX,
    ensures
        workshop_mod(meta, d) is Some <==> exists|i: int|
            0 <= i < d.files@.len() && has_extension((#[trigger] d.files@[i]).abs@, "pack"@),
        workshop_mod(meta, d) matches Some(m) ==> {
            let packs = packs_of(d.files@);
            &&& m.packs == packs
            &&& m.dir == d.dir@
            &&& m.png == opt_text(d.png)
            &&& m.size == Some(
                d.files@.fold_left(
                    0int,
                    |n: int, f: FoundFile|
                        if has_extension(f.abs@, "pack"@) && f.size is Some {
                            n + f.size->0
                        } else {
                            n
                        },
                ) as u64,
            )
            &&& !m.local && !m.missing
            &&& forall|n: Seq<char>|
                m.steam_id == Some(n) <==> (#[trigger] name_of(d.dir@)) == Some(n) && n.len() > 0
                    && forall|i: int| 0 <= i < n.len() ==> '0' <= #[trigger] n[i] <= '9'
            &&& m.steam_id matches Some(n) ==> m.id == n
            &&& m.steam_id is None ==> m.id == (match name_of(d.dir@) {
                Some(n) => n,
                None => "?"@,
            })
            &&& (forall|k: int| !is_first_known(meta, packs, k)) ==> m.category.len() == 0
                && m.short.len() == 0 && m.name == (match stem_of(packs[0]) {
                Some(s) => s,
                None => "?"@,
            })
            &&& forall|k: int| #[trigger]
                is_first_known(meta, packs, k) ==> {
                    let x = meta[lowercase(name_of(packs[k])->0)];
                    &&& m.category == x.category
                    &&& m.short == x.short
                    &&& m.name == (if x.name.len() > 0 {
                        x.name
                    } else {
                        match stem_of(packs[0]) {
                            Some(s) => s,
                            None => "?"@,
                        }
                    })
                }
        },
{
    let packs = packs_of(d.files@);
    lemma_first_meta(meta, packs);
    a_folder_with_a_pack_is_a_mod(d, item_id(d.dir@), Seq::empty(), false);
}

/// A local folder with a pack is a local mod, known by the name of the folder,
/// with the packs of the folder.
pub proof fn local_mods_are_named_by_their_folder(d: FoundDir)
    requires
        pack_bytes(d.files@) <= u64::MAX,
    ensures
        local_mod(d) is Some <==> exists|i: int|
            0 <= i < d.files@.len() && has_extension((#[trigger] d.files@[i]).abs@, "pack"@),
        local_mod(d) matches Some(m) ==> {
            &&& m.packs == packs_of(d.files@)
            &&& m.dir == d.dir@
            &&& m.png == opt_text(d.png)
            &&& m.size == Some(
                d.files@.fold_left(
                    0int,
                    |n: int, f: FoundFile|
                        if has_extension(f.abs@, "pack"@) && f.size is Some {
                            n + f.size->0
                        } else {
                            n
                        },
                ) as u64,
            )
            &&& m.category.len() == 0 && m.short.len() == 0
            &&& m.local && !m.missing && m.steam_id is None
            &&& m.id == (match name_of(d.dir@) {
                Some(n) => n,
                None => "?"@,
            })
            &&& m.name == m.id
        },
{
    a_folder_with_a_pack_is_a_mod(d, None, name_or_unknown(d.dir@), true);
}

/// The mods of all folders, sorted by name.
pub open spec fn pool_of(
    meta: Map<Seq<char>, MetaView>,
    workshop: Seq<FoundDir>,
    local: Seq<FoundDir>,
) -> Seq<ModView> {
    sorted_by_name(workshop_mods(meta, workshop) + local_mods(local))
}

/// The pool holds the mod of each Workshop folder and of each local folder, and
/// nothing else, sorted by name whatever the case.
pub proof fn the_pool_is_every_mod(
    meta: Map<Seq<char>, MetaView>,
    workshop: Seq<FoundDir>,
    local: Seq<FoundDir>,
)
    ensures
        ({
            let r = pool_of(meta, workshop, local);
            &&& r.to_multiset() == (workshop.filter_map(|d: FoundDir| workshop_mod(meta, d))
                + local.filter_map(|d: FoundDir| local_mod(d))).to_multiset()
            &&& forall|i: int, j: int, at: int|
                0 <= i < j < r.len() ==> !#[trigger] differs_below(
                    lowercase(r[j].name),
                    lowercase(r[i].name),
                    at,
                )
        }),
{
    let mods = workshop_mods(meta, workshop) + local_mods(local);
    let r = sorted_by_name(mods);
    let keys = mods.map_values(|m: ModView| lowercase(m.name));
    let before = |a: Seq<char>, b: Seq<char>| text_before(a, b);
    <String as SortKey>::order_is_strict_weak();
    assert(before =~= <String as SortKey>::order());
    sorting_rearranges(mods, keys, before);
    lemma_workshop_mods(meta, workshop);
    lemma_local_mods(local);
    let at = sorted_indices(keys, before);
    assert forall|i: int, j: int, d: int| 0 <= i < j < r.len() implies !#[trigger] differs_below(
        lowercase(r[j].name),
        lowercase(r[i].name),
        d,
    ) by {
        assert(!before(keys[at[j]], keys[at[i]]));
        first_difference_decides(lowercase(r[j].name), lowercase(r[i].name));
    }
}

proof fn lemma_workshop_mods(meta: Map<Seq<char>, MetaView>, dirs: Seq<FoundDir>)
    ensures
        workshop_mods(meta, dirs) == dirs.filter_map(|d: FoundDir| workshop_mod(meta, d)),
    decreases dirs.len(),
{
    if dirs.len() > 0 {
        lemma_workshop_mods(meta, dirs.drop_last());
    }
    assert(workshop_mods(meta, dirs) =~= dirs.filter_map(|d: FoundDir| workshop_mod(meta, d)));
}

proof fn lemma_local_mods(dirs: Seq<FoundDir>)
    ensures
        local_mods(dirs) == dirs.filter_map(|d: FoundDir| local_mod(d)),
    decreases dirs.len(),
{
    if dirs.len() > 0 {
        lemma_local_mods(dirs.drop_last());
    }
    assert(local_mods(dirs) =~= dirs.filter_map(|d: FoundDir| local_mod(d)));
}

/// A description reads on after a tag as if the tag were not there, and plain
/// text stays as it is.
pub proof fn descriptions_lose_their_tags(a: Seq<char>, t: Seq<char>, b: Seq<char>)
    requires
        forall|i: int|
            0 <= i < a.len() ==> #[trigger] a[i] != '[' && a[i] != ']' && a[i] != '\r',
        !t.contains(']'),
    ensures
        untagged(a).0 == a,
        untagged(a.push('[') + t.push(']') + b).0 == a + untagged(b).0,
        untagged(a.push('\r') + b).0 == a + untagged(b).0,
{
    lemma_plain_untagged(a);
    lemma_tag_dropped(a, t);
    let head = a.push('[') + t;
    assert(a.push('[') + t.push(']') =~= head.push(']'));
    assert(head.push(']').drop_last() =~= head);
    assert(untagged(head.push(']')) == (a, false));
    lemma_untagged_follows(head.push(']'), b);
    assert(a.push('\r').drop_last() =~= a);
    lemma_untagged_follows(a.push('\r'), b);
}

proof fn lemma_plain_untagged(a: Seq<char>)
    requires
        forall|i: int|
            0 <= i < a.len() ==> #[trigger] a[i] != '[' && a[i] != ']' && a[i] != '\r',
    ensures
        untagged(a) == (a, false),
    decreases a.len(),
{
    if a.len() > 0 {
        assert forall|i: int| 0 <= i < a.drop_last().len() implies #[trigger] a.drop_last()[i] != '['
            && a.drop_last()[i] != ']' && a.drop_last()[i] != '\r' by {
            assert(a.drop_last()[i] == a[i]);
        }
        lemma_plain_untagged(a.drop_last());
        assert(a.last() == a[a.len() - 1]);
        assert(a.drop_last().push(a.last()) =~= a);
    } else {
        assert(a =~= Seq::<char>::empty());
    }
}

proof fn lemma_tag_dropped(a: Seq<char>, t: Seq<char>)
    requires
        untagged(a) == (a, false),
        !t.contains(']'),
    ensures
        untagged(a.push('[') + t) == (a, true),
    decreases t.len(),
{
    if t.len() == 0 {
        assert(a.push('[') + t =~= a.push('['));
        assert(a.push('[').drop_last() =~= a);
    } else {
        assert(!t.drop_last().contains(']')) by {
            if t.drop_last().contains(']') {
                let i = choose|i: int| 0 <= i < t.drop_last().len() && t.drop_last()[i] == ']';
                assert(t[i] == ']');
            }
        }
        lemma_tag_dropped(a, t.drop_last());
        assert((a.push('[') + t).drop_last() =~= a.push('[') + t.drop_last());
        assert(t[t.len() - 1] != ']');
    }
}

proof fn lemma_untagged_follows(a: Seq<char>, b: Seq<char>)
    requires
        !untagged(a).1,
    ensures
        untagged(a + b) == (untagged(a).0 + untagged(b).0, untagged(b).1),
    decreases b.len(),
{
    if b.len() == 0 {
        assert(a + b =~= a);
        assert(untagged(a).0 + untagged(b).0 =~= untagged(a).0);
    } else {
        lemma_untagged_follows(a, b.drop_last());
        assert((a + b).drop_last() =~= a + b.drop_last());
        let (x, y) = (untagged(a).0, untagged(b.drop_last()).0);
        assert((x + y).push(b.last()) =~= x + y.push(b.last()));
    }
}

} // verus!
