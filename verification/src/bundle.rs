//! Portable bundles: what goes into one, and what is taken from one.

use vstd::prelude::*;
use vstd::string::StringExecFns;

use crate::app::{name_is_valid, valid_profile_name, AppView};
use crate::json::{
    json_bytes_fault, parse_json_bytes, parsed_json, parsed_json_bytes, plain, plain_is_wider,
    plain_members, pretty_json, put, to_string_pretty, trees_one_by_one, Json, JsonNumber, JsonView,
};
use crate::modlist::{saved_profile_reads_back, saved_slot_reads_back};
use crate::model::{ml_views, FoundFile, MlEntry, MlView};
use crate::paths::{
    extension_is, file_name, files_are_called_by_their_name, from_dot, from_root, has_extension,
    join_path, joined_names_are_the_parts, joined_path_has_both_parts, lemma_starts, name_of,
    parts_are_plain, parts_around_a_slash, parts_of_path, path_join, path_parts, plain_part,
    plain_part_is_a_path, same_paths,
};
use crate::profiles::opt_str;
use crate::store::{version_dir, version_path};
use crate::text::{
    decimal, decimal_reads_back, join, joined, opt_text, same, suffixes_are_taken_off, texts,
    to_chars, to_decimal, trim, trim_end_matches, trimmed, without_suffixes,
};

verus! {

/// The name with the number `n` appended.
pub open spec fn numbered(base: Seq<char>, n: nat) -> Seq<char> {
    base + " "@ + decimal(n)
}

/// A profile of that name has a file among `files`.
pub open spec fn is_taken(files: Seq<Seq<char>>, name: Seq<char>) -> bool {
    files.contains(name + ".json"@)
}

/// The name that a new profile gets: the given one, or if that is taken the
/// first free one with a number from 2 on.
pub open spec fn is_unique_name(files: Seq<Seq<char>>, base: Seq<char>, name: Seq<char>) -> bool {
    if !is_taken(files, base) {
        name == base
    } else {
        exists|n: nat| #[trigger] is_first_free(files, base, n) && name == numbered(base, n)
    }
}

/// `n` is the first number from 2 on with which the name is free.
pub open spec fn is_first_free(files: Seq<Seq<char>>, base: Seq<char>, n: nat) -> bool {
    &&& n >= 2
    &&& !is_taken(files, numbered(base, n))
    &&& forall|k: nat| 2 <= k < n ==> is_taken(files, #[trigger] numbered(base, k))
}

proof fn lemma_numbered_differ(base: Seq<char>, a: nat, b: nat)
    requires
        numbered(base, a) + ".json"@ == numbered(base, b) + ".json"@,
    ensures
        a == b,
{
    let x = numbered(base, a) + ".json"@;
    let y = numbered(base, b) + ".json"@;
    let k = (base + " "@).len() as int;
    let j = ".json"@.len() as int;
    assert(x.subrange(k, x.len() - j) =~= decimal(a));
    assert(y.subrange(k, y.len() - j) =~= decimal(b));
    decimal_reads_back(a);
    decimal_reads_back(b);
}

/// As many names can be taken as there are files.
proof fn lemma_taken_are_few(files: Seq<Seq<char>>, base: Seq<char>, n: nat)
    requires
        n >= 2,
        forall|k: nat| 2 <= k < n ==> is_taken(files, #[trigger] numbered(base, k)),
    ensures
        n <= files.len() + 2,
{
    let names = Seq::new((n - 2) as nat, |i: int| numbered(base, (i + 2) as nat) + ".json"@);
    assert(names.no_duplicates()) by {
        assert forall|i: int, j: int| 0 <= i < j < names.len() implies names[i] != names[j] by {
            if names[i] == names[j] {
                lemma_numbered_differ(base, (i + 2) as nat, (j + 2) as nat);
            }
        }
    }
    names.unique_seq_to_set();
    files.lemma_cardinality_of_set();
    assert(names.to_set().subset_of(files.to_set())) by {
        assert forall|x: Seq<char>| names.to_set().contains(x) implies files.to_set().contains(
            x,
        ) by {
            let i = choose|i: int| 0 <= i < names.len() && names[i] == x;
            assert(is_taken(files, numbered(base, (i + 2) as nat)));
        }
    }
    vstd::set_lib::lemma_len_subset(names.to_set(), files.to_set());
}

/// A name for a new profile that no file among `files` has: `base`, or `base`
/// with the first number that makes it free. No profile is ever overwritten.
pub fn unique_profile_name(files: &Vec<String>, base: &str) -> (r: String)
    requires
        files@.len() < 0x7fff_fffd,
    ensures
        is_unique_name(texts(files@), base@, r@),
        !is_taken(texts(files@), r@),
{
    let ghost all = texts(files@);
    if !listed(files, base.to_owned().concat(".json").as_str()) {
        return base.to_owned();
    }
    let mut n: u64 = 2;
    let len: usize = files.len();
    loop
        invariant
            n >= 2,
            all == texts(files@),
            len == files@.len() < 0x7fff_fffd,
            is_taken(all, base@),
            forall|k: nat| 2 <= k < n ==> is_taken(all, #[trigger] numbered(base@, k)),
        decreases len + 3 - n,
    {
        let name = base.to_owned().concat(" ").concat(to_decimal(n).as_str());
        assert(name@ == numbered(base@, n as nat));
        if !listed(files, name.clone().concat(".json").as_str()) {
            assert(is_first_free(all, base@, n as nat));
            return name;
        }
        proof {
            assert(all.len() == len);
            assert forall|k: nat| 2 <= k < n + 1 implies is_taken(
                all,
                #[trigger] numbered(base@, k),
            ) by {}
            lemma_taken_are_few(all, base@, (n + 1) as nat);
        }
        n = n + 1;
    }
}

/// Whether a text is among others.
fn listed(v: &Vec<String>, x: &str) -> (r: bool)
    ensures
        r == texts(v@).contains(x@),
{
    let ghost all = texts(v@);
    let mut i: usize = 0;
    while i < v.len()
        invariant
            i <= v@.len(),
            all == texts(v@),
            forall|j: int| 0 <= j < i ==> all[j] != x@,
        decreases v@.len() - i,
    {
        if same(v[i].as_str(), x) {
            assert(all[i as int] == x@);
            return true;
        }
        i = i + 1;
    }
    false
}

/// A text, or nothing.
pub open spec fn opt_json(o: Option<Seq<char>>) -> JsonView {
    match o {
        Some(s) => JsonView::Str(s),
        None => JsonView::Null,
    }
}

/// What a bundle's header says of a mod.
pub open spec fn header_item(e: MlView) -> JsonView {
    JsonView::Object(
        Map::<Seq<char>, JsonView>::empty().insert("id"@, JsonView::Str(e.id)).insert(
            "local"@,
            JsonView::Bool(e.local),
        ).insert("steam_id"@, opt_json(e.steam_id)).insert("manifest"@, opt_json(e.manifest)).insert(
            "sha256"@,
            opt_json(e.sha256),
        ),
    )
}

/// A bundle's header: the layout's number, the profile and the pinned version of
/// every mod.
pub open spec fn header_doc(name: Seq<char>, entries: Seq<MlView>) -> JsonView {
    JsonView::Object(
        Map::<Seq<char>, JsonView>::empty().insert(
            "schema"@,
            JsonView::Number(JsonNumber::Unsigned(1)),
        ).insert("profile"@, JsonView::Str(name)).insert(
            "mods"@,
            JsonView::Array(entries.map_values(|e: MlView| header_item(e))),
        ),
    )
}

fn text_or_null(o: &Option<String>) -> (r: Json)
    ensures
        r@ == opt_json(opt_text(*o)),
        plain(r, 0),
{
    match o {
        Some(s) => Json::Str(s.clone()),
        None => Json::Null,
    }
}

fn header_item_json(e: &MlEntry) -> (r: Json)
    ensures
        r@ == header_item(e@),
        plain(r, 1),
{
    let mut o: Vec<(String, Json)> = Vec::new();
    put(&mut o, "id", Json::Str(e.id.clone()));
    put(&mut o, "local", Json::Bool(e.local));
    put(&mut o, "steam_id", text_or_null(&e.steam_id));
    put(&mut o, "manifest", text_or_null(&e.manifest));
    put(&mut o, "sha256", text_or_null(&e.sha256));
    assert(plain_members(o@, 0));
    Json::Object(o)
}

/// A bundle's header.
pub fn header_json(name: &str, entries: &Vec<MlEntry>) -> (r: Json)
    ensures
        r@ == header_doc(name@, ml_views(entries@)),
        plain(r, 3),
{
    let ghost items = ml_views(entries@).map_values(|e: MlView| header_item(e));
    let mut mods: Vec<Json> = Vec::new();
    let mut i: usize = 0;
    while i < entries.len()
        invariant
            i <= entries@.len(),
            items == ml_views(entries@).map_values(|e: MlView| header_item(e)),
            mods@.map_values(|j: Json| j@) == items.take(i as int),
            forall|k: int| 0 <= k < mods@.len() ==> plain(#[trigger] mods@[k], 1),
        decreases entries@.len() - i,
    {
        let j = header_item_json(&entries[i]);
        let ghost m0 = mods@;
        mods.push(j);
        i = i + 1;
        proof {
            assert(mods@.map_values(|j: Json| j@) =~= m0.map_values(|j: Json| j@).push(j@));
            assert(items.take(i as int) =~= items.take(i - 1).push(items[i - 1]));
        }
    }
    proof {
        assert(items.take(i as int) =~= items);
        trees_one_by_one(mods@);
    }
    let mut o: Vec<(String, Json)> = Vec::new();
    put(&mut o, "schema", Json::Number(JsonNumber::Unsigned(1)));
    put(&mut o, "profile", Json::Str(name.to_owned()));
    let list = Json::Array(mods);
    assert(plain(list, 2));
    put(&mut o, "mods", list);
    assert(plain_members(o@, 2));
    Json::Object(o)
}

/// The text of a bundle's header.
pub fn bundle_header(name: &str, entries: &Vec<MlEntry>) -> (r: String)
    ensures
        r@ == pretty_json(header_doc(name@, ml_views(entries@))),
        parsed_json(r@) == Some(header_doc(name@, ml_views(entries@))),
{
    let doc = header_json(name, entries);
    proof {
        plain_is_wider(doc, 3, 127);
    }
    to_string_pretty(&doc)
}

/// The file of a bundle.
pub fn bundle_file(dest: &str, name: &str) -> (r: String)
    ensures
        r@ == path_join(dest@, name@ + ".twwh3bundle.tar"@),
{
    join_path(dest, name.to_owned().concat(".twwh3bundle.tar").as_str())
}

/// The file in which a bundle is written before it is complete.
pub fn bundle_temp_file(dest: &str, name: &str) -> (r: String)
    ensures
        r@ == path_join(dest@, "."@ + name@ + ".twwh3bundle.tar.tmp"@),
{
    join_path(dest, ".".to_owned().concat(name).concat(".twwh3bundle.tar.tmp").as_str())
}

/// The folder whose files go into a bundle for a mod, if there is one: a local
/// mod's own folder, a Workshop mod's pinned version in the store.
pub open spec fn export_folder(e: MlView, vault: Seq<char>, local: Seq<char>) -> Option<Seq<char>> {
    if e.local {
        Some(path_join(local, e.id))
    } else {
        match (e.steam_id, e.manifest) {
            (Some(sid), Some(m)) => Some(version_path(vault, sid, m)),
            _ => None,
        }
    }
}

/// A mod has a folder whose files can go into a bundle.
pub open spec fn is_exported(e: MlView) -> bool {
    e.local || (e.steam_id is Some && e.manifest is Some)
}

/// The folder whose files go into a bundle for a mod.
pub fn export_source(e: &MlEntry, vault: &str, local: &str) -> (r: Option<String>)
    ensures
        opt_text(r) == export_folder(e@, vault@, local@),
        r is Some <==> is_exported(e@),
{
    if e.local {
        return Some(join_path(local, e.id.as_str()));
    }
    match (&e.steam_id, &e.manifest) {
        (Some(sid), Some(m)) => Some(version_dir(vault, sid.as_str(), m.as_str())),
        _ => None,
    }
}

/// The member of a bundle that holds a local mod's file.
pub open spec fn local_member(id: Seq<char>, rel: Seq<char>) -> Seq<char> {
    "local/"@ + id + "/"@ + rel
}

/// The member of a bundle that holds a file of a stored version.
pub open spec fn pack_member(sid: Seq<char>, manifest: Seq<char>, rel: Seq<char>) -> Seq<char> {
    "packs/"@ + sid + "/"@ + manifest + "/"@ + rel
}

/// The member of a bundle that holds a file of a mod.
pub open spec fn member_of(e: MlView, rel: Seq<char>) -> Seq<char> {
    if e.local {
        local_member(e.id, rel)
    } else {
        match (e.steam_id, e.manifest) {
            (Some(sid), Some(m)) => pack_member(sid, m, rel),
            _ => Seq::empty(),
        }
    }
}

/// A pack is among the files.
pub open spec fn any_pack(files: Seq<FoundFile>) -> bool {
    exists|i: int| 0 <= i < files.len() && has_extension((#[trigger] files[i]).abs@, "pack"@)
}

/// What goes into a bundle for a mod: the member for each file of its folder,
/// and whether a pack is among them.
pub fn export_members(e: &MlEntry, files: &Vec<FoundFile>) -> (r: (Vec<String>, bool))
    requires
        is_exported(e@),
    ensures
        (texts(r.0@), r.1) == members_for(e@, files@),
        texts(r.0@) == files@.map_values(|f: FoundFile| member_of(e@, f.rel@)),
        r.1 == any_pack(files@),
{
    let ghost all = files@.map_values(|f: FoundFile| member_of(e@, f.rel@));
    let mut out: Vec<String> = Vec::new();
    let mut has_pack = false;
    let mut i: usize = 0;
    while i < files.len()
        invariant
            i <= files@.len(),
            is_exported(e@),
            all == files@.map_values(|f: FoundFile| member_of(e@, f.rel@)),
            texts(out@) == all.take(i as int),
            has_pack == any_pack(files@.take(i as int)),
        decreases files@.len() - i,
    {
        let f = &files[i];
        let name = if e.local {
            "local/".to_owned().concat(e.id.as_str()).concat("/").concat(f.rel.as_str())
        } else {
            match (&e.steam_id, &e.manifest) {
                (Some(sid), Some(m)) => "packs/".to_owned().concat(sid.as_str()).concat(
                    "/",
                ).concat(m.as_str()).concat("/").concat(f.rel.as_str()),
                _ => String::new(),
            }
        };
        let is_pack = extension_is(f.abs.as_str(), "pack");
        proof {
            let a = files@.take(i as int);
            let b = files@.take(i + 1);
            if any_pack(a) {
                let k = choose|k: int|
                    0 <= k < a.len() && has_extension((#[trigger] a[k]).abs@, "pack"@);
                assert(b[k] == a[k]);
            }
            assert(b[i as int] == *f);
            if any_pack(b) {
                let k = choose|k: int|
                    0 <= k < b.len() && has_extension((#[trigger] b[k]).abs@, "pack"@);
                if k < i {
                    assert(a[k] == b[k]);
                }
            }
        }
        has_pack = has_pack || is_pack;
        let ghost o0 = out@;
        out.push(name);
        i = i + 1;
        proof {
            assert(texts(out@) =~= texts(o0).push(name@));
            assert(all.take(i as int) =~= all.take(i - 1).push(all[i - 1]));
        }
    }
    proof {
        assert(all.take(i as int) =~= all);
        assert(files@.take(i as int) =~= files@);
    }
    (out, has_pack)
}

/// How many of the mods came with a pack.
pub open spec fn with_pack(has: Seq<bool>) -> nat
    decreases has.len(),
{
    if has.len() == 0 {
        0
    } else {
        with_pack(has.drop_last()) + if has.last() {
            1nat
        } else {
            0
        }
    }
}

/// How many of the exported mods came with a pack, and how many did not.
pub fn export_counts(has_pack: &Vec<bool>) -> (r: (usize, usize))
    ensures
        r.0 == with_pack(has_pack@),
        r.0 + r.1 == has_pack@.len(),
{
    let mut n: usize = 0;
    let mut i: usize = 0;
    while i < has_pack.len()
        invariant
            i <= has_pack@.len(),
            n <= i,
            n == with_pack(has_pack@.take(i as int)),
        decreases has_pack@.len() - i,
    {
        assert(has_pack@.take(i + 1).drop_last() =~= has_pack@.take(i as int));
        if has_pack[i] {
            n = n + 1;
        }
        i = i + 1;
    }
    assert(has_pack@.take(i as int) =~= has_pack@);
    (n, has_pack.len() - n)
}

/// What is told of an export.
pub open spec fn exported_text(name: Seq<char>, path: Seq<char>, packs: nat, missing: nat) -> Seq<
    char,
> {
    "Exported '"@ + name + "' → "@ + path + " ("@ + decimal(packs) + " packs"@ + if missing > 0 {
        ", "@ + decimal(missing) + " without a stored pack"@
    } else {
        Seq::empty()
    } + ")"@
}

/// What is told of an export to `path`, as it is to be shown.
pub fn exported_message(name: &str, path: &str, packs: usize, missing: usize) -> (r: String)
    ensures
        r@ == exported_text(name@, path@, packs as nat, missing as nat),
{
    let note = if missing > 0 {
        ", ".to_owned().concat(to_decimal(missing as u64).as_str()).concat(
            " without a stored pack",
        )
    } else {
        String::new()
    };
    assert(missing == 0 ==> note@ =~= Seq::<char>::empty());
    "Exported '".to_owned().concat(name).concat("' → ").concat(path).concat(" (").concat(
        to_decimal(packs as u64).as_str(),
    ).concat(" packs").concat(note.as_str()).concat(")")
}

/// What a member of a bundle is.
pub enum Member {
    /// The header.
    Header,
    /// The profile.
    Profile,
    /// A file of the store, at this path below it.
    Pack(String),
    /// A file of a local mod, at this path below the local mods.
    Local(String),
    /// A file that would land outside.
    Unsafe,
    /// Nothing to take.
    Other,
}

/// What a member of a bundle is.
pub enum MemberView {
    Header,
    Profile,
    Pack(Seq<char>),
    Local(Seq<char>),
    Unsafe,
    Other,
}

impl View for Member {
    type V = MemberView;

    open spec fn view(&self) -> MemberView {
        match *self {
            Member::Header => MemberView::Header,
            Member::Profile => MemberView::Profile,
            Member::Pack(r) => MemberView::Pack(r@),
            Member::Local(r) => MemberView::Local(r@),
            Member::Unsafe => MemberView::Unsafe,
            Member::Other => MemberView::Other,
        }
    }
}

/// The path lies below the relative folder `top`.
pub open spec fn is_below_top(p: Seq<char>, top: Seq<char>) -> bool {
    !from_root(p) && !from_dot(p) && path_parts(p).len() > 0 && path_parts(p)[0] == top
}

/// The parts of a path below its first.
pub open spec fn parts_below(p: Seq<char>) -> Seq<Seq<char>> {
    path_parts(p).skip(1)
}

/// What the member at `path` of a bundle is: files below `packs` go to the
/// store, files below `local` to the local mods, and nothing that climbs out.
pub open spec fn member_kind(path: Seq<char>, is_dir: bool) -> MemberView {
    let below = parts_below(path);
    let rel = joined(below, "/"@);
    if path == "bundle.json"@ {
        MemberView::Header
    } else if path == "profile.json"@ {
        MemberView::Profile
    } else if is_below_top(path, "packs"@) || is_below_top(path, "local"@) {
        if below.contains(".."@) {
            MemberView::Unsafe
        } else if below.len() == 0 || is_dir {
            MemberView::Other
        } else if is_below_top(path, "packs"@) {
            MemberView::Pack(rel)
        } else {
            MemberView::Local(rel)
        }
    } else {
        MemberView::Other
    }
}

/// What the member at `path` of a bundle is.
pub fn classify_member(path: &str, is_dir: bool) -> (r: Member)
    ensures
        r@ == member_kind(path@, is_dir),
{
    if same(path, "bundle.json") {
        return Member::Header;
    }
    if same(path, "profile.json") {
        return Member::Profile;
    }
    let v = to_chars(path);
    let rooted = v.len() > 0 && v[0] == '/';
    let dotted = v.len() > 0 && v[0] == '.' && (v.len() == 1 || v[1] == '/');
    let mut parts = parts_of_path(path);
    let ghost all = texts(parts@);
    assert(all.len() == parts@.len());
    if rooted || dotted || parts.len() == 0 {
        return Member::Other;
    }
    assert(all[0] == parts@[0]@);
    let packs = same(parts[0].as_str(), "packs");
    let local = same(parts[0].as_str(), "local");
    if !packs && !local {
        return Member::Other;
    }
    let _ = parts.remove(0);
    assert(texts(parts@) =~= parts_below(path@));
    if listed(&parts, "..") {
        return Member::Unsafe;
    }
    if parts.len() == 0 || is_dir {
        return Member::Other;
    }
    let rel = join(&parts, "/");
    if packs {
        Member::Pack(rel)
    } else {
        Member::Local(rel)
    }
}

/// Why a bundle could not be imported.
pub enum ImportError {
    /// It has no profile.
    NoProfile,
    /// Its profile is not JSON, and why not.
    NotJson(String),
    /// A member would land outside.
    UnsafePath(String),
    /// A pack is not the one that was exported.
    Mismatch(String),
    /// The name is not one for a profile.
    BadName(String),
}

/// Why a bundle could not be imported.
pub enum ImportErrorView {
    NoProfile,
    NotJson(Seq<char>),
    UnsafePath(Seq<char>),
    Mismatch(Seq<char>),
    BadName(Seq<char>),
}

impl View for ImportError {
    type V = ImportErrorView;

    open spec fn view(&self) -> ImportErrorView {
        match *self {
            ImportError::NoProfile => ImportErrorView::NoProfile,
            ImportError::NotJson(e) => ImportErrorView::NotJson(e@),
            ImportError::UnsafePath(p) => ImportErrorView::UnsafePath(p@),
            ImportError::Mismatch(p) => ImportErrorView::Mismatch(p@),
            ImportError::BadName(n) => ImportErrorView::BadName(n@),
        }
    }
}

impl ImportError {
    /// What to tell.
    pub fn message(&self) -> (r: String)
        ensures
            r@ == (match self@ {
                ImportErrorView::NoProfile => "not a twwh3 bundle (no profile.json)"@,
                ImportErrorView::NotJson(e) => e,
                ImportErrorView::UnsafePath(p) => "bundle contains an unsafe path: "@ + p,
                ImportErrorView::Mismatch(p) => "checksum mismatch for "@ + p
                    + " — bundle may be corrupt"@,
                ImportErrorView::BadName(n) => "invalid profile name derived from bundle: '"@ + n
                    + "' (use --as <name>)"@,
            }),
    {
        match self {
            ImportError::NoProfile => "not a twwh3 bundle (no profile.json)".to_owned(),
            ImportError::NotJson(e) => e.clone(),
            ImportError::UnsafePath(p) => "bundle contains an unsafe path: ".to_owned().concat(
                p.as_str(),
            ),
            ImportError::Mismatch(p) => "checksum mismatch for ".to_owned().concat(
                p.as_str(),
            ).concat(" — bundle may be corrupt"),
            ImportError::BadName(n) => "invalid profile name derived from bundle: '".to_owned().concat(
                n.as_str(),
            ).concat("' (use --as <name>)"),
        }
    }
}

/// A stored version to be checked: one of its packs must have the hash that the
/// profile records.
pub struct PackCheck {
    pub sid: String,
    pub manifest: String,
    pub sha256: String,
}

/// What is to be checked of a version.
pub struct CheckView {
    pub sid: Seq<char>,
    pub manifest: Seq<char>,
    pub sha256: Seq<char>,
}

impl View for PackCheck {
    type V = CheckView;

    open spec fn view(&self) -> CheckView {
        CheckView { sid: self.sid@, manifest: self.manifest@, sha256: self.sha256@ }
    }
}

/// What is to be checked.
pub open spec fn check_views(v: Seq<PackCheck>) -> Seq<CheckView> {
    v.map_values(|c: PackCheck| c@)
}

/// The versions to be checked among the mods of a profile: those with a
/// recorded hash.
pub open spec fn checks_among(items: Seq<JsonView>) -> Seq<CheckView>
    decreases items.len(),
{
    if items.len() == 0 {
        Seq::empty()
    } else {
        let rest = checks_among(items.drop_last());
        let m = items.last();
        match (m.text_at("steam_id"@), m.text_at("manifest"@), m.text_at("sha256"@)) {
            (Some(sid), Some(manifest), Some(sha256)) => rest.push(
                CheckView { sid, manifest, sha256 },
            ),
            _ => rest,
        }
    }
}

/// The versions to be checked for a profile.
pub open spec fn checks_of(doc: JsonView) -> Seq<CheckView> {
    match doc.items_at("mods"@) {
        Some(a) => checks_among(a),
        None => Seq::empty(),
    }
}

/// The versions to be checked for a profile.
pub fn pack_checks(doc: &Json) -> (r: Vec<PackCheck>)
    ensures
        check_views(r@) == checks_of(doc@),
{
    let mut out: Vec<PackCheck> = Vec::new();
    assert(check_views(out@) =~= Seq::<CheckView>::empty());
    match doc.array_at("mods") {
        Some(a) => {
            let ghost all = a@.map_values(|j: Json| j@);
            let mut i: usize = 0;
            assert(all.take(0) =~= Seq::<JsonView>::empty());
            while i < a.len()
                invariant
                    i <= a@.len(),
                    all == a@.map_values(|j: Json| j@),
                    check_views(out@) == checks_among(all.take(i as int)),
                decreases a@.len() - i,
            {
                assert(all.take(i + 1).drop_last() =~= all.take(i as int));
                assert(all.take(i + 1).last() == a@[i as int]@);
                let m = &a[i];
                match (m.str_at("steam_id"), m.str_at("manifest"), m.str_at("sha256")) {
                    (Some(sid), Some(manifest), Some(sha256)) => {
                        let ghost o0 = out@;
                        let c = PackCheck { sid, manifest, sha256 };
                        out.push(c);
                        assert(check_views(out@) =~= check_views(o0).push(c@));
                    },
                    _ => {},
                }
                i = i + 1;
            }
            assert(all.take(i as int) =~= all);
        },
        None => {},
    }
    out
}

/// The versions to be checked for a bundle, given its profile if it has one.
pub fn bundle_checks(profile: Option<&[u8]>) -> (r: Result<Vec<PackCheck>, ImportError>)
    ensures
        match r {
            Ok(v) => profile is Some && parsed_json_bytes(profile->0@) is Some && check_views(v@)
                == checks_of(parsed_json_bytes(profile->0@)->0),
            Err(e) => match profile {
                None => e@ is NoProfile,
                Some(b) => parsed_json_bytes(b@) is None && e@ == ImportErrorView::NotJson(
                    json_bytes_fault(b@),
                ),
            },
        },
{
    match profile {
        None => Err(ImportError::NoProfile),
        Some(bytes) => match parse_json_bytes(bytes) {
            Err(e) => Err(ImportError::NotJson(e)),
            Ok(doc) => Ok(pack_checks(&doc)),
        },
    }
}

/// A pack that was looked at after a bundle was unpacked.
pub struct ExtractedPack {
    /// Its file name.
    pub name: String,
    /// Which of the checks is for its version; none, if the profile records no
    /// hash for that version.
    pub version: Option<usize>,
    /// The hash that is recorded beside it, if one is.
    pub recorded: Option<String>,
    /// The hash of its bytes, if they could be read.
    pub actual: Option<String>,
}

/// What was seen of a pack.
pub struct PackView {
    pub name: Seq<char>,
    pub version: Option<usize>,
    pub recorded: Option<Seq<char>>,
    pub actual: Option<Seq<char>>,
}

impl View for ExtractedPack {
    type V = PackView;

    open spec fn view(&self) -> PackView {
        PackView {
            name: self.name@,
            version: self.version,
            recorded: opt_text(self.recorded),
            actual: opt_text(self.actual),
        }
    }
}

/// What was seen of the packs.
pub open spec fn pack_views(v: Seq<ExtractedPack>) -> Seq<PackView> {
    v.map_values(|p: ExtractedPack| p@)
}

/// The file at `rel` below the store lies in the version that is checked.
pub open spec fn in_version(c: CheckView, rel: Seq<char>) -> bool {
    let dir = path_join(c.sid, c.manifest);
    !from_root(dir) && path_parts(dir).is_prefix_of(path_parts(rel))
}

/// The file at `rel` below the store is a pack of a version that is not checked.
pub open spec fn is_other_pack(checks: Seq<CheckView>, rel: Seq<char>) -> bool {
    has_extension(rel, "pack"@) && forall|k: int|
        0 <= k < checks.len() ==> !in_version(#[trigger] checks[k], rel)
}

/// Whether the file at `rel` below the store lies in the version that is
/// checked.
fn lies_in_version(c: &PackCheck, rel: &str) -> (r: bool)
    ensures
        r == in_version(c@, rel@),
{
    let dir = join_path(c.sid.as_str(), c.manifest.as_str());
    let v = to_chars(dir.as_str());
    if v.len() > 0 && v[0] == '/' {
        return false;
    }
    let a = parts_of_path(dir.as_str());
    let b = parts_of_path(rel);
    let ghost (pa, pb) = (texts(a@), texts(b@));
    assert(pa.len() == a@.len() && pb.len() == b@.len());
    if a.len() > b.len() {
        return false;
    }
    let mut i: usize = 0;
    while i < a.len()
        invariant
            i <= a@.len() <= b@.len(),
            pa == texts(a@),
            pb == texts(b@),
            pa == path_parts(path_join(c@.sid, c@.manifest)),
            pb == path_parts(rel@),
            forall|j: int| 0 <= j < i ==> pa[j] == pb[j],
        decreases a@.len() - i,
    {
        assert(pa[i as int] == a@[i as int]@ && pb[i as int] == b@[i as int]@);
        if !same(a[i].as_str(), b[i].as_str()) {
            assert(pb.subrange(0, pa.len() as int)[i as int] == pb[i as int]);
            return false;
        }
        i = i + 1;
    }
    assert(pb.subrange(0, pa.len() as int) =~= pa);
    true
}

/// The packs that a bundle brought and that lie in no version that is checked.
/// `rels` are the paths below the store of all files that it brought there.
pub fn other_packs(checks: &Vec<PackCheck>, rels: &Vec<String>) -> (r: Vec<String>)
    ensures
        texts(r@) == texts(rels@).filter(
            |rel: Seq<char>| is_other_pack(check_views(checks@), rel),
        ),
{
    let ghost cs = check_views(checks@);
    let ghost all = texts(rels@);
    let ghost other = |rel: Seq<char>| is_other_pack(cs, rel);
    let mut out: Vec<String> = Vec::new();
    let mut i: usize = 0;
    proof {
        reveal(Seq::filter);
        assert(all.take(0) =~= Seq::<Seq<char>>::empty());
        assert(texts(out@) =~= all.take(0).filter(other));
    }
    while i < rels.len()
        invariant
            i <= rels@.len(),
            cs == check_views(checks@),
            all == texts(rels@),
            other == (|rel: Seq<char>| is_other_pack(cs, rel)),
            texts(out@) == all.take(i as int).filter(other),
        decreases rels@.len() - i,
    {
        let rel = rels[i].as_str();
        let mut is_other = extension_is(rel, "pack");
        let mut k: usize = 0;
        while k < checks.len()
            invariant
                k <= checks@.len(),
                cs == check_views(checks@),
                is_other == (has_extension(rel@, "pack"@) && forall|j: int|
                    0 <= j < k ==> !in_version(#[trigger] cs[j], rel@)),
            decreases checks@.len() - k,
        {
            assert(cs[k as int] == checks@[k as int]@);
            if lies_in_version(&checks[k], rel) {
                is_other = false;
            }
            k = k + 1;
        }
        proof {
            reveal(Seq::filter);
            assert(is_other == is_other_pack(cs, rel@));
            assert(all.take(i + 1).drop_last() =~= all.take(i as int));
            assert(all.take(i + 1).last() == rel@);
        }
        if is_other {
            let ghost o0 = out@;
            let t = rels[i].clone();
            out.push(t);
            assert(texts(out@) =~= texts(o0).push(t@));
        }
        i = i + 1;
    }
    assert(all.take(i as int) =~= all);
    out
}

/// The pack is another than the one whose hash is recorded beside it.
pub open spec fn differs(p: PackView) -> bool {
    p.recorded matches Some(h) && p.actual matches Some(a) && a != h
}

/// The pack belongs to the version of check `k`.
pub open spec fn is_of(p: PackView, k: int) -> bool {
    p.version matches Some(v) && v == k
}

/// The pack is the one whose hash is recorded: beside it or, where nothing is
/// recorded there, in the profile.
pub open spec fn is_verified(checks: Seq<CheckView>, p: PackView) -> bool {
    p.actual matches Some(a) && match p.recorded {
        Some(h) => a == h,
        None => p.version matches Some(v) && v < checks.len() && a == checks[v as int].sha256,
    }
}

/// The first pack at or after `from` that is another than the recorded one.
pub open spec fn first_bad(packs: Seq<PackView>, from: int) -> Option<int>
    decreases packs.len() - from,
{
    if from >= packs.len() {
        None
    } else if differs(packs[from]) {
        Some(from)
    } else {
        first_bad(packs, from + 1)
    }
}

/// The first pack at or after `from` that belongs to the version of check `k`.
pub open spec fn first_of(packs: Seq<PackView>, k: int, from: int) -> Option<int>
    decreases packs.len() - from,
{
    if from >= packs.len() {
        None
    } else if is_of(packs[from], k) {
        Some(from)
    } else {
        first_of(packs, k, from + 1)
    }
}

/// The hash that the profile records for a version is that of none of its
/// packs: there are packs, all could be read, and all have another hash.
pub open spec fn is_disowned(checks: Seq<CheckView>, packs: Seq<PackView>, k: int) -> bool {
    &&& first_of(packs, k, 0) is Some
    &&& forall|j: int|
        0 <= j < packs.len() && is_of(#[trigger] packs[j], k) ==> packs[j].actual is Some
            && packs[j].actual != Some(checks[k].sha256)
}

/// The first check at or after `from` whose version has no pack with the hash
/// that the profile records.
pub open spec fn first_disowned(
    checks: Seq<CheckView>,
    packs: Seq<PackView>,
    from: int,
) -> Option<int>
    decreases checks.len() - from,
{
    if from >= checks.len() {
        None
    } else if is_disowned(checks, packs, from) {
        Some(from)
    } else {
        first_disowned(checks, packs, from + 1)
    }
}

/// How many packs were found to be the recorded ones.
pub open spec fn verified_among(checks: Seq<CheckView>, packs: Seq<PackView>) -> nat
    decreases packs.len(),
{
    if packs.len() == 0 {
        0
    } else {
        verified_among(checks, packs.drop_last()) + if is_verified(checks, packs.last()) {
            1nat
        } else {
            0
        }
    }
}

/// What is said of the packs: how many are the recorded ones, or the name of one
/// that is another. Every pack must have the hash that is recorded beside it,
/// and every hash in the profile must be that of a pack of its version.
pub open spec fn verdict(checks: Seq<CheckView>, packs: Seq<PackView>) -> Result<nat, Seq<char>> {
    match first_bad(packs, 0) {
        Some(k) => Err(packs[k].name),
        None => match first_disowned(checks, packs, 0) {
            Some(k) => Err(packs[first_of(packs, k, 0)->0].name),
            None => Ok(verified_among(checks, packs)),
        },
    }
}

/// Whether the hash that the profile records for a version is that of none of
/// its packs; if so, the position of the first of them.
fn disowned(checks: &Vec<PackCheck>, packs: &Vec<ExtractedPack>, k: usize) -> (r: Option<usize>)
    requires
        k < checks@.len(),
    ensures
        match r {
            Some(j) => is_disowned(check_views(checks@), pack_views(packs@), k as int) && first_of(
                pack_views(packs@),
                k as int,
                0,
            ) == Some(j as int) && j < packs@.len(),
            None => !is_disowned(check_views(checks@), pack_views(packs@), k as int),
        },
{
    let ghost cs = check_views(checks@);
    let ghost ps = pack_views(packs@);
    let mut first: Option<usize> = None;
    let mut i: usize = 0;
    assert(cs[k as int] == checks@[k as int]@);
    while i < packs.len()
        invariant
            i <= packs@.len(),
            k < checks@.len(),
            cs == check_views(checks@),
            ps == pack_views(packs@),
            cs[k as int] == checks@[k as int]@,
            match first {
                Some(j) => j < packs@.len() && first_of(ps, k as int, 0) == Some(j as int),
                None => first_of(ps, k as int, 0) == first_of(ps, k as int, i as int),
            },
            forall|j: int|
                0 <= j < i && is_of(#[trigger] ps[j], k as int) ==> ps[j].actual is Some
                    && ps[j].actual != Some(cs[k as int].sha256),
        decreases packs@.len() - i,
    {
        let p = &packs[i];
        assert(ps[i as int] == p@);
        let mine = match p.version {
            Some(v) => v == k,
            None => false,
        };
        assert(mine == is_of(ps[i as int], k as int));
        if mine {
            let other = match &p.actual {
                Some(a) => !same(a.as_str(), checks[k].sha256.as_str()),
                None => false,
            };
            if !other {
                assert(is_of(ps[i as int], k as int));
                return None;
            }
            if first.is_none() {
                first = Some(i);
            }
        }
        i = i + 1;
    }
    first
}

/// Check the packs that were found: how many are the recorded ones, or which
/// one is another.
pub fn verify_packs(checks: &Vec<PackCheck>, packs: &Vec<ExtractedPack>) -> (r: Result<
    usize,
    ImportError,
>)
    ensures
        match r {
            Ok(n) => verdict(check_views(checks@), pack_views(packs@)) == Ok::<nat, Seq<char>>(
                n as nat,
            ),
            Err(e) => verdict(check_views(checks@), pack_views(packs@)) matches Err(name) && e@
                == ImportErrorView::Mismatch(name),
        },
{
    let ghost cs = check_views(checks@);
    let ghost ps = pack_views(packs@);
    let mut n: usize = 0;
    let mut i: usize = 0;
    assert(ps.take(0) =~= Seq::<PackView>::empty());
    while i < packs.len()
        invariant
            i <= packs@.len(),
            cs == check_views(checks@),
            ps == pack_views(packs@),
            n <= i,
            n == verified_among(cs, ps.take(i as int)),
            first_bad(ps, 0) == first_bad(ps, i as int),
        decreases packs@.len() - i,
    {
        let p = &packs[i];
        proof {
            assert(ps[i as int] == p@);
            assert(ps.take(i + 1).drop_last() =~= ps.take(i as int));
            assert(ps.take(i + 1).last() == p@);
        }
        match &p.actual {
            Some(a) => match &p.recorded {
                Some(h) => {
                    if !same(a.as_str(), h.as_str()) {
                        return Err(ImportError::Mismatch(p.name.clone()));
                    }
                    n = n + 1;
                },
                None => match p.version {
                    Some(v) => if v < checks.len() {
                        assert(cs[v as int] == checks@[v as int]@);
                        if same(a.as_str(), checks[v].sha256.as_str()) {
                            n = n + 1;
                        }
                    },
                    None => {},
                },
            },
            None => {},
        }
        i = i + 1;
    }
    assert(ps.take(i as int) =~= ps);
    let mut k: usize = 0;
    while k < checks.len()
        invariant
            k <= checks@.len(),
            cs == check_views(checks@),
            ps == pack_views(packs@),
            first_bad(ps, 0) is None,
            first_disowned(cs, ps, 0) == first_disowned(cs, ps, k as int),
        decreases checks@.len() - k,
    {
        match disowned(checks, packs, k) {
            Some(j) => {
                assert(ps[j as int] == packs@[j as int]@);
                return Err(ImportError::Mismatch(packs[j].name.clone()));
            },
            None => {},
        }
        k = k + 1;
    }
    Ok(n)
}

/// The name that an imported profile is to get: the given one, else the one in
/// the bundle's header, else the bundle's file name, else `imported`.
pub open spec fn base_name(
    as_name: Option<Seq<char>>,
    header: Option<JsonView>,
    path: Seq<char>,
) -> Seq<char> {
    let from_header = match header {
        Some(h) => h.text_at("profile"@),
        None => None,
    };
    match as_name {
        Some(n) => n,
        None => match from_header {
            Some(n) => n,
            None => match name_of(path) {
                Some(f) => without_suffixes(without_suffixes(f, ".tar"@), ".twwh3bundle"@),
                None => "imported"@,
            },
        },
    }
}

/// The name that an imported profile is to get.
pub fn bundle_name(as_name: Option<&str>, header: Option<&Json>, path: &str) -> (r: String)
    ensures
        r@ == base_name(
            opt_str(as_name),
            match header {
                Some(h) => Some(h@),
                None => None,
            },
            path@,
        ),
{
    match as_name {
        Some(n) => {
            return n.to_owned();
        },
        None => {},
    }
    let from_header = match header {
        Some(h) => h.str_at("profile"),
        None => None,
    };
    match from_header {
        Some(n) => n,
        None => match file_name(path) {
            Some(f) => trim_end_matches(
                trim_end_matches(f.as_str(), ".tar").as_str(),
                ".twwh3bundle",
            ),
            None => "imported".to_owned(),
        },
    }
}

/// Finish an import once the bundle's files are in place: the packs must be the
/// recorded ones, and the profile gets a name of its own. `packs` are all packs
/// of the versions that are checked, and the other packs that the bundle
/// brought; `files` are the names of the files in the profile directory. Returns
/// the name and how many packs were verified.
pub fn import_bundle(
    checks: &Vec<PackCheck>,
    packs: &Vec<ExtractedPack>,
    base: &str,
    files: &Vec<String>,
) -> (r: Result<(String, usize), ImportError>)
    requires
        files@.len() < 0x7fff_fffd,
    ensures
        match r {
            Ok(x) => {
                &&& verdict(check_views(checks@), pack_views(packs@)) == Ok::<nat, Seq<char>>(
                    x.1 as nat,
                )
                &&& name_is_valid(base@)
                &&& is_unique_name(texts(files@), trimmed(base@), x.0@)
                &&& !is_taken(texts(files@), x.0@)
            },
            Err(e) => match verdict(check_views(checks@), pack_views(packs@)) {
                Err(name) => e@ == ImportErrorView::Mismatch(name),
                Ok(_) => !name_is_valid(base@) && e@ == ImportErrorView::BadName(base@),
            },
        },
{
    let n = match verify_packs(checks, packs) {
        Ok(n) => n,
        Err(e) => {
            return Err(e);
        },
    };
    if !valid_profile_name(base) {
        return Err(ImportError::BadName(base.to_owned()));
    }
    let name = unique_profile_name(files, trim(base).as_str());
    Ok((name, n))
}

/// Whatever a bundle holds, nothing that is taken from it climbs out of the
/// store or the local mods: the path below them is relative and has no `..`.
pub proof fn imported_files_stay_inside(path: Seq<char>, is_dir: bool, rel: Seq<char>)
    requires
        member_kind(path, is_dir) == MemberView::Pack(rel) || member_kind(path, is_dir)
            == MemberView::Local(rel),
    ensures
        !from_root(rel),
        rel.len() > 0,
        !path_parts(rel).contains(".."@),
        path_parts(rel) == parts_below(path),
{
    let below = parts_below(path);
    parts_are_plain(path);
    assert forall|i: int| 0 <= i < below.len() implies plain_part(#[trigger] below[i]) by {
        assert(below[i] == path_parts(path)[i + 1]);
    }
    joined_names_are_the_parts(below);
}

proof fn lemma_top_and_rest(top: Seq<char>, rest: Seq<char>)
    requires
        plain_part(top),
        top[0] != '.',
    ensures
        path_parts(top.push('/') + rest) == seq![top] + path_parts(rest),
        !from_root(top.push('/') + rest),
        !from_dot(top.push('/') + rest),
{
    plain_part_is_a_path(top);
    parts_around_a_slash(top, rest);
    if top[0] == '/' {
        assert(top.contains('/'));
    }
}

/// A file of a stored version that is exported comes back to the place that it
/// came from.
pub proof fn exported_pack_returns_to_its_place(
    vault: Seq<char>,
    sid: Seq<char>,
    manifest: Seq<char>,
    rel: Seq<char>,
)
    requires
        from_root(vault),
        plain_part(sid) && sid != ".."@,
        plain_part(manifest) && manifest != ".."@,
        !from_root(rel),
        path_parts(rel).len() > 0,
        !path_parts(rel).contains(".."@),
    ensures
        member_kind(pack_member(sid, manifest, rel), false) matches MemberView::Pack(below)
            && same_paths(
            path_join(vault, below),
            path_join(version_path(vault, sid, manifest), rel),
        ),
{
    let p = pack_member(sid, manifest, rel);
    let packs = seq!['p', 'a', 'c', 'k', 's'];
    let tail = sid.push('/') + (manifest.push('/') + rel);
    reveal_strlit("packs/");
    reveal_strlit("packs");
    reveal_strlit("/");
    reveal_strlit("bundle.json");
    reveal_strlit("profile.json");
    reveal_strlit(".");
    assert("packs"@ =~= packs);
    assert("packs/"@ =~= packs.push('/'));
    assert("/"@ =~= seq!['/']);
    assert(p =~= packs.push('/') + tail);
    assert(plain_part(packs)) by {
        assert forall|i: int| 0 <= i < packs.len() implies packs[i] != '/' by {}
        assert(packs.len() == 5);
    }
    lemma_top_and_rest(packs, tail);
    plain_part_is_a_path(sid);
    plain_part_is_a_path(manifest);
    parts_around_a_slash(sid, manifest.push('/') + rel);
    parts_around_a_slash(manifest, rel);
    let below = seq![sid] + (seq![manifest] + path_parts(rel));
    assert(path_parts(p) =~= seq![packs] + below);
    assert(parts_below(p) =~= below);
    assert(p[0] == 'p' && p[1] == 'a');
    assert(p != "bundle.json"@) by {
        assert("bundle.json"@[0] == 'b');
    }
    assert(p != "profile.json"@) by {
        assert("profile.json"@[1] == 'r');
    }
    assert(!below.contains(".."@)) by {
        if below.contains(".."@) {
            let i = choose|i: int| 0 <= i < below.len() && below[i] == ".."@;
            if i >= 2 {
                assert(path_parts(rel)[i - 2] == ".."@);
            }
        }
    }
    assert(is_below_top(p, "packs"@));
    let r = joined(below, "/"@);
    imported_files_stay_inside(p, false, r);
    joined_path_has_both_parts(vault, r);
    assert(!from_root(sid) && !from_root(manifest));
    joined_path_has_both_parts(vault, sid);
    joined_path_has_both_parts(path_join(vault, sid), manifest);
    joined_path_has_both_parts(version_path(vault, sid, manifest), rel);
    let a = path_join(vault, r);
    let b = path_join(version_path(vault, sid, manifest), rel);
    assert(path_parts(a) =~= path_parts(b));
    assert(path_join(vault, sid).len() > 0);
    assert(from_root(a) && from_root(b));
}

/// A bundle that is imported without another name gives the profile the name
/// that it was exported under.
pub proof fn bundle_keeps_the_profile_name(
    name: Seq<char>,
    entries: Seq<MlView>,
    path: Seq<char>,
)
    ensures
        base_name(None, Some(header_doc(name, entries)), path) == name,
{
    reveal_strlit("profile");
    reveal_strlit("mods");
    reveal_strlit("schema");
    assert("profile"@.len() == 7 && "mods"@.len() == 4 && "schema"@.len() == 6);
}

/// Each pack is verified: a bundle with a pack that is another than the one
/// recorded beside it is refused, whatever the other packs are.
pub proof fn every_pack_is_verified(checks: Seq<CheckView>, packs: Seq<PackView>, k: int)
    requires
        0 <= k < packs.len(),
        differs(packs[k]),
    ensures
        verdict(checks, packs) is Err,
{
    lemma_first_bad(packs, 0);
}

/// A bundle is refused if the packs of a version could be read and none of them
/// has the hash that the profile records for the version.
pub proof fn recorded_versions_are_verified(checks: Seq<CheckView>, packs: Seq<PackView>, k: int)
    requires
        0 <= k < checks.len(),
        exists|j: int| 0 <= j < packs.len() && is_of(#[trigger] packs[j], k),
        forall|j: int|
            0 <= j < packs.len() && is_of(#[trigger] packs[j], k) ==> packs[j].actual is Some
                && packs[j].actual != Some(checks[k].sha256),
    ensures
        verdict(checks, packs) is Err,
{
    lemma_first_of(packs, k, 0);
    lemma_first_disowned(checks, packs, 0);
    assert(is_disowned(checks, packs, k));
}

/// A bundle whose packs all have the hashes that are recorded beside them, and
/// which has for every hash of the profile a pack with that hash, is accepted,
/// every pack counted.
pub proof fn matching_packs_are_verified(checks: Seq<CheckView>, packs: Seq<PackView>)
    requires
        forall|j: int|
            0 <= j < packs.len() ==> (#[trigger] packs[j]).actual is Some && packs[j].recorded
                == packs[j].actual,
        forall|k: int|
            0 <= k < checks.len() ==> exists|j: int|
                0 <= j < packs.len() && is_of(#[trigger] packs[j], k) && packs[j].actual == Some(
                    (#[trigger] checks[k]).sha256,
                ),
    ensures
        verdict(checks, packs) == Ok::<nat, Seq<char>>(packs.len()),
{
    lemma_first_bad(packs, 0);
    lemma_first_disowned(checks, packs, 0);
    lemma_all_verified(checks, packs);
    assert forall|k: int| 0 <= k < checks.len() implies !is_disowned(checks, packs, k) by {
        let c = checks[k];
        let j = choose|j: int|
            0 <= j < packs.len() && is_of(#[trigger] packs[j], k) && packs[j].actual == Some(
                c.sha256,
            );
        assert(is_of(packs[j], k));
    }
}

proof fn lemma_first_bad(packs: Seq<PackView>, from: int)
    requires
        0 <= from,
    ensures
        first_bad(packs, from) is Some <==> exists|k: int|
            from <= k < packs.len() && differs(#[trigger] packs[k]),
    decreases packs.len() - from,
{
    if from < packs.len() {
        lemma_first_bad(packs, from + 1);
        if first_bad(packs, from) is Some && !differs(packs[from]) {
            let k = choose|k: int| from + 1 <= k < packs.len() && differs(#[trigger] packs[k]);
            assert(from <= k && differs(packs[k]));
        }
    }
}

proof fn lemma_first_of(packs: Seq<PackView>, k: int, from: int)
    requires
        0 <= from,
    ensures
        first_of(packs, k, from) is Some <==> exists|j: int|
            from <= j < packs.len() && is_of(#[trigger] packs[j], k),
    decreases packs.len() - from,
{
    if from < packs.len() {
        lemma_first_of(packs, k, from + 1);
        if first_of(packs, k, from) is Some && !is_of(packs[from], k) {
            let j = choose|j: int| from + 1 <= j < packs.len() && is_of(#[trigger] packs[j], k);
            assert(from <= j && is_of(packs[j], k));
        }
    }
}

proof fn lemma_first_disowned(checks: Seq<CheckView>, packs: Seq<PackView>, from: int)
    requires
        0 <= from,
    ensures
        first_disowned(checks, packs, from) is Some <==> exists|k: int|
            from <= k < checks.len() && #[trigger] is_disowned(checks, packs, k),
    decreases checks.len() - from,
{
    if from < checks.len() {
        lemma_first_disowned(checks, packs, from + 1);
        if first_disowned(checks, packs, from) is Some && !is_disowned(checks, packs, from) {
            let k = choose|k: int|
                from + 1 <= k < checks.len() && #[trigger] is_disowned(checks, packs, k);
            assert(from <= k && is_disowned(checks, packs, k));
        }
    }
}

proof fn lemma_all_verified(checks: Seq<CheckView>, packs: Seq<PackView>)
    requires
        forall|j: int|
            0 <= j < packs.len() ==> (#[trigger] packs[j]).actual is Some && packs[j].recorded
                == packs[j].actual,
    ensures
        verified_among(checks, packs) == packs.len(),
    decreases packs.len(),
{
    if packs.len() > 0 {
        assert forall|j: int| 0 <= j < packs.len() - 1 implies (
        #[trigger] packs.drop_last()[j]).actual is Some && packs.drop_last()[j].recorded
            == packs.drop_last()[j].actual by {
            assert(packs.drop_last()[j] == packs[j]);
        }
        lemma_all_verified(checks, packs.drop_last());
        assert(is_verified(checks, packs[packs.len() - 1]));
    }
}

/// A local mod's file that is exported comes back to the place that it came
/// from.
pub proof fn exported_local_file_returns_to_its_place(
    local: Seq<char>,
    id: Seq<char>,
    rel: Seq<char>,
)
    requires
        from_root(local),
        plain_part(id) && id != ".."@,
        !from_root(rel),
        path_parts(rel).len() > 0,
        !path_parts(rel).contains(".."@),
    ensures
        member_kind(local_member(id, rel), false) matches MemberView::Local(below) && same_paths(
            path_join(local, below),
            path_join(path_join(local, id), rel),
        ),
{
    let p = local_member(id, rel);
    let top = seq!['l', 'o', 'c', 'a', 'l'];
    let tail = id.push('/') + rel;
    reveal_strlit("local/");
    reveal_strlit("local");
    reveal_strlit("packs");
    reveal_strlit("/");
    reveal_strlit("bundle.json");
    reveal_strlit("profile.json");
    reveal_strlit(".");
    assert("local"@ =~= top);
    assert("local/"@ =~= top.push('/'));
    assert("/"@ =~= seq!['/']);
    assert(p =~= top.push('/') + tail);
    assert(plain_part(top)) by {
        assert forall|i: int| 0 <= i < top.len() implies top[i] != '/' by {}
        assert(top.len() == 5);
    }
    lemma_top_and_rest(top, tail);
    plain_part_is_a_path(id);
    parts_around_a_slash(id, rel);
    let below = seq![id] + path_parts(rel);
    assert(path_parts(p) =~= seq![top] + below);
    assert(parts_below(p) =~= below);
    assert(p[0] == 'l' && "packs"@[0] == 'p' && "bundle.json"@[0] == 'b' && "profile.json"@[0]
        == 'p');
    assert(top != "packs"@) by {
        assert(top[0] == 'l');
    }
    assert(!below.contains(".."@)) by {
        if below.contains(".."@) {
            let i = choose|i: int| 0 <= i < below.len() && below[i] == ".."@;
            if i >= 1 {
                assert(path_parts(rel)[i - 1] == ".."@);
            }
        }
    }
    assert(is_below_top(p, "local"@));
    let r = joined(below, "/"@);
    imported_files_stay_inside(p, false, r);
    joined_path_has_both_parts(local, r);
    joined_path_has_both_parts(local, id);
    joined_path_has_both_parts(path_join(local, id), rel);
    let a = path_join(local, r);
    let b = path_join(path_join(local, id), rel);
    assert(path_parts(a) =~= path_parts(b));
    assert(path_join(local, id).len() > 0);
    assert(from_root(a) && from_root(b));
}

proof fn lemma_checks_contain(items: Seq<JsonView>, k: int, c: CheckView)
    requires
        0 <= k < items.len(),
        items[k].text_at("steam_id"@) == Some(c.sid),
        items[k].text_at("manifest"@) == Some(c.manifest),
        items[k].text_at("sha256"@) == Some(c.sha256),
    ensures
        checks_among(items).contains(c),
    decreases items.len(),
{
    let rest = checks_among(items.drop_last());
    let all = checks_among(items);
    if k == items.len() - 1 {
        assert(all[all.len() - 1] == c);
    } else {
        lemma_checks_contain(items.drop_last(), k, c);
        let j = choose|j: int| 0 <= j < rest.len() && rest[j] == c;
        assert(all[j] == c);
    }
}

/// Every hash that a saved profile records is checked when the profile comes
/// back in a bundle.
pub proof fn saved_hashes_are_checked(
    v: AppView,
    shas: Seq<Option<Seq<char>>>,
    saved_at: u64,
    k: int,
)
    requires
        0 <= k < v.slots.len(),
        shas.len() == v.slots.len(),
        v.slot_sid(v.slots[k]) is Some,
        v.planned_manifest(v.slots[k]) is Some,
        shas[k] is Some,
    ensures
        checks_of(v.modlist_doc(shas, saved_at)).contains(
            CheckView {
                sid: v.slot_sid(v.slots[k])->0,
                manifest: v.planned_manifest(v.slots[k])->0,
                sha256: shas[k]->0,
            },
        ),
{
    saved_profile_reads_back(v, shas, saved_at);
    saved_slot_reads_back(v, v.slots[k], shas[k]);
    let items = v.slot_items(v.slots, shas);
    reveal_strlit("mods");
    reveal_strlit("saved_at");
    reveal_strlit("game_buildid");
    assert("mods"@.len() == 4 && "saved_at"@.len() == 8 && "game_buildid"@.len() == 12);
    assert(v.modlist_doc(shas, saved_at).items_at("mods"@) == Some(items));
    lemma_checks_contain(
        items,
        k,
        CheckView {
            sid: v.slot_sid(v.slots[k])->0,
            manifest: v.planned_manifest(v.slots[k])->0,
            sha256: shas[k]->0,
        },
    );
}

/// Every file that is exported for a mod comes back, when the bundle is
/// imported, to the place below the store or below the local mods that it was
/// exported from: that of a Workshop mod in its pinned version, that of a local
/// mod in its folder, whatever else the profile says of the mod.
pub proof fn exported_files_return_to_their_place(
    e: MlView,
    vault: Seq<char>,
    local: Seq<char>,
    rel: Seq<char>,
)
    requires
        from_root(vault) && from_root(local),
        !from_root(rel),
        path_parts(rel).len() > 0,
        !path_parts(rel).contains(".."@),
        e.local ==> plain_part(e.id) && e.id != ".."@,
        !e.local ==> e.steam_id is Some && e.manifest is Some && plain_part(e.steam_id->0)
            && e.steam_id->0 != ".."@ && plain_part(e.manifest->0) && e.manifest->0 != ".."@,
    ensures
        export_folder(e, vault, local) == Some(
            if e.local {
                path_join(local, e.id)
            } else {
                path_join(path_join(vault, e.steam_id->0), e.manifest->0)
            },
        ),
        e.local ==> (member_kind(member_of(e, rel), false) matches MemberView::Local(below)
            && same_paths(
            path_join(local, below),
            path_join(export_folder(e, vault, local)->0, rel),
        )),
        !e.local ==> (member_kind(member_of(e, rel), false) matches MemberView::Pack(below)
            && same_paths(
            path_join(vault, below),
            path_join(export_folder(e, vault, local)->0, rel),
        )),
{
    if e.local {
        exported_local_file_returns_to_its_place(local, e.id, rel);
    } else {
        exported_pack_returns_to_its_place(vault, e.steam_id->0, e.manifest->0, rel);
    }
}

/// A local mod and a Workshop mod with a pinned version have a folder to export,
/// and no other mod has.
pub proof fn pinned_and_local_mods_are_exported(e: MlView, vault: Seq<char>, local: Seq<char>)
    ensures
        export_folder(e, vault, local) is Some <==> e.local || (e.steam_id is Some
            && e.manifest is Some),
        is_exported(e) <==> e.local || (e.steam_id is Some && e.manifest is Some),
{
}

/// The header of a bundle names the profile and says of every mod what the
/// profile says of it.
pub proof fn headers_say_what_the_profile_says(name: Seq<char>, entries: Seq<MlView>)
    ensures
        header_doc(name, entries).text_at("profile"@) == Some(name),
        header_doc(name, entries).unsigned_at("schema"@) == Some(1u64),
        header_doc(name, entries).items_at("mods"@) matches Some(items) && items.len()
            == entries.len() && forall|k: int|
            #![trigger items[k]]
            0 <= k < items.len() ==> {
                &&& items[k].text_at("id"@) == Some(entries[k].id)
                &&& items[k].flag_at("local"@) == Some(entries[k].local)
                &&& items[k].text_at("steam_id"@) == entries[k].steam_id
                &&& items[k].text_at("manifest"@) == entries[k].manifest
                &&& items[k].text_at("sha256"@) == entries[k].sha256
            },
{
    reveal_strlit("profile");
    reveal_strlit("mods");
    reveal_strlit("schema");
    reveal_strlit("id");
    reveal_strlit("local");
    reveal_strlit("steam_id");
    reveal_strlit("manifest");
    reveal_strlit("sha256");
    assert("profile"@.len() == 7 && "mods"@.len() == 4 && "schema"@.len() == 6);
    assert("id"@.len() == 2 && "local"@.len() == 5 && "sha256"@.len() == 6);
    assert("steam_id"@[0] == 's' && "manifest"@[0] == 'm');
}

/// As many mods are counted as exported with a pack as have one.
pub proof fn exported_mods_are_counted(has: Seq<bool>)
    ensures
        with_pack(has) == has.filter(|b: bool| b).len(),
    decreases has.len(),
{
    reveal(Seq::filter);
    if has.len() > 0 {
        exported_mods_are_counted(has.drop_last());
    }
}

/// For every mod of the profile that has an item id, a version and a hash, the
/// version is checked against the hash, in the order of the profile, and for no
/// other.
pub proof fn every_recorded_hash_is_checked(doc: JsonView)
    ensures
        checks_of(doc) == (match doc.items_at("mods"@) {
            Some(items) => items.filter_map(
                |m: JsonView|
                    match (m.text_at("steam_id"@), m.text_at("manifest"@), m.text_at("sha256"@)) {
                        (Some(sid), Some(manifest), Some(sha256)) => Some(
                            CheckView { sid, manifest, sha256 },
                        ),
                        _ => None,
                    },
            ),
            None => Seq::empty(),
        }),
{
    match doc.items_at("mods"@) {
        Some(items) => lemma_checks_among(items),
        None => {},
    }
}

proof fn lemma_checks_among(items: Seq<JsonView>)
    ensures
        checks_among(items) == items.filter_map(
            |m: JsonView|
                match (m.text_at("steam_id"@), m.text_at("manifest"@), m.text_at("sha256"@)) {
                    (Some(sid), Some(manifest), Some(sha256)) => Some(
                        CheckView { sid, manifest, sha256 },
                    ),
                    _ => None,
                },
        ),
    decreases items.len(),
{
    if items.len() > 0 {
        lemma_checks_among(items.drop_last());
    }
    let f = |m: JsonView|
        match (m.text_at("steam_id"@), m.text_at("manifest"@), m.text_at("sha256"@)) {
            (Some(sid), Some(manifest), Some(sha256)) => Some(CheckView { sid, manifest, sha256 }),
            _ => None,
        };
    assert(checks_among(items) =~= items.filter_map(f));
}

/// The pack belongs to the version of check `k`.
pub open spec fn belongs_to(p: PackView, k: int) -> bool {
    p.version is Some && p.version->0 as int == k
}

/// The hash of check `k` is that of a pack of its version, as far as the packs
/// were found and could be read.
pub open spec fn is_confirmed(checks: Seq<CheckView>, packs: Seq<PackView>, k: int) -> bool {
    (forall|j: int| 0 <= j < packs.len() ==> !belongs_to(#[trigger] packs[j], k)) || exists|j: int|
        0 <= j < packs.len() && belongs_to(#[trigger] packs[j], k) && (packs[j].actual is None
            || packs[j].actual == Some(checks[k].sha256))
}

/// A bundle is accepted exactly if no pack differs from the hash recorded beside
/// it and every hash of its profile is that of a pack of its version, as far as
/// the packs were found and could be read. The packs that are counted are those
/// with the hash that is recorded beside them or else in the profile.
pub proof fn accepted_bundles_are_verified(checks: Seq<CheckView>, packs: Seq<PackView>)
    ensures
        verdict(checks, packs) is Ok <==> {
            &&& forall|j: int|
                0 <= j < packs.len() && (#[trigger] packs[j]).recorded is Some
                    && packs[j].actual is Some ==> packs[j].recorded->0 == packs[j].actual->0
            &&& forall|k: int| 0 <= k < checks.len() ==> #[trigger] is_confirmed(checks, packs, k)
        },
        verdict(checks, packs) matches Ok(n) ==> n == packs.filter(
            |p: PackView|
                p.actual is Some && if p.recorded is Some {
                    p.recorded == p.actual
                } else {
                    p.version is Some && p.version->0 < checks.len() && p.actual == Some(
                        checks[p.version->0 as int].sha256,
                    )
                },
        ).len(),
{
    lemma_first_bad(packs, 0);
    lemma_first_disowned(checks, packs, 0);
    lemma_verified_count(checks, packs);
    let clean = forall|j: int|
        0 <= j < packs.len() && (#[trigger] packs[j]).recorded is Some && packs[j].actual is Some
            ==> packs[j].recorded->0 == packs[j].actual->0;
    assert(clean <==> first_bad(packs, 0) is None) by {
        if first_bad(packs, 0) is Some {
            let k = choose|k: int| 0 <= k < packs.len() && differs(#[trigger] packs[k]);
            assert(packs[k].recorded is Some && packs[k].actual is Some);
        }
        if !clean {
            let j = choose|j: int|
                0 <= j < packs.len() && (#[trigger] packs[j]).recorded is Some
                    && packs[j].actual is Some && packs[j].recorded->0 != packs[j].actual->0;
            assert(differs(packs[j]));
        }
    }
    assert forall|k: int| 0 <= k < checks.len() implies #[trigger] is_confirmed(checks, packs, k)
        == !is_disowned(checks, packs, k) by {
        lemma_confirmed(checks, packs, k);
    }
    if first_disowned(checks, packs, 0) is Some {
        let k = choose|k: int| 0 <= k < checks.len() && #[trigger] is_disowned(checks, packs, k);
        assert(!is_confirmed(checks, packs, k));
    } else {
        assert forall|k: int| 0 <= k < checks.len() implies #[trigger] is_confirmed(
            checks,
            packs,
            k,
        ) by {
            assert(!is_disowned(checks, packs, k));
        }
    }
}

proof fn lemma_confirmed(checks: Seq<CheckView>, packs: Seq<PackView>, k: int)
    requires
        0 <= k < checks.len(),
    ensures
        is_confirmed(checks, packs, k) == !is_disowned(checks, packs, k),
{
    lemma_first_of(packs, k, 0);
    assert forall|j: int| 0 <= j < packs.len() implies is_of(#[trigger] packs[j], k) == belongs_to(
        packs[j],
        k,
    ) by {}
    if first_of(packs, k, 0) is Some {
        let j = choose|j: int| 0 <= j < packs.len() && is_of(#[trigger] packs[j], k);
        assert(belongs_to(packs[j], k));
        if !is_disowned(checks, packs, k) {
            let i = choose|i: int|
                0 <= i < packs.len() && is_of(#[trigger] packs[i], k) && !(packs[i].actual is Some
                    && packs[i].actual != Some(checks[k].sha256));
            assert(belongs_to(packs[i], k));
        } else if is_confirmed(checks, packs, k) {
            let i = choose|i: int|
                0 <= i < packs.len() && belongs_to(#[trigger] packs[i], k) && (
                packs[i].actual is None || packs[i].actual == Some(checks[k].sha256));
            assert(is_of(packs[i], k));
        }
    } else {
        assert forall|j: int| 0 <= j < packs.len() implies !belongs_to(#[trigger] packs[j], k) by {
            assert(!is_of(packs[j], k));
        }
    }
}

proof fn lemma_verified_count(checks: Seq<CheckView>, packs: Seq<PackView>)
    ensures
        verified_among(checks, packs) == packs.filter(
            |p: PackView|
                p.actual is Some && if p.recorded is Some {
                    p.recorded == p.actual
                } else {
                    p.version is Some && p.version->0 < checks.len() && p.actual == Some(
                        checks[p.version->0 as int].sha256,
                    )
                },
        ).len(),
    decreases packs.len(),
{
    reveal(Seq::filter);
    if packs.len() > 0 {
        lemma_verified_count(checks, packs.drop_last());
    }
}

/// An imported profile gets the name that is given, else the one that its header
/// names, else that of the bundle's file without its endings.
pub proof fn imported_profiles_are_named(
    given: Seq<char>,
    header: JsonView,
    inner: Seq<char>,
    path: Seq<char>,
)
    requires
        header.text_at("profile"@) == Some(inner),
    ensures
        forall|h: Option<JsonView>| #[trigger] base_name(Some(given), h, path) == given,
        base_name(None, Some(header), path) == inner,
        forall|h: Option<JsonView>|
            (h matches Some(d) ==> d.text_at("profile"@) is None) && name_of(path) is None
                ==> #[trigger] base_name(None, h, path) == "imported"@,
{
}

/// A file of a bundle lies in a version exactly if its path begins with the id of
/// the item and the name of the version.
pub proof fn files_lie_in_their_version(
    c: CheckView,
    sid: Seq<char>,
    manifest: Seq<char>,
    rest: Seq<char>,
)
    requires
        plain_part(c.sid) && plain_part(c.manifest),
        plain_part(sid) && plain_part(manifest),
    ensures
        in_version(c, sid + seq!['/'] + manifest + seq!['/'] + rest) <==> c.sid == sid && c.manifest
            == manifest,
{
    plain_part_is_a_path(c.sid);
    plain_part_is_a_path(c.manifest);
    plain_part_is_a_path(sid);
    plain_part_is_a_path(manifest);
    joined_path_has_both_parts(c.sid, c.manifest);
    let below = manifest.push('/') + rest;
    let rel = sid + seq!['/'] + manifest + seq!['/'] + rest;
    assert(rel =~= sid.push('/') + below);
    parts_around_a_slash(sid, below);
    parts_around_a_slash(manifest, rest);
    let a = path_parts(path_join(c.sid, c.manifest));
    let b = path_parts(rel);
    assert(a =~= seq![c.sid, c.manifest]);
    assert(b =~= seq![sid, manifest] + path_parts(rest));
    if a.is_prefix_of(b) {
        assert(a[0] == b[0] && a[1] == b[1]);
    }
    if c.sid == sid && c.manifest == manifest {
        assert(a =~= b.subrange(0, 2));
    }
}

/// The packs that lie in no version of the profile are those whose every check is
/// of another version.
pub proof fn other_packs_lie_in_no_version(checks: Seq<CheckView>, rel: Seq<char>)
    ensures
        is_other_pack(checks, rel) <==> has_extension(rel, "pack"@) && !exists|k: int|
            0 <= k < checks.len() && in_version(#[trigger] checks[k], rel),
{
}

/// What a member of a bundle is goes by its path: the header and the profile by
/// their names, files below `packs` and `local` by their place there; folders and
/// everything else are passed over, and a path that climbs out is refused.
pub proof fn members_are_told_by_their_path(path: Seq<char>, is_dir: bool)
    ensures
        ({
            let r = member_kind(path, is_dir);
            let parts = path_parts(path);
            let plain = !seq!['/'].is_prefix_of(path) && path != seq!['.'] && !seq![
                '.',
                '/',
            ].is_prefix_of(path);
            let kept = plain && parts.len() > 0 && (parts[0] == "packs"@ || parts[0] == "local"@)
                && path != "bundle.json"@ && path != "profile.json"@;
            let climbs = exists|i: int| 1 <= i < parts.len() && #[trigger] parts[i] == ".."@;
            &&& r is Header <==> path == "bundle.json"@
            &&& r is Profile <==> path == "profile.json"@
            &&& r is Unsafe <==> kept && climbs
            &&& r is Pack <==> kept && !climbs && parts.len() > 1 && !is_dir && parts[0]
                == "packs"@
            &&& r is Local <==> kept && !climbs && parts.len() > 1 && !is_dir && parts[0]
                == "local"@
        }),
{
    lemma_starts(path);
    assert("bundle.json"@ != "profile.json"@) by {
        reveal_strlit("bundle.json");
        reveal_strlit("profile.json");
        assert("bundle.json"@.len() == 11 && "profile.json"@.len() == 12);
    }
    assert("packs"@ != "local"@) by {
        reveal_strlit("packs");
        reveal_strlit("local");
        assert("packs"@[0] == 'p' && "local"@[0] == 'l');
    }
    let parts = path_parts(path);
    let below = parts_below(path);
    if parts.len() > 0 {
        assert(below.contains(".."@) <==> exists|i: int|
            1 <= i < parts.len() && #[trigger] parts[i] == ".."@) by {
            if below.contains(".."@) {
                let i = choose|i: int| 0 <= i < below.len() && below[i] == ".."@;
                assert(parts[i + 1] == ".."@);
            }
            if exists|i: int| 1 <= i < parts.len() && #[trigger] parts[i] == ".."@ {
                let i = choose|i: int| 1 <= i < parts.len() && #[trigger] parts[i] == ".."@;
                assert(below[i - 1] == ".."@);
            }
        }
    }
}

/// What is told of an export: the profile, the file, how many packs went in and
/// how many mods had none, if any.
pub proof fn exports_are_reported(name: Seq<char>, path: Seq<char>, packs: nat, missing: nat)
    ensures
        missing == 0 ==> exported_text(name, path, packs, missing) == "Exported '"@ + name + "' → "@
            + path + " ("@ + decimal(packs) + " packs)"@,
        missing > 0 ==> exported_text(name, path, packs, missing) == "Exported '"@ + name + "' → "@
            + path + " ("@ + decimal(packs) + " packs, "@ + decimal(missing)
            + " without a stored pack)"@,
{
    reveal_strlit(" packs");
    reveal_strlit(")");
    reveal_strlit(" packs)");
    reveal_strlit(", ");
    reveal_strlit(" packs, ");
    reveal_strlit(" without a stored pack");
    reveal_strlit(" without a stored pack)");
    assert(" packs"@ + ")"@ =~= " packs)"@);
    assert(" packs"@ + ", "@ =~= " packs, "@);
    assert(" without a stored pack"@ + ")"@ =~= " without a stored pack)"@);
    let head = "Exported '"@ + name + "' → "@ + path + " ("@ + decimal(packs);
    if missing == 0 {
        assert(exported_text(name, path, packs, missing) =~= head + (" packs"@ + ")"@));
    } else {
        assert(exported_text(name, path, packs, missing) =~= head + (" packs"@ + ", "@) + decimal(
            missing,
        ) + (" without a stored pack"@ + ")"@));
    }
}

/// Without a name in the header an imported profile is called as the file of the
/// bundle, without the endings of bundles.
pub proof fn bundles_name_profiles_by_their_file(
    dir: Seq<char>,
    name: Seq<char>,
    header: Option<JsonView>,
)
    requires
        header matches Some(h) ==> h.text_at("profile"@) is None,
        name.len() > 0,
        !name.contains('/'),
        !".twwh3bundle"@.is_suffix_of(name),
    ensures
        base_name(None, header, path_join(dir, name + ".twwh3bundle.tar"@)) == name,
{
    reveal_strlit(".twwh3bundle.tar");
    reveal_strlit(".twwh3bundle");
    reveal_strlit(".tar");
    reveal_strlit(".");
    reveal_strlit("..");
    let (all, b, t) = (".twwh3bundle.tar"@, ".twwh3bundle"@, ".tar"@);
    assert(all =~= b + t);
    let file = name + all;
    assert(file.len() >= 17);
    assert(!all.contains('/')) by {
        if all.contains('/') {
            let i = choose|i: int| 0 <= i < all.len() && all[i] == '/';
            assert(false);
        }
    }
    assert(!file.contains('/')) by {
        if file.contains('/') {
            let i = choose|i: int| 0 <= i < file.len() && file[i] == '/';
            if i < name.len() {
                assert(name[i] == '/');
            } else {
                assert(all[i - name.len()] == '/');
            }
        }
    }
    files_are_called_by_their_name(dir, file);
    assert(file =~= (name + b) + t);
    let nb = name + b;
    suffixes_are_taken_off(nb, t);
    assert(!t.is_suffix_of(nb)) by {
        if t.is_suffix_of(nb) {
            assert(nb.subrange(nb.len() - 4, nb.len() as int)[0] == t[0]);
            assert(nb[nb.len() - 4] == b[8]);
            assert(b[8] == 'n');
        }
    }
    suffixes_are_taken_off(name, b);
}

/// A profile keeps its name where that is free, and gets the first free number
/// from 2 on where it is not; no file is ever written over.
pub proof fn imported_profiles_get_a_free_name(
    files: Seq<Seq<char>>,
    base: Seq<char>,
    name: Seq<char>,
)
    requires
        is_unique_name(files, base, name),
    ensures
        !files.contains(name + ".json"@),
        !files.contains(base + ".json"@) ==> name == base,
        files.contains(base + ".json"@) ==> exists|n: nat|
            n >= 2 && name == base + " "@ + #[trigger] decimal(n) && forall|k: nat|
                2 <= k < n ==> files.contains(base + " "@ + #[trigger] decimal(k) + ".json"@),
{
    if is_taken(files, base) {
        let n = choose|n: nat| #[trigger] is_first_free(files, base, n) && name == numbered(base, n);
        assert forall|k: nat| 2 <= k < n implies files.contains(
            base + " "@ + #[trigger] decimal(k) + ".json"@,
        ) by {
            assert(is_taken(files, numbered(base, k)));
        }
        assert(name == base + " "@ + decimal(n));
    }
}

/// A bundle that is refused is refused for a pack: the first that is not the one
/// recorded beside it, or else the first of the first version none of whose packs
/// has the recorded hash.
pub proof fn refused_bundles_name_a_pack(checks: Seq<CheckView>, packs: Seq<PackView>, j: int)
    requires
        0 <= j < packs.len(),
        packs[j].recorded is Some && packs[j].actual is Some && packs[j].recorded
            != packs[j].actual,
        forall|i: int|
            0 <= i < j ==> !((#[trigger] packs[i]).recorded is Some && packs[i].actual is Some
                && packs[i].recorded != packs[i].actual),
    ensures
        verdict(checks, packs) == Err::<nat, Seq<char>>(packs[j].name),
{
    lemma_bad_at(packs, 0, j);
}

proof fn lemma_bad_at(packs: Seq<PackView>, from: int, j: int)
    requires
        0 <= from <= j < packs.len(),
        packs[j].recorded is Some && packs[j].actual is Some && packs[j].recorded
            != packs[j].actual,
        forall|i: int|
            0 <= i < j ==> !((#[trigger] packs[i]).recorded is Some && packs[i].actual is Some
                && packs[i].recorded != packs[i].actual),
    ensures
        first_bad(packs, from) == Some(j),
    decreases j - from,
{
    if from < j {
        assert(!(packs[from].recorded is Some && packs[from].actual is Some
            && packs[from].recorded != packs[from].actual));
        lemma_bad_at(packs, from + 1, j);
    }
}

/// What goes into a bundle for a mod.
pub open spec fn members_for(e: MlView, files: Seq<FoundFile>) -> (Seq<Seq<char>>, bool) {
    (files.map_values(|f: FoundFile| member_of(e, f.rel@)), any_pack(files))
}

/// Every file of a mod goes into the bundle, in order, and each comes back to its
/// place; the mod counts as one with a pack exactly if a pack is among them.
pub proof fn every_file_of_a_mod_is_exported(
    e: MlView,
    files: Seq<FoundFile>,
    vault: Seq<char>,
    local: Seq<char>,
    k: int,
)
    requires
        0 <= k < files.len(),
        from_root(vault) && from_root(local),
        !from_root(files[k].rel@),
        path_parts(files[k].rel@).len() > 0,
        !path_parts(files[k].rel@).contains(".."@),
        e.local ==> plain_part(e.id) && e.id != ".."@,
        !e.local ==> e.steam_id is Some && e.manifest is Some && plain_part(e.steam_id->0)
            && e.steam_id->0 != ".."@ && plain_part(e.manifest->0) && e.manifest->0 != ".."@,
    ensures
        members_for(e, files).0.len() == files.len(),
        members_for(e, files).1 <==> exists|i: int|
            0 <= i < files.len() && has_extension((#[trigger] files[i]).abs@, "pack"@),
        e.local ==> (member_kind(members_for(e, files).0[k], false) matches MemberView::Local(below)
            && same_paths(
            path_join(local, below),
            path_join(path_join(local, e.id), files[k].rel@),
        )),
        !e.local ==> (member_kind(members_for(e, files).0[k], false) matches MemberView::Pack(below)
            && same_paths(
            path_join(vault, below),
            path_join(
                path_join(path_join(vault, e.steam_id->0), e.manifest->0),
                files[k].rel@,
            ),
        )),
{
    exported_files_return_to_their_place(e, vault, local, files[k].rel@);
}

} // verus!
