//! The store of Workshop mod versions: where files lie, what is recorded of a
//! version, and content hashes.

use sha2::{Digest, Sha256};
use vstd::prelude::*;
use vstd::string::StringExecFns;

use crate::json::{
    parse_json, parsed_json, plain_members, pretty_json, put, to_string_pretty, Json, JsonNumber,
    JsonView,
};
use crate::model::{find_with_extension, first_with_extension, FoundFile};
use crate::paths::{
    dir_of, extension_is, extension_of, file_name, file_stem, files_are_called_by_their_name,
    from_root, has_extension, join_path, joined_path_has_both_parts, last_index, name_of,
    names_end_in_their_extension, parts_are_plain, path_join, path_parts, plain_part,
    plain_part_is_a_path, sibling, siblings_share_their_directory, stem_of, with_file_name,
    without_tail,
};
use crate::text::{
    ascii_lower, decimal, digit_char, opt_text, same, same_ignoring_case, texts, to_chars,
    to_decimal, trim, trimmed, white,
};

verus! {

/// The folder of one version of a Workshop item.
pub open spec fn version_path(vault: Seq<char>, sid: Seq<char>, manifest: Seq<char>) -> Seq<char> {
    path_join(path_join(vault, sid), manifest)
}

/// The folder of one version of a Workshop item in the store `vault`.
pub fn version_dir(vault: &str, sid: &str, manifest: &str) -> (r: String)
    ensures
        r@ == version_path(vault@, sid@, manifest@),
{
    join_path(join_path(vault, sid).as_str(), manifest)
}

/// The record of a stored version, which lies beside its files.
pub fn version_meta_path(vault: &str, sid: &str, manifest: &str) -> (r: String)
    ensures
        r@ == path_join(version_path(vault@, sid@, manifest@), ".meta.json"@),
{
    join_path(version_dir(vault, sid, manifest).as_str(), ".meta.json")
}

/// Where the pack `pack` lies in a stored version.
pub open spec fn stored_pack(
    vault: Seq<char>,
    sid: Seq<char>,
    manifest: Seq<char>,
    pack: Seq<char>,
) -> Option<Seq<char>> {
    match name_of(pack) {
        Some(n) => Some(path_join(version_path(vault, sid, manifest), n)),
        None => None,
    }
}

/// Where the pack `pack` lies in a stored version.
pub fn stored_pack_path(vault: &str, sid: &str, manifest: &str, pack: &str) -> (r: Option<String>)
    ensures
        opt_text(r) == stored_pack(vault@, sid@, manifest@, pack@),
{
    match file_name(pack) {
        Some(n) => Some(join_path(version_dir(vault, sid, manifest).as_str(), n.as_str())),
        None => None,
    }
}

/// The file with the hash of a pack, beside the pack.
pub open spec fn sidecar(pack: Seq<char>) -> Seq<char> {
    sibling(
        pack,
        (match name_of(pack) {
            Some(n) => n,
            None => Seq::empty(),
        }) + ".sha256"@,
    )
}

/// The file with the hash of a pack, beside the pack.
pub fn sha256_sidecar(pack: &str) -> (r: String)
    ensures
        r@ == sidecar(pack@),
{
    let name = match file_name(pack) {
        Some(n) => n,
        None => String::new(),
    };
    with_file_name(pack, name.concat(".sha256").as_str())
}

/// A file in the folder of a stored version is the store's own and no file of
/// the mod: the record of the version, the recorded hash of a pack, or an
/// unfinished copy.
pub open spec fn is_store_record(rel: Seq<char>) -> bool {
    ||| rel == ".meta.json"@
    ||| has_extension(rel, "sha256"@) && (stem_of(rel) matches Some(s) && has_extension(
        s,
        "pack"@,
    ))
    ||| has_extension(rel, "tmp"@) && (name_of(rel) matches Some(n) && n.len() > 0 && n[0] == '.')
}

/// Whether a file in the folder of a stored version is the store's own.
pub fn is_record_of_store(rel: &str) -> (r: bool)
    ensures
        r == is_store_record(rel@),
{
    if same(rel, ".meta.json") {
        return true;
    }
    let hash = extension_is(rel, "sha256") && (match file_stem(rel) {
        Some(s) => extension_is(s.as_str(), "pack"),
        None => false,
    });
    let unfinished = extension_is(rel, "tmp") && (match file_name(rel) {
        Some(n) => {
            let v = to_chars(n.as_str());
            v.len() > 0 && v[0] == '.'
        },
        None => false,
    });
    hash || unfinished
}

/// The first pack among the files of a stored version.
pub fn find_stored_pack(paths: &Vec<String>) -> (r: Option<String>)
    ensures
        opt_text(r) == first_with_extension(texts(paths@), "pack"@),
{
    find_with_extension(paths, "pack")
}

/// The hash that a sidecar records: its text, unless it is blank.
pub open spec fn recorded(text: Option<Seq<char>>) -> Option<Seq<char>> {
    match text {
        Some(t) => if trimmed(t).len() > 0 {
            Some(trimmed(t))
        } else {
            None
        },
        None => None,
    }
}

/// The hash that a sidecar records, given its text if it could be read.
/// Without one the pack itself has to be hashed.
pub fn recorded_sha256(sidecar_text: Option<&str>) -> (r: Option<String>)
    ensures
        opt_text(r) == recorded(
            match sidecar_text {
                Some(t) => Some(t@),
                None => None,
            },
        ),
{
    match sidecar_text {
        Some(t) => {
            let s = trim(t);
            if s.as_str().is_empty() {
                None
            } else {
                Some(s)
            }
        },
        None => None,
    }
}

/// A Workshop mod's folder that is to be stored as one version.
pub struct StoreRequest {
    pub sid: String,
    pub manifest: String,
    /// The mod's folder.
    pub dir: String,
    pub timeupdated: u64,
    pub size: u64,
}

/// What a request to store a version says.
pub struct StoreView {
    pub sid: Seq<char>,
    pub manifest: Seq<char>,
    pub dir: Seq<char>,
    pub timeupdated: u64,
    pub size: u64,
}

impl View for StoreRequest {
    type V = StoreView;

    open spec fn view(&self) -> StoreView {
        StoreView {
            sid: self.sid@,
            manifest: self.manifest@,
            dir: self.dir@,
            timeupdated: self.timeupdated,
            size: self.size,
        }
    }
}

/// What the requests to store versions say.
pub open spec fn store_views(v: Seq<StoreRequest>) -> Seq<StoreView> {
    v.map_values(|q: StoreRequest| q@)
}

/// One file to be copied into the store: first to `tmp`, so that an
/// interrupted copy is not taken for a complete file, and then renamed.
pub struct CopyStep {
    pub src: String,
    pub tmp: String,
    pub dst: String,
    /// Its hash is to be recorded beside it.
    pub is_pack: bool,
}

/// What a copy step says.
pub struct CopyView {
    pub src: Seq<char>,
    pub tmp: Seq<char>,
    pub dst: Seq<char>,
    pub is_pack: bool,
}

impl View for CopyStep {
    type V = CopyView;

    open spec fn view(&self) -> CopyView {
        CopyView { src: self.src@, tmp: self.tmp@, dst: self.dst@, is_pack: self.is_pack }
    }
}

/// What the copy steps say.
pub open spec fn copy_views(v: Seq<CopyStep>) -> Seq<CopyView> {
    v.map_values(|c: CopyStep| c@)
}

/// How one file goes into the version folder `to`.
pub open spec fn copy_of(to: Seq<char>, f: FoundFile) -> CopyView {
    let dst = path_join(to, f.rel@);
    let name = match name_of(f.rel@) {
        Some(n) => n,
        None => "f"@,
    };
    CopyView {
        src: f.abs@,
        tmp: sibling(dst, "."@ + name + ".tmp"@),
        dst,
        is_pack: has_extension(f.abs@, "pack"@),
    }
}

/// How the files that are not yet in the version folder `to` go there.
pub open spec fn copies_to(to: Seq<char>, files: Seq<FoundFile>, there: Seq<bool>) -> Seq<CopyView>
    decreases files.len(),
{
    if files.len() == 0 {
        Seq::empty()
    } else {
        let rest = copies_to(to, files.drop_last(), there.drop_last());
        if there.last() {
            rest
        } else {
            rest.push(copy_of(to, files.last()))
        }
    }
}

/// A file that is being copied into the store lies beside its place under a
/// name that no pack has, so that an interrupted copy is not taken for a stored
/// pack.
pub proof fn unfinished_copies_are_no_packs(to: Seq<char>, f: FoundFile)
    requires
        name_of(f.rel@) is Some,
    ensures
        name_of(copy_of(to, f).tmp) == Some("."@ + name_of(f.rel@)->0 + ".tmp"@),
        !has_extension(copy_of(to, f).tmp, "pack"@),
        copy_of(to, f).tmp != copy_of(to, f).dst,
{
    reveal_strlit(".");
    reveal_strlit("..");
    reveal_strlit(".tmp");
    reveal_strlit("pack");
    let name = name_of(f.rel@)->0;
    let n = "."@ + name + ".tmp"@;
    let c = copy_of(to, f);
    parts_are_plain(f.rel@);
    let parts = path_parts(f.rel@);
    assert(plain_part(parts[parts.len() - 1]));
    assert(n.len() == name.len() + 5);
    assert(!n.contains('/')) by {
        if n.contains('/') {
            let j = choose|j: int| 0 <= j < n.len() && n[j] == '/';
            assert(1 <= j < 1 + name.len());
            assert(name[j - 1] == '/');
        }
    }
    assert(n != "."@ && n != ".."@);
    plain_part_is_a_path(n);
    let dir = match name_of(c.dst) {
        Some(_) => dir_of(c.dst),
        None => c.dst,
    };
    assert(c.tmp == path_join(dir, n));
    joined_path_has_both_parts(dir, n);
    assert(path_parts(c.tmp).last() == n);
    assert(name_of(c.tmp) == Some(n));
    lemma_last_dot(n, name.len() as int + 1);
    assert(extension_of(c.tmp) == Some(n.skip(name.len() as int + 2)));
    assert(n.skip(name.len() as int + 2).len() == 3);
    if c.tmp == c.dst {
        if from_root(f.rel@) {
            assert(c.dst == f.rel@);
        } else {
            joined_path_has_both_parts(to, f.rel@);
            assert(path_parts(c.dst).last() == name);
        }
        assert(n.len() == name.len());
    }
}

/// The last dot of a text that ends in a dot and three other characters.
proof fn lemma_last_dot(n: Seq<char>, i: int)
    requires
        0 <= i,
        n.len() == i + 4,
        n[i] == '.',
        n[i + 1] != '.' && n[i + 2] != '.' && n[i + 3] != '.',
    ensures
        last_index(n, '.') == i,
{
    let a = n.drop_last();
    let b = a.drop_last();
    let c = b.drop_last();
    assert(last_index(n, '.') == last_index(a, '.'));
    assert(last_index(a, '.') == last_index(b, '.'));
    assert(last_index(b, '.') == last_index(c, '.'));
    assert(c.last() == '.');
}

/// The path at which a mod's file lies in a stored version.
pub fn stored_file(vault: &str, sid: &str, manifest: &str, rel: &str) -> (r: String)
    ensures
        r@ == path_join(version_path(vault@, sid@, manifest@), rel@),
{
    join_path(version_dir(vault, sid, manifest).as_str(), rel)
}

/// How to store a Workshop mod's whole folder as one version: every file that
/// is not there yet is copied. `there[i]` says whether file `i` is already in
/// the store. Without a manifest nothing is stored.
pub fn store_mod_version(
    vault: &str,
    sid: &str,
    manifest: &str,
    files: &Vec<FoundFile>,
    there: &Vec<bool>,
) -> (r: Vec<CopyStep>)
    requires
        files@.len() == there@.len(),
    ensures
        copy_views(r@) == version_copies(vault@, sid@, manifest@, files@, there@),
        copy_views(r@) == (if manifest@.len() == 0 {
            Seq::empty()
        } else {
            copies_to(version_path(vault@, sid@, manifest@), files@, there@)
        }),
{
    let mut out: Vec<CopyStep> = Vec::new();
    if manifest.is_empty() {
        assert(copy_views(out@) =~= Seq::<CopyView>::empty());
        return out;
    }
    let to = version_dir(vault, sid, manifest);
    let mut i: usize = 0;
    assert(files@.take(0) =~= Seq::<FoundFile>::empty());
    assert(copy_views(out@) =~= copies_to(to@, files@.take(0), there@.take(0)));
    while i < files.len()
        invariant
            i <= files@.len() == there@.len(),
            copy_views(out@) == copies_to(to@, files@.take(i as int), there@.take(i as int)),
        decreases files@.len() - i,
    {
        proof {
            assert(files@.take(i + 1).drop_last() =~= files@.take(i as int));
            assert(there@.take(i + 1).drop_last() =~= there@.take(i as int));
            assert(files@.take(i + 1).last() == files@[i as int]);
            assert(there@.take(i + 1).last() == there@[i as int]);
        }
        if !there[i] {
            let f = &files[i];
            let dst = join_path(to.as_str(), f.rel.as_str());
            let name = match file_name(f.rel.as_str()) {
                Some(n) => n,
                None => "f".to_owned(),
            };
            let hidden = ".".to_owned().concat(name.as_str()).concat(".tmp");
            let tmp = with_file_name(dst.as_str(), hidden.as_str());
            let is_pack = extension_is(f.abs.as_str(), "pack");
            let step = CopyStep { src: f.abs.clone(), tmp, dst, is_pack };
            let ghost o0 = out@;
            out.push(step);
            assert(copy_views(out@) =~= copy_views(o0).push(step@));
        }
        i = i + 1;
    }
    assert(files@.take(i as int) =~= files@);
    assert(there@.take(i as int) =~= there@);
    out
}

/// The record of a stored version.
pub open spec fn meta_json(
    manifest: Seq<char>,
    timeupdated: u64,
    size: u64,
    stored_at: u64,
) -> JsonView {
    JsonView::Object(
        Map::<Seq<char>, JsonView>::empty().insert("manifest"@, JsonView::Str(manifest)).insert(
            "timeupdated"@,
            JsonView::Number(JsonNumber::Unsigned(timeupdated)),
        ).insert("size"@, JsonView::Number(JsonNumber::Unsigned(size))).insert(
            "stored_at"@,
            JsonView::Number(JsonNumber::Unsigned(stored_at)),
        ),
    )
}

/// A record is to be written: the version's folder is there, and no record that
/// may know the time is lost to one that does not.
pub open spec fn is_recorded(dir_exists: bool, record_exists: bool, timeupdated: u64) -> bool {
    dir_exists && (timeupdated > 0 || !record_exists)
}

/// The record to write of a stored version, if one is to be written: the
/// version's folder must be there, and a record that is there is not replaced
/// by one that knows no time.
pub fn write_version_meta(
    dir_exists: bool,
    record_exists: bool,
    manifest: &str,
    timeupdated: u64,
    size: u64,
    stored_at: u64,
) -> (r: Option<String>)
    ensures
        r is Some <==> is_recorded(dir_exists, record_exists, timeupdated),
        r is Some <==> dir_exists && !(timeupdated == 0 && record_exists),
        r is Some ==> r->0@ == pretty_json(meta_json(manifest@, timeupdated, size, stored_at))
            && parsed_json(r->0@) == Some(meta_json(manifest@, timeupdated, size, stored_at)),
{
    if !dir_exists || (timeupdated == 0 && record_exists) {
        return None;
    }
    let mut o: Vec<(String, Json)> = Vec::new();
    put(&mut o, "manifest", Json::Str(manifest.to_owned()));
    put(&mut o, "timeupdated", Json::Number(JsonNumber::Unsigned(timeupdated)));
    put(&mut o, "size", Json::Number(JsonNumber::Unsigned(size)));
    put(&mut o, "stored_at", Json::Number(JsonNumber::Unsigned(stored_at)));
    assert(plain_members(o@, 126));
    let doc = Json::Object(o);
    Some(to_string_pretty(&doc))
}

/// The update time and the size that a record gives, 0 where it gives none.
pub open spec fn meta_values(doc: Option<JsonView>) -> (u64, u64) {
    match doc {
        Some(d) => (
            match d.unsigned_at("timeupdated"@) {
                Some(n) => n,
                None => 0,
            },
            match d.unsigned_at("size"@) {
                Some(n) => n,
                None => 0,
            },
        ),
        None => (0, 0),
    }
}

/// The update time and the size that a record gives.
pub fn version_meta(doc: &Json) -> (r: (u64, u64))
    ensures
        r == meta_values(Some(doc@)),
{
    let t: u64 = match doc.u64_at("timeupdated") {
        Some(n) => n,
        None => 0,
    };
    let s: u64 = match doc.u64_at("size") {
        Some(n) => n,
        None => 0,
    };
    (t, s)
}

/// The update time and the size recorded for a stored version, given the
/// record if it could be read; 0 where unknown.
pub fn read_version_meta(text: Option<&str>) -> (r: (u64, u64))
    ensures
        r == meta_values(
            match text {
                Some(t) => parsed_json(t@),
                None => None,
            },
        ),
{
    match text {
        Some(t) => match parse_json(t) {
            Ok(doc) => version_meta(&doc),
            Err(_) => (0, 0),
        },
        None => (0, 0),
    }
}

/// What a record of a version says is read back from it.
pub proof fn version_record_reads_back(
    manifest: Seq<char>,
    timeupdated: u64,
    size: u64,
    stored_at: u64,
)
    ensures
        meta_values(Some(meta_json(manifest, timeupdated, size, stored_at))) == (timeupdated, size),
{
    reveal_strlit("timeupdated");
    reveal_strlit("size");
    reveal_strlit("stored_at");
    reveal_strlit("manifest");
    assert("timeupdated"@.len() == 11 && "size"@.len() == 4 && "stored_at"@.len() == 9);
}

/// `n / d` rounded to the nearest whole number, a half to the even one.
pub open spec fn half_even(n: nat, d: nat) -> nat {
    let q = n / d;
    let r = n % d;
    if 2 * r > d || (2 * r == d && q % 2 == 1) {
        q + 1
    } else {
        q
    }
}

/// The power of two that is the unit of a number held with 53 binary digits.
pub open spec fn double_unit(b: nat) -> nat
    decreases b,
{
    if b < 0x20_0000_0000_0000 {
        1
    } else {
        2 * double_unit(b / 2)
    }
}

/// The number that stands for `b` in double precision: the nearest with 53
/// binary digits.
pub open spec fn double_of(b: nat) -> nat {
    half_even(b, double_unit(b)) * double_unit(b)
}

/// `n / d` with one digit after the point.
pub open spec fn one_place(n: nat, d: nat) -> Seq<char> {
    decimal(half_even(10 * n, d) / 10) + "."@ + decimal(half_even(10 * n, d) % 10)
}

/// A number of bytes in the largest binary unit that it fills.
pub open spec fn size_text(b: nat) -> Seq<char> {
    if b >= 0x4000_0000 {
        one_place(double_of(b), 0x4000_0000) + " GiB"@
    } else if b >= 0x10_0000 {
        one_place(b, 0x10_0000) + " MiB"@
    } else if b >= 0x400 {
        decimal(half_even(b, 0x400)) + " KiB"@
    } else {
        decimal(b) + " B"@
    }
}

fn round_half_even(n: u128, d: u128) -> (r: u128)
    requires
        0 < d < 0x1_0000_0000_0000_0000,
    ensures
        r == half_even(n as nat, d as nat),
        r <= n,
        d == 1 ==> r == n,
{
    let q: u128 = n / d;
    let m: u128 = n % d;
    proof {
        assert(q <= n && m < d && n == d * q + m) by (nonlinear_arith)
            requires
                q == n / d,
                m == n % d,
                d > 0,
        ;
        if d == 1 {
            assert(m == 0);
        }
        if q == n && m > 0 {
            assert(d * q >= q) by (nonlinear_arith)
                requires
                    d >= 1,
                    q >= 0,
            ;
        }
    }
    if 2 * m > d || (2 * m == d && q % 2 == 1) {
        q + 1
    } else {
        q
    }
}

/// The unit of a number held with 53 binary digits.
fn unit_of_double(b: u64) -> (r: u64)
    ensures
        r == double_unit(b as nat),
        1 <= r <= 2048,
{
    proof {
        reveal_with_fuel(double_unit, 13);
    }
    if b < 0x20_0000_0000_0000 {
        1
    } else if b < 0x40_0000_0000_0000 {
        2
    } else if b < 0x80_0000_0000_0000 {
        4
    } else if b < 0x100_0000_0000_0000 {
        8
    } else if b < 0x200_0000_0000_0000 {
        16
    } else if b < 0x400_0000_0000_0000 {
        32
    } else if b < 0x800_0000_0000_0000 {
        64
    } else if b < 0x1000_0000_0000_0000 {
        128
    } else if b < 0x2000_0000_0000_0000 {
        256
    } else if b < 0x4000_0000_0000_0000 {
        512
    } else if b < 0x8000_0000_0000_0000 {
        1024
    } else {
        2048
    }
}

/// `n / d` with one digit after the point.
fn with_one_place(n: u128, d: u128) -> (r: String)
    requires
        n < 0x1000_0000_0000_0000_0000,
        0x10_0000 <= d < 0x1_0000_0000_0000_0000,
    ensures
        r@ == one_place(n as nat, d as nat),
{
    let t: u128 = round_half_even(10 * n, d);
    proof {
        let m = 10 * n;
        assert(m / (d as int) <= m / 0x10_0000) by (nonlinear_arith)
            requires
                m >= 0,
                d >= 0x10_0000,
        ;
        assert(t <= m / (d as int) + 1);
    }
    let whole: u64 = (t / 10) as u64;
    let tenth: u64 = (t % 10) as u64;
    to_decimal(whole).concat(".").concat(to_decimal(tenth).as_str())
}

/// A number of bytes in the largest binary unit that it fills.
pub fn human_size(b: u64) -> (r: String)
    ensures
        r@ == size_text(b as nat),
{
    if b >= 0x4000_0000 {
        let u: u64 = unit_of_double(b);
        let k: u128 = round_half_even(b as u128, u as u128);
        assert(k * u <= 0x1_0000_0000_0000_0000 * 2048) by (nonlinear_arith)
            requires
                k <= 0xffff_ffff_ffff_ffff,
                u <= 2048,
        ;
        let n: u128 = k * (u as u128);
        with_one_place(n, 0x4000_0000).concat(" GiB")
    } else if b >= 0x10_0000 {
        with_one_place(b as u128, 0x10_0000).concat(" MiB")
    } else if b >= 0x400 {
        let k: u128 = round_half_even(b as u128, 0x400);
        to_decimal(k as u64).concat(" KiB")
    } else {
        to_decimal(b).concat(" B")
    }
}

/// The sum of the sizes.
pub open spec fn total(sizes: Seq<u64>) -> nat
    decreases sizes.len(),
{
    if sizes.len() == 0 {
        0
    } else {
        total(sizes.drop_last()) + sizes.last() as nat
    }
}

/// The sum of all sizes.
pub open spec fn grand_total(versions: Seq<Vec<u64>>) -> nat
    decreases versions.len(),
{
    if versions.len() == 0 {
        0
    } else {
        grand_total(versions.drop_last()) + total(versions.last()@)
    }
}

proof fn lemma_total_grows(sizes: Seq<u64>, n: int)
    requires
        0 <= n <= sizes.len(),
    ensures
        total(sizes.take(n)) <= total(sizes),
    decreases sizes.len() - n,
{
    if n < sizes.len() {
        lemma_total_grows(sizes, n + 1);
        assert(sizes.take(n + 1).drop_last() =~= sizes.take(n));
    } else {
        assert(sizes.take(n) =~= sizes);
    }
}

proof fn lemma_grand_total_grows(versions: Seq<Vec<u64>>, n: int)
    requires
        0 <= n <= versions.len(),
    ensures
        grand_total(versions.take(n)) <= grand_total(versions),
    decreases versions.len() - n,
{
    if n < versions.len() {
        lemma_grand_total_grows(versions, n + 1);
        assert(versions.take(n + 1).drop_last() =~= versions.take(n));
    } else {
        assert(versions.take(n) =~= versions);
    }
}

fn sum(sizes: &Vec<u64>) -> (r: u64)
    requires
        total(sizes@) <= u64::MAX,
    ensures
        r == total(sizes@),
{
    let mut n: u64 = 0;
    let mut i: usize = 0;
    while i < sizes.len()
        invariant
            i <= sizes@.len(),
            total(sizes@) <= u64::MAX,
            n == total(sizes@.take(i as int)),
        decreases sizes@.len() - i,
    {
        proof {
            assert(sizes@.take(i + 1).drop_last() =~= sizes@.take(i as int));
            lemma_total_grows(sizes@, i + 1);
        }
        n = n + sizes[i];
        i = i + 1;
    }
    assert(sizes@.take(i as int) =~= sizes@);
    n
}

/// How many versions are stored, and their bytes in all, given the sizes of
/// the files in each version's folder.
pub fn versioned_mods_stats(versions: &Vec<Vec<u64>>) -> (r: (usize, u64))
    requires
        grand_total(versions@) <= u64::MAX,
    ensures
        r.0 == versions@.len(),
        r.1 == grand_total(versions@),
{
    let mut n: u64 = 0;
    let mut i: usize = 0;
    while i < versions.len()
        invariant
            i <= versions@.len(),
            grand_total(versions@) <= u64::MAX,
            n == grand_total(versions@.take(i as int)),
        decreases versions@.len() - i,
    {
        proof {
            assert(versions@.take(i + 1).drop_last() =~= versions@.take(i as int));
            lemma_grand_total_grows(versions@, i + 1);
        }
        n = n + sum(&versions[i]);
        i = i + 1;
    }
    assert(versions@.take(i as int) =~= versions@);
    (versions.len(), n)
}

/// The SHA-256 hasher of `sha2`.
#[verifier::external_type_specification]
#[verifier::external_body]
pub struct ExSha256(Sha256);

/// The bytes that a hasher has taken in.
pub uninterp spec fn hasher_input(h: Sha256) -> Seq<u8>;

/// The SHA-256 hash of bytes, as `sha2` computes it.
pub uninterp spec fn sha256_digest(data: Seq<u8>) -> Seq<u8>;

/// `Sha256::new`: a hasher that has taken in nothing.
#[verifier::external_body]
fn hasher_new() -> (h: Sha256)
    ensures
        hasher_input(h) == Seq::<u8>::empty(),
{
    Sha256::new()
}

/// `Digest::update`: the hasher takes in the bytes after those before.
#[verifier::external_body]
fn hasher_update(h: &mut Sha256, data: &[u8])
    ensures
        hasher_input(*final(h)) == hasher_input(*old(h)) + data@,
{
    h.update(data)
}

/// `Digest::finalize`: the 32 bytes of the hash, as [`sha256_digest`] names
/// it, of all that the hasher has taken in.
#[verifier::external_body]
fn hasher_finalize(h: Sha256) -> (r: Vec<u8>)
    ensures
        r@ == sha256_digest(hasher_input(h)),
        r@.len() == 32,
{
    h.finalize().to_vec()
}

/// A hexadecimal digit in lower case.
pub open spec fn hex_digit(d: nat) -> char {
    if d < 10 {
        digit_char(d)
    } else {
        (87 + d) as char
    }
}

/// Bytes in hexadecimal, two digits each.
pub open spec fn hex_text(data: Seq<u8>) -> Seq<char>
    decreases data.len(),
{
    if data.len() == 0 {
        Seq::empty()
    } else {
        hex_text(data.drop_last()).push(hex_digit(data.last() as nat / 16)).push(
            hex_digit(data.last() as nat % 16),
        )
    }
}

fn hex_char(d: u8) -> (r: char)
    requires
        d < 16,
    ensures
        r == hex_digit(d as nat),
{
    if d < 10 {
        (48 + d) as char
    } else {
        (87 + d) as char
    }
}

/// Bytes in hexadecimal.
pub fn to_hex(data: &Vec<u8>) -> (r: String)
    ensures
        r@ == hex_text(data@),
{
    let mut s: String = String::new();
    let mut i: usize = 0;
    assert(data@.take(0) =~= Seq::<u8>::empty());
    assert(s@ =~= hex_text(data@.take(0)));
    while i < data.len()
        invariant
            i <= data@.len(),
            s@ == hex_text(data@.take(i as int)),
        decreases data@.len() - i,
    {
        assert(data@.take(i + 1).drop_last() =~= data@.take(i as int));
        let b: u8 = data[i];
        s.push(hex_char(b / 16));
        s.push(hex_char(b % 16));
        i = i + 1;
    }
    assert(data@.take(i as int) =~= data@);
    s
}

proof fn lemma_hex_text(data: Seq<u8>)
    ensures
        hex_text(data).len() == 2 * data.len(),
        forall|i: int| 0 <= i < hex_text(data).len() ==> !white(#[trigger] hex_text(data)[i]),
    decreases data.len(),
{
    if data.len() > 0 {
        lemma_hex_text(data.drop_last());
        let h = hex_text(data.drop_last());
        let b = data.last() as nat;
        assert(b / 16 < 16 && b % 16 < 16);
        assert forall|i: int| 0 <= i < hex_text(data).len() implies !white(
            #[trigger] hex_text(data)[i],
        ) by {
            if i < h.len() {
                assert(hex_text(data)[i] == h[i]);
            }
        }
    }
}

/// A hash that was recorded beside a pack is read back.
pub proof fn recorded_hash_reads_back(data: Seq<u8>)
    requires
        data.len() > 0,
    ensures
        recorded(Some(hex_text(data))) == Some(hex_text(data)),
{
    lemma_hex_text(data);
    let h = hex_text(data);
    assert(!white(h[0]) && !white(h[h.len() - 1]));
    assert(trimmed(h) == h);
}

/// A content hash in the making: a pack is fed piece by piece.
pub struct PackHash {
    hasher: Sha256,
}

impl PackHash {
    /// What has been fed so far.
    pub closed spec fn input(self) -> Seq<u8> {
        hasher_input(self.hasher)
    }

    pub fn new() -> (r: PackHash)
        ensures
            r.input() == Seq::<u8>::empty(),
    {
        PackHash { hasher: hasher_new() }
    }

    /// Take in the next piece.
    pub fn feed(&mut self, piece: &[u8])
        ensures
            final(self).input() == old(self).input() + piece@,
    {
        hasher_update(&mut self.hasher, piece);
    }

    /// The SHA-256 hash of what was fed, in hexadecimal.
    pub fn pack_sha256(self) -> (r: String)
        ensures
            r@ == hex_text(sha256_digest(self.input())),
    {
        to_hex(&hasher_finalize(self.hasher))
    }
}

/// A stored version is a faithful copy: every file that is not there yet is
/// copied from the mod's folder to its place in the folder of the version, in
/// order, and no other file; the hash of every pack is recorded.
pub proof fn stored_versions_are_faithful(
    vault: Seq<char>,
    sid: Seq<char>,
    manifest: Seq<char>,
    files: Seq<FoundFile>,
    there: Seq<bool>,
)
    requires
        files.len() == there.len(),
    ensures
        ({
            let r = copies_to(version_path(vault, sid, manifest), files, there);
            let new = Seq::new(files.len(), |k: int| k).filter(|k: int| !there[k]);
            &&& r.len() == new.len()
            &&& forall|j: int|
                0 <= j < r.len() ==> 0 <= #[trigger] new[j] < files.len() && !there[new[j]]
            &&& forall|j: int|
                #![trigger r[j]]
                0 <= j < r.len() ==> {
                    let f = files[new[j]];
                    &&& r[j].src == f.abs@
                    &&& r[j].dst == path_join(path_join(path_join(vault, sid), manifest), f.rel@)
                    &&& r[j].is_pack == has_extension(f.abs@, "pack"@)
                }
            &&& forall|k: int|
                0 <= k < files.len() && !(#[trigger] there[k]) ==> exists|j: int|
                    0 <= j < r.len() && (#[trigger] r[j]).src == files[k].abs@ && r[j].dst
                        == path_join(path_join(path_join(vault, sid), manifest), files[k].rel@)
        }),
{
    let to = version_path(vault, sid, manifest);
    let all = Seq::new(files.len(), |k: int| k);
    let is_new = |k: int| !there[k];
    let new = all.filter(is_new);
    let r = copies_to(to, files, there);
    lemma_copies_up_to(to, files, there, files.len() as int);
    assert(files.take(files.len() as int) =~= files);
    assert(there.take(files.len() as int) =~= there);
    assert(all.take(files.len() as int) =~= all);
    assert(r.len() == new.len());
    assert forall|j: int| 0 <= j < r.len() implies 0 <= #[trigger] new[j] < files.len()
        && !there[new[j]] by {
        all.lemma_filter_pred(is_new, j);
        all.lemma_filter_contains_rev(is_new, new[j]);
    }
    assert forall|j: int|
        #![trigger r[j]]
        0 <= j < r.len() implies r[j] == copy_of(to, files[new[j]]) by {}
    assert forall|k: int| 0 <= k < files.len() && !(#[trigger] there[k]) implies exists|j: int|
        0 <= j < r.len() && (#[trigger] r[j]).src == files[k].abs@ && r[j].dst == path_join(
            path_join(path_join(vault, sid), manifest),
            files[k].rel@,
        ) by {
        assert(all[k] == k);
        all.lemma_filter_contains(is_new, k);
        let j = choose|j: int| 0 <= j < new.len() && new[j] == k;
        assert(r[j] == copy_of(to, files[k]));
    }
}

proof fn lemma_copies_up_to(to: Seq<char>, files: Seq<FoundFile>, there: Seq<bool>, n: int)
    requires
        0 <= n <= files.len() == there.len(),
    ensures
        copies_to(to, files.take(n), there.take(n)) == Seq::new(files.len(), |k: int| k).take(
            n,
        ).filter(|k: int| !there[k]).map_values(|k: int| copy_of(to, files[k])),
    decreases n,
{
    let all = Seq::new(files.len(), |k: int| k);
    let is_new = |k: int| !there[k];
    let copy = |k: int| copy_of(to, files[k]);
    reveal(Seq::filter);
    if n > 0 {
        lemma_copies_up_to(to, files, there, n - 1);
        assert(files.take(n).drop_last() =~= files.take(n - 1));
        assert(there.take(n).drop_last() =~= there.take(n - 1));
        assert(all.take(n).drop_last() =~= all.take(n - 1));
        assert(all.take(n).last() == n - 1);
        let kept = all.take(n - 1).filter(is_new);
        assert(kept.push(n - 1).map_values(copy) =~= kept.map_values(copy).push(copy(n - 1)));
    } else {
        assert(copies_to(to, files.take(0), there.take(0)) =~= all.take(0).filter(
            is_new,
        ).map_values(copy));
    }
}

/// The size of the store is the sum of the sizes of all files of all versions.
pub proof fn the_store_is_as_large_as_its_files(versions: Seq<Vec<u64>>)
    ensures
        grand_total(versions) == versions.fold_left(
            0int,
            |n: int, v: Vec<u64>| n + v@.fold_left(0int, |m: int, x: u64| m + x),
        ),
    decreases versions.len(),
{
    if versions.len() > 0 {
        the_store_is_as_large_as_its_files(versions.drop_last());
        lemma_total_is_a_sum(versions.last()@);
    }
}

proof fn lemma_total_is_a_sum(sizes: Seq<u64>)
    ensures
        total(sizes) == sizes.fold_left(0int, |m: int, x: u64| m + x),
    decreases sizes.len(),
{
    if sizes.len() > 0 {
        lemma_total_is_a_sum(sizes.drop_last());
    }
}

proof fn lemma_half_even_is_near(n: nat, d: nat)
    requires
        d > 0,
    ensures
        2 * (half_even(n, d) * d - n) <= d,
        2 * (n - half_even(n, d) * d) <= d,
        2 * (half_even(n, d) * d - n) == d || 2 * (n - half_even(n, d) * d) == d ==> half_even(n, d)
            % 2 == 0,
{
    let q = n / d;
    let r = n % d;
    assert(n == d * q + r && r < d) by (nonlinear_arith)
        requires
            q == n / d,
            r == n % d,
            d > 0,
    ;
    assert((q + 1) * d == d * q + d) by (nonlinear_arith);
    assert(q * d == d * q) by (nonlinear_arith);
}

/// A size is shown in the largest of the units that it fills, rounded to the
/// nearest, from the middle to the even one: whole kibibytes, tenths of
/// mebibytes, and tenths of gibibytes of the nearest number of 53 binary digits.
pub proof fn sizes_are_rounded_to_the_nearest(b: nat)
    ensures
        b < 1024 ==> size_text(b) == decimal(b) + " B"@,
        1024 <= b < 1024 * 1024 ==> exists|k: nat| #[trigger]
            decimal(k) + " KiB"@ == size_text(b) && is_nearest(k, 1024, b),
        1024 * 1024 <= b < 1024 * 1024 * 1024 ==> exists|t: nat| #[trigger]
            in_tenths(t) + " MiB"@ == size_text(b) && is_nearest(t, 0x10_0000, 10 * b),
        b >= 1024 * 1024 * 1024 ==> exists|t: nat, near: nat| #[trigger]
            is_shown_near(t, near, b) && in_tenths(t) + " GiB"@ == size_text(b),
{
    if b >= 0x4000_0000 {
        let near = double_of(b);
        let t = half_even(10 * near, 0x4000_0000);
        lemma_half_even_is_near(10 * near, 0x4000_0000);
        lemma_double_unit(b);
        lemma_half_even_is_near(b, double_unit(b));
        assert(is_shown_near(t, near, b));
        assert(in_tenths(t) + " GiB"@ == size_text(b));
    } else if b >= 0x10_0000 {
        let t = half_even(10 * b, 0x10_0000);
        lemma_half_even_is_near(10 * b, 0x10_0000);
        assert(in_tenths(t) + " MiB"@ == size_text(b));
    } else if b >= 0x400 {
        let k = half_even(b, 0x400);
        lemma_half_even_is_near(b, 0x400);
        assert(decimal(k) + " KiB"@ == size_text(b));
    }
}

/// `k` units are nearest to `n`; of two that are as near, `k` is the even one.
pub open spec fn is_nearest(k: nat, unit: nat, n: nat) -> bool {
    &&& -unit <= 2 * (unit * k - n) <= unit
    &&& 2 * (unit * k - n) == unit || 2 * (n - unit * k) == unit ==> k % 2 == 0
}

/// A number of tenths with one digit after the point.
pub open spec fn in_tenths(t: nat) -> Seq<char> {
    decimal(t / 10) + "."@ + decimal(t % 10)
}

/// `t` tenths of a gibibyte are nearest to `near`, which differs from `b` by no
/// more than a part in 2 to the 53.
pub open spec fn is_shown_near(t: nat, near: nat, b: nat) -> bool {
    &&& is_nearest(t, 0x4000_0000, 10 * near)
    &&& -b <= 0x20_0000_0000_0000 * (near - b) <= b
}

proof fn lemma_double_unit(b: nat)
    ensures
        double_unit(b) >= 1,
        b < 0x20_0000_0000_0000 ==> double_unit(b) == 1,
        b >= 0x20_0000_0000_0000 ==> 0x10_0000_0000_0000 * double_unit(b) <= b,
    decreases b,
{
    if b >= 0x20_0000_0000_0000 {
        lemma_double_unit(b / 2);
        if b / 2 < 0x20_0000_0000_0000 {
            assert(double_unit(b) == 2);
        }
    }
}

/// The hash of a pack is recorded in a file beside it that has the pack's name
/// and one more ending.
pub proof fn hashes_lie_beside_their_pack(dir: Seq<char>, name: Seq<char>)
    requires
        plain_part(name),
        name != ".."@,
        dir.len() > 0,
        dir.last() != '/',
        without_tail(dir) == dir,
    ensures
        sidecar(path_join(dir, name)) == path_join(dir, name + ".sha256"@),
{
    files_are_called_by_their_name(dir, name);
    siblings_share_their_directory(dir, name, name + ".sha256"@);
}

/// What the store keeps for itself beside the files of a mod: the record of the
/// version, the hashes of packs and unfinished copies. No pack and no other file
/// of the mod is taken for one of these.
pub proof fn the_store_keeps_its_own_files(rel: Seq<char>)
    ensures
        rel == ".meta.json"@ ==> is_store_record(rel),
        rel != ".meta.json"@ && is_store_record(rel) ==> extension_of(rel) is Some && (
        same_ignoring_case(extension_of(rel)->0, "sha256"@) || same_ignoring_case(
            extension_of(rel)->0,
            "tmp"@,
        )),
        has_extension(rel, "pack"@) ==> !is_store_record(rel),
        has_extension(rel, "sha256"@) && has_extension(stem_of(rel)->0, "pack"@)
            ==> is_store_record(rel),
        has_extension(rel, "sha256"@) && !has_extension(stem_of(rel)->0, "pack"@) && rel
            != ".meta.json"@ ==> !is_store_record(rel),
        has_extension(rel, "tmp"@) && rel != ".meta.json"@ ==> (is_store_record(rel) <==> name_of(
            rel,
        ) is Some && name_of(rel)->0[0] == '.'),
{
    reveal_strlit("sha256");
    reveal_strlit("tmp");
    reveal_strlit("pack");
    reveal_strlit(".meta.json");
    assert("sha256"@.len() == 6 && "tmp"@.len() == 3 && "pack"@.len() == 4);
    let meta = ".meta.json"@;
    assert(meta.len() == 10);
    if has_extension(meta, "pack"@) {
        assert(!meta.contains('/')) by {
            if meta.contains('/') {
                let i = choose|i: int| 0 <= i < meta.len() && meta[i] == '/';
                assert(false);
            }
        }
        reveal_strlit(".");
        assert(plain_part(meta));
        plain_part_is_a_path(meta);
        names_end_in_their_extension(meta);
        let e = extension_of(meta)->0;
        let t = stem_of(meta)->0;
        assert(e.len() == 4);
        assert(t.len() == 5);
        assert(e[0] == meta[6] && meta[6] == 'j');
        assert("pack"@[0] == 'p');
        assert(ascii_lower(e[0]) == ascii_lower("pack"@[0]));
    }
    if name_of(rel) is Some {
        parts_are_plain(rel);
        let parts = path_parts(rel);
        assert(plain_part(parts[parts.len() - 1]));
    }
}

/// Each byte is written as two digits to the base sixteen, the high one first.
pub proof fn bytes_are_written_in_two_digits(data: Seq<u8>, i: int)
    requires
        0 <= i < data.len(),
    ensures
        hex_text(data).len() == 2 * data.len(),
        ({
            let (h, l) = (hex_text(data)[2 * i], hex_text(data)[2 * i + 1]);
            hex_value(h) is Some && hex_value(l) is Some && hex_value(h)->0 * 16 + hex_value(l)->0
                == data[i]
        }),
    decreases data.len(),
{
    lemma_hex_text(data);
    let d = data.drop_last();
    lemma_hex_text(d);
    if i < d.len() {
        bytes_are_written_in_two_digits(d, i);
        assert(hex_text(data)[2 * i] == hex_text(d)[2 * i]);
        assert(hex_text(data)[2 * i + 1] == hex_text(d)[2 * i + 1]);
    } else {
        let b = data.last() as nat;
        assert(b / 16 < 16 && b % 16 < 16);
    }
}

/// What a digit to the base sixteen counts, in lower case.
pub open spec fn hex_value(c: char) -> Option<int> {
    if 48 <= c as int <= 57 {
        Some(c as int - 48)
    } else if 97 <= c as int <= 102 {
        Some(c as int - 87)
    } else {
        None
    }
}

/// The record of a version says which version it is, when it was updated, how
/// large it is and when it was stored, and nothing else.
pub proof fn records_say_all_of_a_version(
    manifest: Seq<char>,
    timeupdated: u64,
    size: u64,
    stored_at: u64,
)
    ensures
        meta_json(manifest, timeupdated, size, stored_at) matches JsonView::Object(m) && {
            &&& m.dom() =~= set!["manifest"@, "timeupdated"@, "size"@, "stored_at"@]
            &&& m["manifest"@] == JsonView::Str(manifest)
            &&& m["timeupdated"@] == JsonView::Number(JsonNumber::Unsigned(timeupdated))
            &&& m["size"@] == JsonView::Number(JsonNumber::Unsigned(size))
            &&& m["stored_at"@] == JsonView::Number(JsonNumber::Unsigned(stored_at))
        },
{
    reveal_strlit("manifest");
    reveal_strlit("timeupdated");
    reveal_strlit("size");
    reveal_strlit("stored_at");
    assert("manifest"@.len() == 8 && "timeupdated"@.len() == 11 && "size"@.len() == 4
        && "stored_at"@.len() == 9);
}

/// The first file with an ending is found, if there is one.
pub proof fn the_first_file_with_an_ending_is_found(paths: Seq<Seq<char>>, ext: Seq<char>)
    ensures
        first_with_extension(paths, ext) is None <==> forall|i: int|
            0 <= i < paths.len() ==> !has_extension(#[trigger] paths[i], ext),
        forall|i: int|
            0 <= i < paths.len() && has_extension(#[trigger] paths[i], ext) && (forall|j: int|
                0 <= j < i ==> !has_extension(#[trigger] paths[j], ext)) ==> first_with_extension(
                paths,
                ext,
            ) == Some(paths[i]),
    decreases paths.len(),
{
    if paths.len() > 0 && !has_extension(paths[0], ext) {
        let t = paths.drop_first();
        the_first_file_with_an_ending_is_found(t, ext);
        assert forall|i: int|
            0 <= i < paths.len() && has_extension(#[trigger] paths[i], ext) && (forall|j: int|
                0 <= j < i ==> !has_extension(#[trigger] paths[j], ext)) implies
            first_with_extension(paths, ext) == Some(paths[i]) by {
            assert(t[i - 1] == paths[i]);
            assert forall|j: int| 0 <= j < i - 1 implies !has_extension(#[trigger] t[j], ext) by {
                assert(t[j] == paths[j + 1]);
            }
        }
        if first_with_extension(paths, ext) is None {
            assert forall|i: int| 0 <= i < paths.len() implies !has_extension(
                #[trigger] paths[i],
                ext,
            ) by {
                if i > 0 {
                    assert(t[i - 1] == paths[i]);
                }
            }
        }
        if forall|i: int| 0 <= i < paths.len() ==> !has_extension(#[trigger] paths[i], ext) {
            assert forall|i: int| 0 <= i < t.len() implies !has_extension(#[trigger] t[i], ext) by {
                assert(t[i] == paths[i + 1]);
            }
        }
    }
}

/// A version that was stored is recorded; only a record that is there stays,
/// where nothing is known to replace it with, and nothing is recorded of a
/// version without a folder.
pub proof fn stored_versions_are_recorded(record_exists: bool, timeupdated: u64)
    ensures
        is_recorded(true, false, timeupdated),
        timeupdated > 0 ==> is_recorded(true, record_exists, timeupdated),
        !is_recorded(true, true, 0),
        !is_recorded(false, record_exists, timeupdated),
{
}

/// The copies that store a version; a version without a name is not stored.
pub open spec fn version_copies(
    vault: Seq<char>,
    sid: Seq<char>,
    manifest: Seq<char>,
    files: Seq<FoundFile>,
    there: Seq<bool>,
) -> Seq<CopyView> {
    if manifest.len() > 0 {
        copies_to(version_path(vault, sid, manifest), files, there)
    } else {
        Seq::empty()
    }
}

/// A version that has a name is stored with every file that is not there yet,
/// and nothing is stored of one that has none.
pub proof fn named_versions_are_stored(
    vault: Seq<char>,
    sid: Seq<char>,
    manifest: Seq<char>,
    files: Seq<FoundFile>,
    there: Seq<bool>,
)
    requires
        files.len() == there.len(),
    ensures
        ({
            let r = version_copies(vault, sid, manifest, files, there);
            &&& manifest.len() == 0 ==> r.len() == 0
            &&& manifest.len() > 0 ==> r.len() == there.filter(|b: bool| !b).len()
            &&& manifest.len() > 0 ==> forall|k: int|
                0 <= k < files.len() && !(#[trigger] there[k]) ==> exists|j: int|
                    0 <= j < r.len() && (#[trigger] r[j]).src == files[k].abs@ && r[j].dst
                        == path_join(path_join(path_join(vault, sid), manifest), files[k].rel@)
        }),
{
    if manifest.len() > 0 {
        stored_versions_are_faithful(vault, sid, manifest, files, there);
        lemma_copies_counted(version_path(vault, sid, manifest), files, there);
    }
}

proof fn lemma_copies_counted(to: Seq<char>, files: Seq<FoundFile>, there: Seq<bool>)
    requires
        files.len() == there.len(),
    ensures
        copies_to(to, files, there).len() == there.filter(|b: bool| !b).len(),
    decreases files.len(),
{
    reveal(Seq::filter);
    if files.len() > 0 {
        lemma_copies_counted(to, files.drop_last(), there.drop_last());
    }
}

} // verus!
