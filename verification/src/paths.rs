//! Configuration and path resolution.
//!
//! Every path resolves in order: environment variable, config file, default.
//! The config file holds `key = value` lines with `#` comments, optional
//! quotes, and `~/` for the home directory. Paths are text; `/` separates
//! their parts.

use vstd::prelude::*;
use vstd::string::StringExecFns;

use crate::strmap::StrMap;
use crate::text::{
    decimal, from_chars, joined, lines, lines_of, pieces_hold_no_separator, same, split,
    split_at_separator, split_on, strip, strip_both, strip_prefix, stripping_keeps_the_middle, texts,
    to_chars, to_decimal, trim, trimmed, trimming_keeps_the_middle, unsplit_text, white, CharClass,
};

verus! {

/// The game's Steam application id.
pub const APPID: u32 = 1142710;

/// The last position of `c` in `s`, or -1.
pub open spec fn last_index(s: Seq<char>, c: char) -> int
    decreases s.len(),
{
    if s.len() == 0 {
        -1
    } else if s.last() == c {
        s.len() - 1
    } else {
        last_index(s.drop_last(), c)
    }
}

/// `rel` below `base`; an absolute `rel` stands for itself.
pub open spec fn path_join(base: Seq<char>, rel: Seq<char>) -> Seq<char> {
    if rel.len() > 0 && rel[0] == '/' {
        rel
    } else if base.len() == 0 || base.last() == '/' {
        base + rel
    } else {
        base.push('/') + rel
    }
}

/// The parts of a path: what stands between the slashes, without empty parts
/// and `.`.
pub open spec fn path_parts(p: Seq<char>) -> Seq<Seq<char>> {
    split_on(p, CharClass::Exactly('/')).filter(|s: Seq<char>| s.len() > 0 && s != "."@)
}

/// The last part of a path, unless that is `..`.
pub open spec fn name_of(p: Seq<char>) -> Option<Seq<char>> {
    let parts = path_parts(p);
    if parts.len() == 0 || parts.last() == ".."@ {
        None
    } else {
        Some(parts.last())
    }
}

/// What follows the last dot of a file name that does not start with it.
pub open spec fn extension_of(p: Seq<char>) -> Option<Seq<char>> {
    match name_of(p) {
        Some(n) => if last_index(n, '.') > 0 {
            Some(n.skip(last_index(n, '.') + 1))
        } else {
            None
        },
        None => None,
    }
}

/// A file name without its extension.
pub open spec fn stem_of(p: Seq<char>) -> Option<Seq<char>> {
    match name_of(p) {
        Some(n) => if last_index(n, '.') > 0 {
            Some(n.take(last_index(n, '.')))
        } else {
            Some(n)
        },
        None => None,
    }
}

/// A path without slashes and `.` parts at its end; the root stays.
pub open spec fn without_tail(p: Seq<char>) -> Seq<char>
    decreases p.len(),
{
    if p.len() > 1 && p.last() == '/' {
        without_tail(p.drop_last())
    } else if p.len() > 1 && p.last() == '.' && p[p.len() - 2] == '/' {
        without_tail(p.drop_last())
    } else {
        p
    }
}

/// The path of the directory that holds `p`.
pub open spec fn dir_of(p: Seq<char>) -> Seq<char> {
    let t = without_tail(p);
    without_tail(t.take(last_index(t, '/') + 1))
}

/// The path of the file called `name` in the directory that holds `p`.
pub open spec fn sibling(p: Seq<char>, name: Seq<char>) -> Seq<char> {
    match name_of(p) {
        Some(_) => path_join(dir_of(p), name),
        None => path_join(p, name),
    }
}

/// The last position of `c` in `v`.
fn find_last(v: &Vec<char>, c: char) -> (r: Option<usize>)
    ensures
        match r {
            Some(i) => i == last_index(v@, c) && i < v@.len(),
            None => last_index(v@, c) == -1,
        },
{
    let mut i: usize = v.len();
    assert(v@.take(i as int) =~= v@);
    while i > 0
        invariant
            i <= v@.len(),
            last_index(v@, c) == last_index(v@.take(i as int), c),
        decreases i,
    {
        if v[i - 1] == c {
            return Some(i - 1);
        }
        assert(v@.take(i as int).drop_last() =~= v@.take(i - 1));
        i = i - 1;
    }
    None
}

/// `rel` below `base`; an absolute `rel` stands for itself.
pub fn join_path(base: &str, rel: &str) -> (r: String)
    ensures
        r@ == path_join(base@, rel@),
{
    let b = to_chars(base);
    let v = to_chars(rel);
    let n: usize = b.len();
    if v.len() > 0 && v[0] == '/' {
        rel.to_owned()
    } else {
        let mut s = base.to_owned();
        if n > 0 && b[n - 1] != '/' {
            s.push('/');
        }
        s.append(rel);
        s
    }
}

/// The parts of a path.
pub fn parts_of_path(p: &str) -> (r: Vec<String>)
    ensures
        texts(r@) == path_parts(p@),
{
    let all = split(p, CharClass::Exactly('/'));
    let ghost ps = split_on(p@, CharClass::Exactly('/'));
    let ghost keep = |s: Seq<char>| s.len() > 0 && s != "."@;
    let mut out: Vec<String> = Vec::new();
    let mut i: usize = 0;
    assert(ps.take(0) =~= Seq::<Seq<char>>::empty());
    proof {
        reveal(Seq::filter);
    }
    while i < all.len()
        invariant
            i <= all@.len(),
            texts(all@) == ps,
            keep == (|s: Seq<char>| s.len() > 0 && s != "."@),
            texts(out@) == ps.take(i as int).filter(keep),
        decreases all@.len() - i,
    {
        proof {
            reveal(Seq::filter);
            assert(ps.take(i + 1).drop_last() =~= ps.take(i as int));
            assert(ps[i as int] == all@[i as int]@);
        }
        if !all[i].as_str().is_empty() && !same(all[i].as_str(), ".") {
            let ghost o0 = out@;
            out.push(all[i].clone());
            assert(texts(out@) =~= texts(o0).push(all@[i as int]@));
        }
        i = i + 1;
    }
    assert(ps.take(i as int) =~= ps);
    out
}

/// The last part of a path, unless that is `..`.
pub fn file_name(p: &str) -> (r: Option<String>)
    ensures
        crate::text::opt_text(r) == name_of(p@),
{
    let parts = parts_of_path(p);
    let n: usize = parts.len();
    assert(texts(parts@).len() == n);
    if n == 0 {
        return None;
    }
    assert(texts(parts@).last() == parts@[n - 1]@);
    if same(parts[n - 1].as_str(), "..") {
        None
    } else {
        Some(parts[n - 1].clone())
    }
}

/// What follows the last dot of a file name.
pub fn extension(p: &str) -> (r: Option<String>)
    ensures
        crate::text::opt_text(r) == extension_of(p@),
{
    match file_name(p) {
        Some(n) => {
            let v = to_chars(n.as_str());
            let len: usize = v.len();
            match find_last(&v, '.') {
                Some(i) => if i > 0 {
                    let e = from_chars(&v, i + 1, len);
                    assert(e@ =~= v@.skip(i + 1));
                    Some(e)
                } else {
                    None
                },
                None => None,
            }
        },
        None => None,
    }
}

/// A file name without its extension.
pub fn file_stem(p: &str) -> (r: Option<String>)
    ensures
        crate::text::opt_text(r) == stem_of(p@),
{
    match file_name(p) {
        Some(n) => {
            let v = to_chars(n.as_str());
            match find_last(&v, '.') {
                Some(i) => if i > 0 {
                    let e = from_chars(&v, 0, i);
                    assert(e@ =~= v@.take(i as int));
                    Some(e)
                } else {
                    Some(n)
                },
                None => Some(n),
            }
        },
        None => None,
    }
}

/// The length of the path `v[..n]` without its tail.
fn tail_start(v: &Vec<char>, n: usize) -> (r: usize)
    requires
        n <= v@.len(),
    ensures
        r <= n,
        v@.take(r as int) == without_tail(v@.take(n as int)),
{
    let mut e: usize = n;
    while e > 1 && (v[e - 1] == '/' || (v[e - 1] == '.' && v[e - 2] == '/'))
        invariant
            e <= n <= v@.len(),
            without_tail(v@.take(n as int)) == without_tail(v@.take(e as int)),
        decreases e,
    {
        assert(v@.take(e as int).drop_last() =~= v@.take(e - 1));
        e = e - 1;
    }
    e
}

/// The path of the file called `name` in the directory that holds `p`.
pub fn with_file_name(p: &str, name: &str) -> (r: String)
    ensures
        r@ == sibling(p@, name@),
{
    match file_name(p) {
        Some(_) => {
            let v = to_chars(p);
            assert(v@.take(v@.len() as int) =~= v@);
            let e = tail_start(&v, v.len());
            let t = from_chars(&v, 0, e);
            assert(t@ =~= v@.take(e as int));
            let tv = to_chars(t.as_str());
            let cut: usize = match find_last(&tv, '/') {
                Some(i) => i + 1,
                None => 0,
            };
            let d = tail_start(&tv, cut);
            let dir = from_chars(&tv, 0, d);
            assert(dir@ =~= tv@.take(d as int));
            join_path(dir.as_str(), name)
        },
        None => join_path(p, name),
    }
}

/// The path starts at the root.
pub open spec fn from_root(p: Seq<char>) -> bool {
    p.len() > 0 && p[0] == '/'
}

/// The path starts with a `.` part.
pub open spec fn from_dot(p: Seq<char>) -> bool {
    p.len() > 0 && p[0] == '.' && (p.len() == 1 || p[1] == '/')
}

/// The paths agree part by part.
pub open spec fn same_paths(a: Seq<char>, b: Seq<char>) -> bool {
    from_root(a) == from_root(b) && from_dot(a) == from_dot(b) && path_parts(a) == path_parts(b)
}

/// Whether two paths agree part by part.
pub fn same_path(a: &str, b: &str) -> (r: bool)
    ensures
        r == same_paths(a@, b@),
{
    let v = to_chars(a);
    let w = to_chars(b);
    let root_a = v.len() > 0 && v[0] == '/';
    let root_b = w.len() > 0 && w[0] == '/';
    let dot_a = v.len() > 0 && v[0] == '.' && (v.len() == 1 || v[1] == '/');
    let dot_b = w.len() > 0 && w[0] == '.' && (w.len() == 1 || w[1] == '/');
    if root_a != root_b || dot_a != dot_b {
        return false;
    }
    let pa = parts_of_path(a);
    let pb = parts_of_path(b);
    assert(texts(pa@).len() == pa@.len() && texts(pb@).len() == pb@.len());
    if pa.len() != pb.len() {
        return false;
    }
    let mut i: usize = 0;
    while i < pa.len()
        invariant
            i <= pa@.len() == pb@.len(),
            texts(pa@) == path_parts(a@),
            texts(pb@) == path_parts(b@),
            from_root(a@) == from_root(b@),
            from_dot(a@) == from_dot(b@),
            forall|j: int| 0 <= j < i ==> texts(pa@)[j] == texts(pb@)[j],
        decreases pa@.len() - i,
    {
        if !same(pa[i].as_str(), pb[i].as_str()) {
            assert(texts(pa@)[i as int] != texts(pb@)[i as int]);
            return false;
        }
        i = i + 1;
    }
    assert(texts(pa@) =~= texts(pb@));
    true
}

/// Whether a file name ends in the given extension, in any case.
pub open spec fn has_extension(p: Seq<char>, ext: Seq<char>) -> bool {
    extension_of(p) matches Some(e) && crate::text::same_ignoring_case(e, ext)
}

/// Whether a file name ends in the given extension, in any case.
pub fn extension_is(p: &str, ext: &str) -> (r: bool)
    ensures
        r == has_extension(p@, ext@),
{
    match extension(p) {
        Some(e) => crate::text::eq_ignore_ascii_case(e.as_str(), ext),
        None => false,
    }
}

/// The environment and the config file, as far as they are readable text.
pub struct Settings {
    /// Environment variables.
    pub env: StrMap<String>,
    /// The entries of the config file.
    pub config: StrMap<String>,
}

/// The entry that one line of the config file makes.
pub open spec fn config_entry(line: Seq<char>) -> Option<(Seq<char>, Seq<char>)> {
    let l = trimmed(line);
    if l.len() == 0 || l[0] == '#' || !l.contains('=') {
        None
    } else {
        let i = l.index_of_first('=')->0;
        Some(
            (
                trimmed(l.take(i)),
                strip_both(
                    strip_both(trimmed(l.skip(i + 1)), CharClass::Exactly('"')),
                    CharClass::Exactly('\''),
                ),
            ),
        )
    }
}

/// The entries of a config file; a later line for a key replaces an earlier
/// one.
pub open spec fn config_of(lines: Seq<Seq<char>>) -> Map<Seq<char>, Seq<char>>
    decreases lines.len(),
{
    if lines.len() == 0 {
        Map::empty()
    } else {
        match config_entry(lines.last()) {
            Some((k, v)) => config_of(lines.drop_last()).insert(k, v),
            None => config_of(lines.drop_last()),
        }
    }
}

/// The texts that a map's keys map to.
pub open spec fn text_map(m: Map<Seq<char>, String>) -> Map<Seq<char>, Seq<char>> {
    m.map_values(|s: String| s@)
}

/// The entry that one line of the config file makes.
fn parse_config_line(line: &str) -> (r: Option<(String, String)>)
    ensures
        match r {
            Some(p) => config_entry(line@) == Some((p.0@, p.1@)),
            None => config_entry(line@) is None,
        },
{
    let l = trim(line);
    let v = to_chars(l.as_str());
    let n: usize = v.len();
    if n == 0 || v[0] == '#' {
        return None;
    }
    let mut i: usize = 0;
    while i < n && v[i] != '='
        invariant
            i <= n == v@.len(),
            forall|j: int| 0 <= j < i ==> v@[j] != '=',
        decreases n - i,
    {
        i = i + 1;
    }
    if i == n {
        assert(!v@.contains('='));
        return None;
    }
    proof {
        assert(v@[i as int] == '=');
        v@.index_of_first_ensures('=');
        assert(v@.index_of_first('=')->0 == i);
    }
    let k = trim(from_chars(&v, 0, i).as_str());
    let raw = trim(from_chars(&v, i + 1, n).as_str());
    assert(v@.subrange(0, i as int) =~= v@.take(i as int));
    assert(v@.subrange(i + 1, n as int) =~= v@.skip(i + 1));
    let value = strip(strip(raw.as_str(), CharClass::Exactly('"')).as_str(), CharClass::Exactly('\''));
    Some((k, value))
}

/// Read the text of a config file.
pub fn parse_config(text: &str) -> (r: StrMap<String>)
    ensures
        text_map(r@) == config_of(lines_of(text@)),
{
    let ls = lines(text);
    let ghost all = lines_of(text@);
    let mut map: StrMap<String> = StrMap::new();
    let mut i: usize = 0;
    assert(all.take(0) =~= Seq::<Seq<char>>::empty());
    assert(text_map(map@) =~= Map::<Seq<char>, Seq<char>>::empty());
    while i < ls.len()
        invariant
            i <= ls@.len(),
            texts(ls@) == all,
            text_map(map@) == config_of(all.take(i as int)),
        decreases ls@.len() - i,
    {
        proof {
            assert(all.take(i + 1).drop_last() =~= all.take(i as int));
            assert(all.take(i + 1).last() == ls@[i as int]@);
        }
        match parse_config_line(ls[i].as_str()) {
            Some((k, v)) => {
                let ghost m0 = map@;
                map.insert(k, v);
                assert(text_map(map@) =~= text_map(m0).insert(k@, v@));
            },
            None => {},
        }
        i = i + 1;
    }
    assert(all.take(i as int) =~= all);
    map
}

impl Settings {
    /// The value of an environment variable.
    pub open spec fn env_value(self, key: Seq<char>) -> Option<Seq<char>> {
        if self.env@.contains_key(key) {
            Some(self.env@[key]@)
        } else {
            None
        }
    }

    /// The value of a config key: the environment wins over the config file.
    pub open spec fn value(self, env_key: Seq<char>, conf_key: Seq<char>) -> Option<Seq<char>> {
        if self.env@.contains_key(env_key) {
            Some(self.env@[env_key]@)
        } else if self.config@.contains_key(conf_key) {
            Some(self.config@[conf_key]@)
        } else {
            None
        }
    }

    /// The home directory.
    pub open spec fn home_dir(self) -> Seq<char> {
        match self.env_value("HOME"@) {
            Some(h) => h,
            None => "."@,
        }
    }

    /// A path setting with `~/` written out.
    pub open spec fn expanded(self, v: Seq<char>) -> Seq<char> {
        if "~/"@.is_prefix_of(v) {
            path_join(self.home_dir(), v.skip("~/"@.len() as int))
        } else {
            v
        }
    }

    /// The path that a setting gives.
    pub open spec fn path(self, env_key: Seq<char>, conf_key: Seq<char>) -> Option<Seq<char>> {
        match self.value(env_key, conf_key) {
            Some(v) => Some(self.expanded(v)),
            None => None,
        }
    }

    /// The path that a setting gives, or else `fallback`.
    pub open spec fn path_or(
        self,
        env_key: Seq<char>,
        conf_key: Seq<char>,
        fallback: Seq<char>,
    ) -> Seq<char> {
        match self.path(env_key, conf_key) {
            Some(p) => p,
            None => fallback,
        }
    }

    /// The Steam library that holds the game.
    pub open spec fn steam(self) -> Seq<char> {
        self.path_or("STEAM_ROOT"@, "steam_root"@, path_join(self.home_dir(), ".local/share/Steam"@))
    }

    /// The directory of this tool's own data.
    pub open spec fn data(self) -> Seq<char> {
        self.path_or("TWWH3_DATA"@, "data_dir"@, path_join(self.home_dir(), "Games/TotalWarWH3"@))
    }

    /// The directory of the profiles.
    pub open spec fn modlists(self) -> Seq<char> {
        self.path_or("TWWH3_MODLISTS"@, "modlists"@, path_join(self.data(), "modlists"@))
    }

    /// The directory of the subscribed Workshop items.
    pub open spec fn workshop(self) -> Seq<char> {
        self.path_or(
            "TWWH3_WORKSHOP"@,
            "workshop"@,
            path_join(self.steam(), "steamapps/workshop/content/"@ + decimal(APPID as nat)),
        )
    }

    /// The directory with one subfolder per local mod.
    pub open spec fn local_mods(self) -> Seq<char> {
        self.path_or("TWWH3_LOCAL"@, "local_mods"@, path_join(self.data(), "local_mods"@))
    }

    /// The store of Workshop mod versions.
    pub open spec fn versioned_mods(self) -> Seq<char> {
        self.path_or(
            "TWWH3_VERSIONED_WORKSHOP_MODS"@,
            "versioned_workshop_mods"@,
            path_join(self.data(), "versioned_workshop_mods"@),
        )
    }

    /// The directory of the links that a launch reads.
    pub open spec fn staging(self) -> Seq<char> {
        self.path_or("TWWH3_STAGING"@, "staging"@, path_join(self.data(), "staging"@))
    }

    /// The launcher's list of mods.
    pub open spec fn moddata(self) -> Seq<char> {
        self.path_or(
            "TWWH3_MODDATA"@,
            "moddata"@,
            path_join(
                self.steam(),
                "steamapps/compatdata/"@ + decimal(APPID as nat) + MODDATA_BELOW@,
            ),
        )
    }

    /// The directory of cached files.
    pub open spec fn cache(self) -> Seq<char> {
        match self.env_value("XDG_CACHE_HOME"@) {
            Some(d) => d,
            None => path_join(self.home_dir(), ".cache"@),
        }
    }
}

/// Where the launcher keeps its mod list in the game's Proton prefix.
pub const MODDATA_BELOW: &'static str =
    "/pfx/drive_c/users/steamuser/AppData/Roaming/The Creative Assembly/Launcher/20190104-moddata.dat";

/// The home directory.
pub fn home(s: &Settings) -> (r: String)
    ensures
        r@ == s.home_dir(),
{
    match s.env.get("HOME") {
        Some(h) => h.clone(),
        None => ".".to_owned(),
    }
}

/// The path of the config file.
pub open spec fn config_path(s: Settings) -> Seq<char> {
    path_join(
        match s.env_value("XDG_CONFIG_HOME"@) {
            Some(d) => d,
            None => path_join(s.home_dir(), ".config"@),
        },
        "twwh3-mods/config"@,
    )
}

/// The path of the config file.
pub fn config_file(s: &Settings) -> (r: String)
    ensures
        r@ == config_path(*s),
{
    let dir = match s.env.get("XDG_CONFIG_HOME") {
        Some(d) => d.clone(),
        None => join_path(home(s).as_str(), ".config"),
    };
    join_path(dir.as_str(), "twwh3-mods/config")
}

/// The value of a setting: the environment wins over the config file.
pub fn setting(s: &Settings, env_key: &str, conf_key: &str) -> (r: Option<String>)
    ensures
        crate::text::opt_text(r) == s.value(env_key@, conf_key@),
{
    match s.env.get(env_key) {
        Some(v) => Some(v.clone()),
        None => match s.config.get(conf_key) {
            Some(v) => Some(v.clone()),
            None => None,
        },
    }
}

/// A path with `~/` written out.
pub fn expand_path(s: &Settings, v: &str) -> (r: String)
    ensures
        r@ == s.expanded(v@),
{
    match strip_prefix(v, "~/") {
        Some(rest) => {
            assert(v@.skip("~/"@.len() as int) =~= rest@);
            assert(v@.subrange(0, "~/"@.len() as int) =~= "~/"@);
            join_path(home(s).as_str(), rest.as_str())
        },
        None => v.to_owned(),
    }
}

/// The path that a setting gives.
pub fn path_setting(s: &Settings, env_key: &str, conf_key: &str) -> (r: Option<String>)
    ensures
        crate::text::opt_text(r) == s.path(env_key@, conf_key@),
{
    match setting(s, env_key, conf_key) {
        Some(v) => Some(expand_path(s, v.as_str())),
        None => None,
    }
}

/// The Steam library that holds the game.
pub fn steam_root(s: &Settings) -> (r: String)
    ensures
        r@ == s.steam(),
{
    match path_setting(s, "STEAM_ROOT", "steam_root") {
        Some(p) => p,
        None => join_path(home(s).as_str(), ".local/share/Steam"),
    }
}

/// The directory of this tool's own data: profiles, versioned mods, local
/// mods.
pub fn data_dir(s: &Settings) -> (r: String)
    ensures
        r@ == s.data(),
{
    match path_setting(s, "TWWH3_DATA", "data_dir") {
        Some(p) => p,
        None => join_path(home(s).as_str(), "Games/TotalWarWH3"),
    }
}

/// The launcher's list of mods.
pub fn moddata_path(s: &Settings) -> (r: String)
    ensures
        r@ == s.moddata(),
{
    match path_setting(s, "TWWH3_MODDATA", "moddata") {
        Some(p) => p,
        None => {
            let rel = "steamapps/compatdata/".to_owned().concat(
                to_decimal(APPID as u64).as_str(),
            ).concat(MODDATA_BELOW);
            join_path(steam_root(s).as_str(), rel.as_str())
        },
    }
}

/// The directory of the profiles.
pub fn modlists_dir(s: &Settings) -> (r: String)
    ensures
        r@ == s.modlists(),
{
    match path_setting(s, "TWWH3_MODLISTS", "modlists") {
        Some(p) => p,
        None => join_path(data_dir(s).as_str(), "modlists"),
    }
}

/// The file that remembers which profile is current.
pub fn current_profile_file(s: &Settings) -> (r: String)
    ensures
        r@ == path_join(s.modlists(), ".current"@),
{
    join_path(modlists_dir(s).as_str(), ".current")
}

/// The file that holds the order of the profiles, one name per line.
pub fn profile_order_file(s: &Settings) -> (r: String)
    ensures
        r@ == path_join(s.modlists(), ".order"@),
{
    join_path(modlists_dir(s).as_str(), ".order")
}

/// The file of a profile.
pub open spec fn profile_path(dir: Seq<char>, name: Seq<char>) -> Seq<char> {
    path_join(dir, name + ".json"@)
}

/// The file of the profile `name` in the profile directory `dir`.
pub fn profile_file(dir: &str, name: &str) -> (r: String)
    ensures
        r@ == profile_path(dir@, name@),
{
    join_path(dir, name.to_owned().concat(".json").as_str())
}

/// The directory of the subscribed Workshop items.
pub fn workshop_dir(s: &Settings) -> (r: String)
    ensures
        r@ == s.workshop(),
{
    match path_setting(s, "TWWH3_WORKSHOP", "workshop") {
        Some(p) => p,
        None => {
            let rel = "steamapps/workshop/content/".to_owned().concat(
                to_decimal(APPID as u64).as_str(),
            );
            join_path(steam_root(s).as_str(), rel.as_str())
        },
    }
}

/// A directory whose default name changed once.
pub struct MovedDir {
    pub dir: String,
    /// The old default, to be renamed if only it exists.
    pub old: Option<String>,
}

impl MovedDir {
    /// The directory to rename to `dir`, given which of the two is there.
    pub fn rename_from(&self, dir_exists: bool, old_is_dir: bool) -> (r: Option<String>)
        ensures
            crate::text::opt_text(r) == (if !dir_exists && old_is_dir {
                crate::text::opt_text(self.old)
            } else {
                None
            }),
    {
        if !dir_exists && old_is_dir {
            match &self.old {
                Some(o) => Some(o.clone()),
                None => None,
            }
        } else {
            None
        }
    }
}

/// The directory with one subfolder per local mod, holding its packs and any
/// loose files.
pub fn local_mods_dir(s: &Settings) -> (r: MovedDir)
    ensures
        r.dir@ == s.local_mods(),
        crate::text::opt_text(r.old) == (match s.path("TWWH3_LOCAL"@, "local_mods"@) {
            Some(_) => None,
            None => Some(path_join(s.data(), "mods"@)),
        }),
{
    match path_setting(s, "TWWH3_LOCAL", "local_mods") {
        Some(p) => MovedDir { dir: p, old: None },
        None => {
            let data = data_dir(s);
            MovedDir {
                dir: join_path(data.as_str(), "local_mods"),
                old: Some(join_path(data.as_str(), "mods")),
            }
        },
    }
}

/// The store of exact Workshop mod versions, by item id and manifest.
pub fn versioned_mods_dir(s: &Settings) -> (r: MovedDir)
    ensures
        r.dir@ == s.versioned_mods(),
        crate::text::opt_text(r.old) == (match s.path(
            "TWWH3_VERSIONED_WORKSHOP_MODS"@,
            "versioned_workshop_mods"@,
        ) {
            Some(_) => None,
            None => Some(path_join(s.data(), "vault"@)),
        }),
{
    match path_setting(s, "TWWH3_VERSIONED_WORKSHOP_MODS", "versioned_workshop_mods") {
        Some(p) => MovedDir { dir: p, old: None },
        None => {
            let data = data_dir(s);
            MovedDir {
                dir: join_path(data.as_str(), "versioned_workshop_mods"),
                old: Some(join_path(data.as_str(), "vault")),
            }
        },
    }
}

/// The directory of links that mirrors the load order for a launch.
pub fn staging_dir(s: &Settings) -> (r: String)
    ensures
        r@ == s.staging(),
{
    match path_setting(s, "TWWH3_STAGING", "staging") {
        Some(p) => p,
        None => join_path(data_dir(s).as_str(), "staging"),
    }
}

/// The directory of cached files.
pub fn cache_dir(s: &Settings) -> (r: String)
    ensures
        r@ == s.cache(),
{
    match s.env.get("XDG_CACHE_HOME") {
        Some(d) => d.clone(),
        None => join_path(home(s).as_str(), ".cache"),
    }
}

/// A path as the game sees it, below the drive of the whole file system.
pub open spec fn win_path(p: Seq<char>) -> Seq<char> {
    "Z:"@ + p
}

/// The path by which the game sees a file under Proton.
pub fn unix_to_win(p: &str) -> (r: String)
    ensures
        r@ == win_path(p@),
{
    "Z:".to_owned().concat(p)
}

/// A path with the home directory shortened to `~`.
pub open spec fn with_tilde(s: Settings, p: Seq<char>) -> Seq<char> {
    match s.env_value("HOME"@) {
        Some(h) => if h.len() > 0 && h.is_prefix_of(p) {
            "~"@ + p.skip(h.len() as int)
        } else {
            p
        },
        None => p,
    }
}

/// Shorten a path for display: `~` stands for the home directory.
pub fn tilde(s: &Settings, p: &str) -> (r: String)
    ensures
        r@ == with_tilde(*s, p@),
{
    match s.env.get("HOME") {
        Some(h) => {
            if h.as_str().is_empty() {
                return p.to_owned();
            }
            match strip_prefix(p, h.as_str()) {
                Some(rest) => {
                    assert(p@.skip(h@.len() as int) =~= rest@);
                    assert(p@.subrange(0, h@.len() as int) =~= h@);
                    "~".to_owned().concat(rest.as_str())
                },
                None => p.to_owned(),
            }
        },
        None => p.to_owned(),
    }
}

/// An environment variable decides over the config file, and the config file
/// over the default.
pub proof fn env_wins_over_config_over_default(
    s: Settings,
    env_key: Seq<char>,
    conf_key: Seq<char>,
    fallback: Seq<char>,
)
    ensures
        s.env@.contains_key(env_key) ==> s.path_or(env_key, conf_key, fallback) == s.expanded(
            s.env@[env_key]@,
        ),
        !s.env@.contains_key(env_key) && s.config@.contains_key(conf_key) ==> s.path_or(
            env_key,
            conf_key,
            fallback,
        ) == s.expanded(s.config@[conf_key]@),
        !s.env@.contains_key(env_key) && !s.config@.contains_key(conf_key) ==> s.path_or(
            env_key,
            conf_key,
            fallback,
        ) == fallback,
{
}

/// A name that can stand between two slashes of a path.
pub open spec fn plain_part(p: Seq<char>) -> bool {
    p.len() > 0 && !p.contains('/') && p != "."@
}

proof fn lemma_filter_split(a: Seq<Seq<char>>, b: Seq<Seq<char>>, keep: spec_fn(Seq<char>) -> bool)
    ensures
        (a + b).filter(keep) == a.filter(keep) + b.filter(keep),
    decreases b.len(),
{
    reveal(Seq::filter);
    if b.len() == 0 {
        assert(a + b =~= a);
        assert(a.filter(keep) + b.filter(keep) =~= a.filter(keep));
    } else {
        lemma_filter_split(a, b.drop_last(), keep);
        assert((a + b).drop_last() =~= a + b.drop_last());
        let x = a.filter(keep);
        let y = b.drop_last().filter(keep);
        assert((x + y).push(b.last()) =~= x + y.push(b.last()));
    }
}

proof fn lemma_kept(v: Seq<Seq<char>>, keep: spec_fn(Seq<char>) -> bool)
    ensures
        forall|i: int|
            0 <= i < v.filter(keep).len() ==> keep(#[trigger] v.filter(keep)[i]) && v.contains(
                v.filter(keep)[i],
            ),
    decreases v.len(),
{
    reveal(Seq::filter);
    if v.len() > 0 {
        let u = v.drop_last();
        lemma_kept(u, keep);
        assert forall|i: int| 0 <= i < v.filter(keep).len() implies keep(
            #[trigger] v.filter(keep)[i],
        ) && v.contains(v.filter(keep)[i]) by {
            if i < u.filter(keep).len() {
                let x = u.filter(keep)[i];
                assert(v.filter(keep)[i] == x);
                let j = choose|j: int| 0 <= j < u.len() && u[j] == x;
                assert(v[j] == x);
            } else {
                assert(v[v.len() - 1] == v.filter(keep)[i]);
            }
        }
    }
}

/// The parts of two paths with a slash between them are the parts of both.
pub proof fn parts_around_a_slash(s: Seq<char>, t: Seq<char>)
    ensures
        path_parts(s.push('/') + t) == path_parts(s) + path_parts(t),
{
    split_at_separator(s, t, '/');
    lemma_filter_split(
        split_on(s, CharClass::Exactly('/')),
        split_on(t, CharClass::Exactly('/')),
        |p: Seq<char>| p.len() > 0 && p != "."@,
    );
}

/// Joining paths joins their parts.
pub proof fn joined_path_has_both_parts(base: Seq<char>, rel: Seq<char>)
    requires
        !from_root(rel),
    ensures
        path_parts(path_join(base, rel)) == path_parts(base) + path_parts(rel),
        base.len() > 0 ==> from_root(path_join(base, rel)) == from_root(base),
{
    reveal(Seq::filter);
    let none = Seq::<char>::empty();
    assert(path_parts(none) =~= Seq::<Seq<char>>::empty()) by {
        let one = split_on(none, CharClass::Exactly('/'));
        assert(one.drop_last() =~= Seq::<Seq<char>>::empty());
        assert(one.last().len() == 0);
        let keep = |s: Seq<char>| s.len() > 0 && s != "."@;
        assert(one.drop_last().filter(keep) =~= Seq::<Seq<char>>::empty());
        assert(one.filter(keep) == one.drop_last().filter(keep));
    }
    if base.len() == 0 {
        assert(base =~= none);
        assert(base + rel =~= rel);
        assert(path_parts(base) + path_parts(rel) =~= path_parts(rel));
    } else if base.last() == '/' {
        let b = base.drop_last();
        assert(b.push('/') =~= base);
        assert(b.push('/') + none =~= base);
        parts_around_a_slash(b, rel);
        parts_around_a_slash(b, none);
        assert(path_parts(b) + path_parts(none) =~= path_parts(b));
    } else {
        parts_around_a_slash(base, rel);
    }
}

/// The parts of a path are plain.
pub proof fn parts_are_plain(p: Seq<char>)
    ensures
        forall|i: int| 0 <= i < path_parts(p).len() ==> plain_part(#[trigger] path_parts(p)[i]),
{
    let all = split_on(p, CharClass::Exactly('/'));
    let keep = |s: Seq<char>| s.len() > 0 && s != "."@;
    pieces_hold_no_separator(p, '/');
    lemma_kept(all, keep);
    assert(path_parts(p) == all.filter(keep));
    assert forall|i: int| 0 <= i < path_parts(p).len() implies plain_part(
        #[trigger] path_parts(p)[i],
    ) by {
        let x = path_parts(p)[i];
        assert(all.contains(x) && keep(x));
        let j = choose|j: int| 0 <= j < all.len() && all[j] == x;
        assert(!all[j].contains('/'));
    }
}

/// A plain name is a path of one part.
pub proof fn plain_part_is_a_path(p: Seq<char>)
    requires
        plain_part(p),
    ensures
        path_parts(p) == seq![p],
        !from_root(p),
{
    reveal(Seq::filter);
    unsplit_text(p, '/');
    let one = split_on(p, CharClass::Exactly('/'));
    assert(one.drop_last() =~= Seq::<Seq<char>>::empty());
    assert(path_parts(p) =~= seq![p]);
    if p[0] == '/' {
        assert(p.contains('/'));
    }
}

/// Plain names with slashes between them are the parts of that path.
pub proof fn joined_names_are_the_parts(parts: Seq<Seq<char>>)
    requires
        parts.len() > 0,
        forall|i: int| 0 <= i < parts.len() ==> plain_part(#[trigger] parts[i]),
    ensures
        path_parts(joined(parts, "/"@)) == parts,
        !from_root(joined(parts, "/"@)),
        joined(parts, "/"@).len() > 0,
    decreases parts.len(),
{
    reveal_strlit("/");
    let last = parts[parts.len() - 1];
    plain_part_is_a_path(last);
    if parts.len() == 1 {
        assert(parts =~= seq![last]);
    } else {
        let rest = parts.drop_last();
        assert forall|i: int| 0 <= i < rest.len() implies plain_part(#[trigger] rest[i]) by {
            assert(rest[i] == parts[i]);
        }
        joined_names_are_the_parts(rest);
        let head = joined(rest, "/"@);
        assert("/"@ =~= seq!['/']);
        assert(head + "/"@ + last =~= head.push('/') + last);
        parts_around_a_slash(head, last);
        assert(rest + seq![last] =~= parts);
    }
}

/// Joining puts one slash between two paths; an absolute path stands for itself.
pub proof fn one_slash_joins_two_paths(base: Seq<char>, rel: Seq<char>)
    ensures
        seq!['/'].is_prefix_of(rel) ==> path_join(base, rel) == rel,
        !seq!['/'].is_prefix_of(rel) && base.len() > 0 && base.last() != '/' ==> path_join(base, rel)
            == base + seq!['/'] + rel,
        !seq!['/'].is_prefix_of(rel) && (base.len() == 0 || base.last() == '/') ==> path_join(
            base,
            rel,
        ) == base + rel,
{
    lemma_starts(rel);
    assert(base.push('/') + rel =~= base + seq!['/'] + rel);
}

/// A file is called by the name that it has in its directory.
pub proof fn files_are_called_by_their_name(dir: Seq<char>, name: Seq<char>)
    requires
        plain_part(name),
        name != ".."@,
    ensures
        name_of(path_join(dir, name)) == Some(name),
{
    plain_part_is_a_path(name);
    joined_path_has_both_parts(dir, name);
}

proof fn lemma_last_index(s: Seq<char>, c: char)
    ensures
        -1 <= last_index(s, c) < s.len(),
        last_index(s, c) >= 0 ==> s[last_index(s, c)] == c,
        forall|i: int| last_index(s, c) < i < s.len() ==> s[i] != c,
    decreases s.len(),
{
    if s.len() > 0 && s.last() != c {
        lemma_last_index(s.drop_last(), c);
        assert forall|i: int| last_index(s, c) < i < s.len() implies s[i] != c by {
            if i < s.len() - 1 {
                assert(s.drop_last()[i] == s[i]);
            }
        }
    }
}

/// A file name is its stem, its last dot and its extension; a name without a dot
/// after its first letter has no extension.
pub proof fn names_end_in_their_extension(p: Seq<char>)
    ensures
        name_of(p) is None ==> extension_of(p) is None && stem_of(p) is None,
        name_of(p) matches Some(n) ==> {
            &&& extension_of(p) matches Some(e) ==> stem_of(p) matches Some(t) && n == t + seq!['.']
                + e && t.len() > 0 && !e.contains('.')
            &&& extension_of(p) is None ==> stem_of(p) == Some(n) && forall|i: int|
                0 < i < n.len() ==> #[trigger] n[i] != '.'
        },
{
    match name_of(p) {
        Some(n) => {
            lemma_last_index(n, '.');
            let i = last_index(n, '.');
            if i > 0 {
                let (t, e) = (n.take(i), n.skip(i + 1));
                assert(n =~= t + seq!['.'] + e);
                if e.contains('.') {
                    let j = choose|j: int| 0 <= j < e.len() && e[j] == '.';
                    assert(n[i + 1 + j] == '.');
                }
            }
        },
        None => {},
    }
}

/// A file that is called `stem.ext` has that extension, in any case.
pub proof fn extensions_are_told_in_any_case(
    dir: Seq<char>,
    stem: Seq<char>,
    e: Seq<char>,
    ext: Seq<char>,
)
    requires
        stem.len() > 0,
        !stem.contains('/'),
        !e.contains('/'),
        !e.contains('.'),
        e.len() > 0,
    ensures
        has_extension(path_join(dir, stem + seq!['.'] + e), ext) == crate::text::same_ignoring_case(
            e,
            ext,
        ),
        stem_of(path_join(dir, stem + seq!['.'] + e)) == Some(stem),
{
    let n = stem + seq!['.'] + e;
    let s = stem.len() as int;
    assert(n[s] == '.');
    reveal_strlit(".");
    reveal_strlit("..");
    assert(n.len() >= 3);
    assert(!n.contains('/')) by {
        if n.contains('/') {
            let i = choose|i: int| 0 <= i < n.len() && n[i] == '/';
            if i < s {
                assert(stem[i] == '/');
            } else if i > s {
                assert(e[i - s - 1] == '/');
            }
        }
    }
    files_are_called_by_their_name(dir, n);
    lemma_last_index(n, '.');
    let i = last_index(n, '.');
    if i > s {
        assert(e[i - s - 1] == '.');
    }
    assert(i == s);
    assert(n.skip(s + 1) =~= e);
    assert(n.take(s) =~= stem);
}

/// A file that is put beside another lies in the same directory.
pub proof fn siblings_share_their_directory(dir: Seq<char>, name: Seq<char>, other: Seq<char>)
    requires
        plain_part(name),
        name != ".."@,
        dir.len() > 0,
        dir.last() != '/',
        without_tail(dir) == dir,
    ensures
        sibling(path_join(dir, name), other) == path_join(dir, other),
{
    reveal_strlit(".");
    files_are_called_by_their_name(dir, name);
    plain_part_is_a_path(name);
    let p = dir.push('/') + name;
    let n = name.len() as int;
    let d = dir.len() as int;
    assert(name.last() == name[n - 1]);
    assert(name.last() != '/');
    assert(p.last() == name.last());
    if p.last() == '.' {
        if n == 1 {
            assert(name =~= "."@);
        } else {
            assert(p[p.len() - 2] == name[n - 2]);
        }
    }
    assert(without_tail(p) == p);
    lemma_last_index(p, '/');
    assert(p[d] == '/');
    let i = last_index(p, '/');
    if i > d {
        assert(name[i - d - 1] == '/');
    }
    assert(p.take(d + 1) =~= dir.push('/'));
    assert(dir.push('/').drop_last() =~= dir);
}

/// A line `key = value` sets the key to the value, with the quotes around it, if
/// there are any, taken off; spaces around both do not count.
pub proof fn settings_are_read(
    key: Seq<char>,
    value: Seq<char>,
    before: Seq<char>,
    quotes: Seq<char>,
    after: Seq<char>,
)
    requires
        key.len() > 0 && value.len() > 0,
        !white(key[0]) && !white(key.last()) && !white(value[0]) && !white(value.last()),
        !key.contains('='),
        key[0] != '#',
        value[0] != '"' && value.last() != '"' && value[0] != '\'' && value.last() != '\'',
        quotes.len() == 0 || quotes == seq!['"'] || quotes == seq!['\''],
        forall|i: int| 0 <= i < before.len() ==> #[trigger] before[i] == ' ',
        forall|i: int| 0 <= i < after.len() ==> #[trigger] after[i] == ' ',
    ensures
        config_entry(key + before + seq!['='] + after + quotes + value + quotes) == Some(
            (key, value),
        ),
{
    let quoted = quotes + value + quotes;
    let l = key + before + seq!['='] + after + quotes + value + quotes;
    let none = Seq::<char>::empty();
    assert forall|c: char| c == ' ' implies white(c) by {}
    assert(!white('"') && !white('\''));
    assert(l[0] == key[0]);
    assert(quoted.len() > 0 && l.last() == quoted.last());
    assert(quoted.last() == if quotes.len() > 0 {
        quotes[0]
    } else {
        value.last()
    });
    assert(quoted[0] == if quotes.len() > 0 {
        quotes[0]
    } else {
        value[0]
    });
    trimming_keeps_the_middle(none, l, none);
    assert(none + l + none =~= l);
    let head = key + before;
    let i = head.len() as int;
    assert(l[i] == '=');
    assert forall|j: int| 0 <= j < i implies l[j] != '=' by {
        if j < key.len() {
            assert(l[j] == key[j]);
            assert(key.contains(key[j]));
        } else {
            assert(l[j] == before[j - key.len()]);
        }
    }
    l.index_of_first_ensures('=');
    assert(l.index_of_first('=')->0 == i);
    assert(l.take(i) =~= none + key + before);
    trimming_keeps_the_middle(none, key, before);
    assert(l.skip(i + 1) =~= after + quoted + none);
    trimming_keeps_the_middle(after, quoted, none);
    let (dq, sq) = (CharClass::Exactly('"'), CharClass::Exactly('\''));
    if quotes.len() == 0 {
        assert(quoted =~= none + value + none);
        stripping_keeps_the_middle(none, value, none, dq);
        stripping_keeps_the_middle(none, value, none, sq);
    } else if quotes[0] == '"' {
        stripping_keeps_the_middle(quotes, value, quotes, dq);
        assert(value =~= none + value + none);
        stripping_keeps_the_middle(none, value, none, sq);
    } else {
        assert(quoted =~= none + quoted + none);
        stripping_keeps_the_middle(none, quoted, none, dq);
        stripping_keeps_the_middle(quotes, value, quotes, sq);
    }
}

/// A line that is a comment, or that has no `=`, sets nothing.
pub proof fn comments_set_nothing(line: Seq<char>)
    ensures
        trimmed(line).len() > 0 && trimmed(line)[0] == '#' ==> config_entry(line) is None,
        !trimmed(line).contains('=') ==> config_entry(line) is None,
{
}

/// The line at `i` is the last that sets the key.
pub open spec fn sets_last(lines: Seq<Seq<char>>, key: Seq<char>, i: int) -> bool {
    0 <= i < lines.len() && config_entry(lines[i]) is Some && (config_entry(lines[i])->0).0 == key
        && forall|j: int|
        i < j < lines.len() ==> #[trigger] config_entry(lines[j]) is None || (config_entry(
            lines[j],
        )->0).0 != key
}

/// A key has the value that the last line for it sets, and none if no line sets
/// it.
pub proof fn the_last_line_for_a_key_counts(lines: Seq<Seq<char>>, key: Seq<char>)
    ensures
        config_of(lines).contains_key(key) <==> exists|i: int| sets_last(lines, key, i),
        forall|i: int| #[trigger]
            sets_last(lines, key, i) ==> config_of(lines)[key] == (config_entry(lines[i])->0).1,
    decreases lines.len(),
{
    if lines.len() > 0 {
        let rest = lines.drop_last();
        let n = lines.len() - 1;
        the_last_line_for_a_key_counts(rest, key);
        let here = config_entry(lines[n]) is Some && (config_entry(lines[n])->0).0 == key;
        if here {
            assert(sets_last(lines, key, n));
        }
        assert forall|i: int| #[trigger] sets_last(lines, key, i) implies config_of(lines)[key] == (
        config_entry(lines[i])->0).1 by {
            if i < n {
                assert(config_entry(lines[n]) is None || (config_entry(lines[n])->0).0 != key);
                assert forall|j: int| i < j < rest.len() implies #[trigger] config_entry(
                    rest[j],
                ) is None || (config_entry(rest[j])->0).0 != key by {
                    assert(rest[j] == lines[j]);
                }
                assert(sets_last(rest, key, i));
            }
        }
        if !here {
            if config_of(lines).contains_key(key) {
                let i = choose|i: int| sets_last(rest, key, i);
                assert forall|j: int| i < j < lines.len() implies #[trigger] config_entry(
                    lines[j],
                ) is None || (config_entry(lines[j])->0).0 != key by {
                    if j < n {
                        assert(config_entry(rest[j]) is None || (config_entry(rest[j])->0).0
                            != key);
                    }
                }
                assert(sets_last(lines, key, i));
            }
            if exists|i: int| sets_last(lines, key, i) {
                let i = choose|i: int| sets_last(lines, key, i);
                assert forall|j: int| i < j < rest.len() implies #[trigger] config_entry(
                    rest[j],
                ) is None || (config_entry(rest[j])->0).0 != key by {
                    assert(config_entry(lines[j]) is None || (config_entry(lines[j])->0).0 != key);
                }
                assert(sets_last(rest, key, i));
            }
        }
    }
}

/// The home directory is what the environment says.
pub open spec fn is_home(s: Settings, h: Seq<char>) -> bool {
    s.env@.contains_key("HOME"@) && s.env@["HOME"@]@ == h
}

/// A path below the home directory that was shortened for display is written out
/// again as the path that it was; other paths are neither shortened nor written
/// out.
pub proof fn shortened_paths_are_written_out_again(s: Settings, h: Seq<char>, rest: Seq<char>)
    requires
        is_home(s, h),
        h.len() > 0,
        h.last() != '/',
        rest.len() == 0 || rest[0] != '/',
    ensures
        with_tilde(s, h + seq!['/'] + rest) == seq!['~', '/'] + rest,
        s.expanded(seq!['~', '/'] + rest) == h + seq!['/'] + rest,
        with_tilde(s, h) == seq!['~'],
        forall|p: Seq<char>| !h.is_prefix_of(p) ==> #[trigger] with_tilde(s, p) == p,
        forall|p: Seq<char>| !seq!['~', '/'].is_prefix_of(p) ==> #[trigger] s.expanded(p) == p,
{
    reveal_strlit("~/");
    reveal_strlit("~");
    let p = h + seq!['/'] + rest;
    assert("~/"@ =~= seq!['~', '/']);
    assert("~"@ =~= seq!['~']);
    assert(h =~= p.subrange(0, h.len() as int));
    assert(h =~= h.subrange(0, h.len() as int));
    assert("~"@ + p.skip(h.len() as int) =~= seq!['~', '/'] + rest);
    assert("~"@ + h.skip(h.len() as int) =~= seq!['~']);
    let q = seq!['~', '/'] + rest;
    assert("~/"@ =~= q.subrange(0, 2));
    assert(q.skip(2) =~= rest);
    assert(h.push('/') + rest =~= p);
}

/// A setting that the environment makes under `env`, the config file under
/// `conf`, and that is `fallback` otherwise.
pub open spec fn is_set_by(
    s: Settings,
    r: Seq<char>,
    env: Seq<char>,
    conf: Seq<char>,
    fallback: Seq<char>,
) -> bool {
    &&& s.env@.contains_key(env) ==> r == s.expanded(s.env@[env]@)
    &&& !s.env@.contains_key(env) && s.config@.contains_key(conf) ==> r == s.expanded(
        s.config@[conf]@,
    )
    &&& !s.env@.contains_key(env) && !s.config@.contains_key(conf) ==> r == fallback
}

/// Every directory is where its setting says: what the environment and the
/// config file call it, and where it is by default.
pub proof fn directories_are_where_they_are_set(s: Settings)
    requires
        s.env@.contains_key("HOME"@),
    ensures
        ({
            let home = s.env@["HOME"@]@;
            let id = decimal(1142710);
            &&& s.home_dir() == home
            &&& is_set_by(
                s,
                s.steam(),
                "STEAM_ROOT"@,
                "steam_root"@,
                path_join(home, ".local/share/Steam"@),
            )
            &&& is_set_by(
                s,
                s.data(),
                "TWWH3_DATA"@,
                "data_dir"@,
                path_join(home, "Games/TotalWarWH3"@),
            )
            &&& is_set_by(
                s,
                s.modlists(),
                "TWWH3_MODLISTS"@,
                "modlists"@,
                path_join(s.data(), "modlists"@),
            )
            &&& is_set_by(
                s,
                s.local_mods(),
                "TWWH3_LOCAL"@,
                "local_mods"@,
                path_join(s.data(), "local_mods"@),
            )
            &&& is_set_by(
                s,
                s.versioned_mods(),
                "TWWH3_VERSIONED_WORKSHOP_MODS"@,
                "versioned_workshop_mods"@,
                path_join(s.data(), "versioned_workshop_mods"@),
            )
            &&& is_set_by(
                s,
                s.staging(),
                "TWWH3_STAGING"@,
                "staging"@,
                path_join(s.data(), "staging"@),
            )
            &&& is_set_by(
                s,
                s.workshop(),
                "TWWH3_WORKSHOP"@,
                "workshop"@,
                path_join(s.steam(), "steamapps/workshop/content/"@ + id),
            )
            &&& is_set_by(
                s,
                s.moddata(),
                "TWWH3_MODDATA"@,
                "moddata"@,
                path_join(s.steam(), "steamapps/compatdata/"@ + id + MODDATA_BELOW@),
            )
            &&& s.env@.contains_key("XDG_CACHE_HOME"@) ==> s.cache() == s.env@["XDG_CACHE_HOME"@]@
            &&& !s.env@.contains_key("XDG_CACHE_HOME"@) ==> s.cache() == path_join(
                home,
                ".cache"@,
            )
            &&& s.env@.contains_key("XDG_CONFIG_HOME"@) ==> config_path(s) == path_join(
                s.env@["XDG_CONFIG_HOME"@]@,
                "twwh3-mods/config"@,
            )
            &&& !s.env@.contains_key("XDG_CONFIG_HOME"@) ==> config_path(s) == path_join(
                path_join(home, ".config"@),
                "twwh3-mods/config"@,
            )
        }),
{
}

/// The game sees a file below the drive of the whole file system.
pub proof fn the_game_sees_files_below_a_drive(p: Seq<char>)
    ensures
        win_path(p) == seq!['Z', ':'] + p,
{
    reveal_strlit("Z:");
    assert("Z:"@ =~= seq!['Z', ':']);
}

/// Two paths are the same exactly if they start alike and have the same parts
/// one by one.
pub proof fn same_paths_have_the_same_parts(a: Seq<char>, b: Seq<char>)
    ensures
        same_paths(a, b) <==> {
            &&& seq!['/'].is_prefix_of(a) == seq!['/'].is_prefix_of(b)
            &&& (a == seq!['.'] || seq!['.', '/'].is_prefix_of(a)) == (b == seq!['.'] || seq![
                '.',
                '/',
            ].is_prefix_of(b))
            &&& path_parts(a).len() == path_parts(b).len()
            &&& forall|i: int|
                0 <= i < path_parts(a).len() ==> #[trigger] path_parts(a)[i] == path_parts(b)[i]
        },
{
    lemma_starts(a);
    lemma_starts(b);
    if path_parts(a).len() == path_parts(b).len() && forall|i: int|
        0 <= i < path_parts(a).len() ==> #[trigger] path_parts(a)[i] == path_parts(b)[i] {
        assert(path_parts(a) =~= path_parts(b));
    }
}

pub(crate) proof fn lemma_starts(p: Seq<char>)
    ensures
        from_root(p) == seq!['/'].is_prefix_of(p),
        from_dot(p) == (p == seq!['.'] || seq!['.', '/'].is_prefix_of(p)),
{
    if from_root(p) {
        assert(seq!['/'] =~= p.subrange(0, 1));
    }
    if seq!['/'].is_prefix_of(p) {
        assert(p[0] == seq!['/'][0]);
    }
    if p.len() >= 2 && p[0] == '.' && p[1] == '/' {
        assert(seq!['.', '/'] =~= p.subrange(0, 2));
    }
    if seq!['.', '/'].is_prefix_of(p) {
        assert(p[0] == seq!['.', '/'][0] && p[1] == seq!['.', '/'][1]);
    }
    if p.len() == 1 && p[0] == '.' {
        assert(p =~= seq!['.']);
    }
}

/// A slash at the end of a path does not count: the file has the same name and
/// the same siblings.
pub proof fn a_slash_at_the_end_does_not_count(p: Seq<char>, other: Seq<char>)
    requires
        p.len() > 0,
        name_of(p) is Some,
    ensures
        name_of(p.push('/')) == name_of(p),
        sibling(p.push('/'), other) == sibling(p, other),
{
    let none = Seq::<char>::empty();
    joined_path_has_both_parts(none, none);
    assert(none + none =~= none);
    assert(path_parts(none).len() == 0);
    parts_around_a_slash(p, none);
    assert(p.push('/') + none =~= p.push('/'));
    assert(path_parts(p) + path_parts(none) =~= path_parts(p));
    assert(p.push('/').drop_last() =~= p);
}

} // verus!
