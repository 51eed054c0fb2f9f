//! The overlay on the game's `data/` folder: finding programs, mount requests,
//! and what is mounted.

use vstd::prelude::*;
use vstd::string::StringExecFns;

use crate::paths::{
    cache_dir, expand_path, join_path, path_join, same_path, same_paths, setting, Settings,
};
use crate::profiles::opt_str;
use crate::text::{
    contains, has_text, joined, joined_texts_are_split_again, lines, lines_of, none_in, opt_text,
    same, split, split_on, splitting_cuts_at_separators, starts_with, texts, to_chars, trim, trimmed,
    trimming_keeps_the_middle, white, words, words_of, CharClass,
};

verus! {

/// Where a program may lie on a search path: below each of its directories.
pub open spec fn places(path: Seq<char>, bin: Seq<char>) -> Seq<Seq<char>> {
    split_on(path, CharClass::Exactly(':')).map_values(|d: Seq<char>| path_join(d, bin))
}

/// Where a program may lie on a search path; the first file among these is the
/// program.
pub fn on_path(path: &str, bin: &str) -> (r: Vec<String>)
    ensures
        texts(r@) == places(path@, bin@),
{
    let dirs = split(path, CharClass::Exactly(':'));
    let ghost all = places(path@, bin@);
    let mut out: Vec<String> = Vec::new();
    let mut i: usize = 0;
    while i < dirs.len()
        invariant
            i <= dirs@.len() == all.len(),
            texts(dirs@) == split_on(path@, CharClass::Exactly(':')),
            all == places(path@, bin@),
            texts(out@) == all.take(i as int),
        decreases dirs@.len() - i,
    {
        let ghost o0 = out@;
        assert(texts(dirs@)[i as int] == dirs@[i as int]@);
        let p = join_path(dirs[i].as_str(), bin);
        out.push(p);
        i = i + 1;
        assert(texts(out@) =~= texts(o0).push(p@));
        assert(all.take(i as int) =~= all.take(i - 1).push(all[i - 1]));
    }
    assert(all.take(i as int) =~= all);
    out
}

/// Some text mentions `word`.
pub open spec fn any_has(v: Seq<Seq<char>>, word: Seq<char>) -> bool {
    exists|i: int| 0 <= i < v.len() && has_text(#[trigger] v[i], word)
}

/// Whether the launch options mention the launch shim, as far as that is known.
pub open spec fn shim_mentioned(configs: Seq<Seq<char>>) -> Option<bool> {
    if configs.len() == 0 {
        None
    } else {
        Some(any_has(configs, "twwh3-run"@))
    }
}

/// Whether some Steam user's launch options mention the launch shim, given the
/// configurations that could be read. Without any it is unknown.
pub fn launch_options_use_shim(configs: &Vec<String>) -> (r: Option<bool>)
    ensures
        r == (if any_has(texts(configs@), "twwh3-run"@) {
            Some(true)
        } else if configs@.len() > 0 {
            Some(false)
        } else {
            None
        }),
        r == shim_mentioned(texts(configs@)),
{
    let ghost all = texts(configs@);
    let mut i: usize = 0;
    while i < configs.len()
        invariant
            i <= configs@.len(),
            all == texts(configs@),
            forall|j: int| 0 <= j < i ==> !has_text(#[trigger] all[j], "twwh3-run"@),
        decreases configs@.len() - i,
    {
        assert(all[i as int] == configs@[i as int]@);
        if contains(configs[i].as_str(), "twwh3-run") {
            assert(has_text(all[i as int], "twwh3-run"@));
            return Some(true);
        }
        i = i + 1;
    }
    if configs.len() > 0 {
        Some(false)
    } else {
        None
    }
}

/// A path as the list of mounts writes it: each space as `\040`.
pub open spec fn spaces_escaped(s: Seq<char>) -> Seq<char>
    decreases s.len(),
{
    if s.len() == 0 {
        Seq::empty()
    } else if s.last() == ' ' {
        spaces_escaped(s.drop_last()) + "\\040"@
    } else {
        spaces_escaped(s.drop_last()).push(s.last())
    }
}

/// A line of the list of mounts says that a FUSE file system is mounted on
/// `target`.
pub open spec fn is_fuse_mount(line: Seq<char>, target: Seq<char>) -> bool {
    let w = words_of(line, CharClass::White);
    w.len() >= 3 && w[1] == target && has_text(w[2], "fuse"@)
}

/// Some line says that a FUSE file system is mounted on `target`.
pub open spec fn any_fuse_mount(lines: Seq<Seq<char>>, target: Seq<char>) -> bool {
    exists|i: int| 0 <= i < lines.len() && is_fuse_mount(#[trigger] lines[i], target)
}

/// Something by FUSE is mounted on `dir`, as the list of mounts says.
pub open spec fn fuse_mounted(mounts: Option<Seq<char>>, dir: Seq<char>) -> bool {
    match mounts {
        Some(text) => any_fuse_mount(lines_of(text), spaces_escaped(dir)),
        None => false,
    }
}

/// A path as the list of mounts writes it.
fn escape_spaces(s: &str) -> (r: String)
    ensures
        r@ == spaces_escaped(s@),
{
    let v = to_chars(s);
    let mut out: String = String::new();
    let mut i: usize = 0;
    assert(v@.take(0) =~= Seq::<char>::empty());
    assert(out@ =~= spaces_escaped(v@.take(0)));
    while i < v.len()
        invariant
            i <= v@.len(),
            out@ == spaces_escaped(v@.take(i as int)),
        decreases v@.len() - i,
    {
        assert(v@.take(i + 1).drop_last() =~= v@.take(i as int));
        if v[i] == ' ' {
            out.append("\\040");
        } else {
            out.push(v[i]);
        }
        i = i + 1;
    }
    assert(v@.take(i as int) =~= v@);
    out
}

/// Whether something by FUSE is mounted on `dir`: the game's overlay or a
/// preview. `mounts` is the system's list of mounts, if it could be read.
pub fn overlay_mounted(mounts: Option<&str>, dir: &str) -> (r: bool)
    ensures
        r == fuse_mounted(opt_str(mounts), dir@),
{
    let text = match mounts {
        Some(t) => t,
        None => {
            return false;
        },
    };
    let target = escape_spaces(dir);
    let all = lines(text);
    let ghost ls = lines_of(text@);
    let mut i: usize = 0;
    while i < all.len()
        invariant
            i <= all@.len(),
            mounts == Some(text),
            ls == lines_of(text@),
            texts(all@) == ls,
            target@ == spaces_escaped(dir@),
            forall|j: int| 0 <= j < i ==> !is_fuse_mount(#[trigger] ls[j], target@),
        decreases all@.len() - i,
    {
        assert(ls[i as int] == all@[i as int]@);
        let w = words(all[i].as_str(), CharClass::White);
        assert(texts(w@).len() == w@.len());
        if w.len() >= 3 {
            assert(texts(w@)[1] == w@[1]@ && texts(w@)[2] == w@[2]@);
            if same(w[1].as_str(), target.as_str()) && contains(w[2].as_str(), "fuse") {
                assert(is_fuse_mount(ls[i as int], target@));
                return true;
            }
        }
        i = i + 1;
    }
    false
}

/// Where a shell script that names directories on a search path may find
/// `fuse-overlayfs`.
pub open spec fn fuse_places(pieces: Seq<Seq<char>>) -> Seq<Seq<char>>
    decreases pieces.len(),
{
    if pieces.len() == 0 {
        Seq::empty()
    } else {
        let rest = fuse_places(pieces.drop_last());
        let p = pieces.last();
        if "/"@.is_prefix_of(p) && has_text(p, "fuse-overlayfs"@) {
            rest.push(path_join(p, "fuse-overlayfs"@))
        } else {
            rest
        }
    }
}

/// Where the wrapped launch shim may find `fuse-overlayfs`, given its script;
/// the first file among these is the program.
pub fn find_fuse_overlayfs(script: &str) -> (r: Vec<String>)
    ensures
        texts(r@) == fuse_places(split_on(script@, CharClass::WhiteOr('"', ':'))),
{
    let pieces = split(script, CharClass::WhiteOr('"', ':'));
    let ghost all = texts(pieces@);
    let mut out: Vec<String> = Vec::new();
    let mut i: usize = 0;
    assert(all.take(0) =~= Seq::<Seq<char>>::empty());
    assert(texts(out@) =~= fuse_places(all.take(0)));
    while i < pieces.len()
        invariant
            i <= pieces@.len(),
            all == texts(pieces@),
            texts(out@) == fuse_places(all.take(i as int)),
        decreases pieces@.len() - i,
    {
        assert(all.take(i + 1).drop_last() =~= all.take(i as int));
        assert(all.take(i + 1).last() == pieces@[i as int]@);
        let p = pieces[i].as_str();
        if starts_with(p, "/") && contains(p, "fuse-overlayfs") {
            let ghost o0 = out@;
            let q = join_path(p, "fuse-overlayfs");
            out.push(q);
            assert(texts(out@) =~= texts(o0).push(q@));
        }
        i = i + 1;
    }
    assert(all.take(i as int) =~= all);
    out
}

/// The file that asks for the overlay to be mounted.
pub fn mount_request_file(s: &Settings) -> (r: String)
    ensures
        r@ == path_join(s.cache(), "twwh3-mount-request"@),
{
    join_path(cache_dir(s).as_str(), "twwh3-mount-request")
}

/// The file that asks for the overlay to be unmounted.
pub fn unmount_request_file(s: &Settings) -> (r: String)
    ensures
        r@ == path_join(s.cache(), "twwh3-unmount-request"@),
{
    join_path(cache_dir(s).as_str(), "twwh3-unmount-request")
}

/// The file that says that mount requests are being answered.
pub fn mount_listener_marker(s: &Settings) -> (r: String)
    ensures
        r@ == path_join(s.cache(), "twwh3-mount-listener"@),
{
    join_path(cache_dir(s).as_str(), "twwh3-mount-listener")
}

/// The file in which the launch shim records how it launched the game.
pub fn overlay_status_file(s: &Settings) -> (r: String)
    ensures
        r@ == path_join(s.cache(), "twwh3-overlay-status"@),
{
    join_path(cache_dir(s).as_str(), "twwh3-overlay-status")
}

/// The folder that a mount request names, unless it is blank.
pub open spec fn requested(text: Seq<char>) -> Option<Seq<char>> {
    if trimmed(text).len() > 0 {
        Some(trimmed(text))
    } else {
        None
    }
}

/// The folder that a mount request names.
pub fn request_target(text: &str) -> (r: Option<String>)
    ensures
        opt_text(r) == requested(text@),
{
    let t = trim(text);
    if t.as_str().is_empty() {
        None
    } else {
        Some(t)
    }
}

/// The game's `data/` folder.
pub open spec fn data_path(game: Seq<char>) -> Seq<char> {
    path_join(game, "data"@)
}

/// The game's `data/` folder.
pub fn data_of(game: &str) -> (r: String)
    ensures
        r@ == data_path(game@),
{
    join_path(game, "data")
}

/// What to do about a request to mount or unmount.
#[derive(Clone, Copy, PartialEq, Eq, Structural)]
pub enum MountPlan {
    /// Refuse it.
    Refuse,
    /// Nothing is left to do.
    Nothing,
    Mount,
    /// Clear a stale overlay first.
    UnmountThenMount,
    Unmount,
}

/// What is to be done about a request to mount on `data`.
pub open spec fn mount_plan(
    game: Option<Seq<char>>,
    data: Seq<char>,
    mounts: Option<Seq<char>>,
) -> MountPlan {
    match game {
        Some(g) => if !same_paths(data_path(g), data) {
            MountPlan::Refuse
        } else if fuse_mounted(mounts, data) {
            MountPlan::UnmountThenMount
        } else {
            MountPlan::Mount
        },
        None => MountPlan::Refuse,
    }
}

/// What to do about a request to mount the overlay on `data`: only the game's
/// own `data/` is ever mounted on, and a stale overlay is cleared first.
pub fn overlay_mount(game: Option<&str>, data: &str, mounts: Option<&str>) -> (r: MountPlan)
    ensures
        r == (if opt_str(game) matches Some(g) && same_paths(data_path(g), data@) {
            if fuse_mounted(opt_str(mounts), data@) {
                MountPlan::UnmountThenMount
            } else {
                MountPlan::Mount
            }
        } else {
            MountPlan::Refuse
        }),
        r == mount_plan(opt_str(game), data@, opt_str(mounts)),
{
    let own = match game {
        Some(g) => same_path(data_of(g).as_str(), data),
        None => false,
    };
    if !own {
        MountPlan::Refuse
    } else if overlay_mounted(mounts, data) {
        MountPlan::UnmountThenMount
    } else {
        MountPlan::Mount
    }
}

/// What is to be done about a request to unmount what is on `data`.
pub open spec fn unmount_plan(data: Seq<char>, mounts: Option<Seq<char>>) -> MountPlan {
    if !fuse_mounted(mounts, data) {
        MountPlan::Nothing
    } else {
        MountPlan::Unmount
    }
}

/// What to do about a request to unmount the overlay on `data`.
pub fn overlay_unmount(data: &str, mounts: Option<&str>) -> (r: MountPlan)
    ensures
        r == (if fuse_mounted(opt_str(mounts), data@) {
            MountPlan::Unmount
        } else {
            MountPlan::Nothing
        }),
        r == unmount_plan(data@, opt_str(mounts)),
{
    if overlay_mounted(mounts, data) {
        MountPlan::Unmount
    } else {
        MountPlan::Nothing
    }
}

/// The mount option that lays the staging folder over `data`.
pub fn lower_dirs(staging: &str, data: &str) -> (r: String)
    ensures
        r@ == "lowerdir="@ + staging@ + ":"@ + data@,
{
    "lowerdir=".to_owned().concat(staging).concat(":").concat(data)
}

/// What folders are opened with.
pub enum Opener {
    /// The program at this path.
    At(String),
    /// The program of this name on the search path.
    Named(String),
}

/// What an opener says.
pub enum OpenerView {
    At(Seq<char>),
    Named(Seq<char>),
}

impl View for Opener {
    type V = OpenerView;

    open spec fn view(&self) -> OpenerView {
        match *self {
            Opener::At(p) => OpenerView::At(p@),
            Opener::Named(n) => OpenerView::Named(n@),
        }
    }
}

impl Settings {
    /// What folders are opened with: the `open_with` setting, by its path or
    /// by its name on the search path, or else `xdg-open`.
    pub open spec fn opener(self) -> OpenerView {
        match self.value("TWWH3_OPEN"@, "open_with"@) {
            Some(cmd) => if "/"@.is_prefix_of(self.expanded(cmd)) {
                OpenerView::At(self.expanded(cmd))
            } else {
                OpenerView::Named(cmd)
            },
            None => OpenerView::Named("xdg-open"@),
        }
    }
}

/// What folders are opened with.
pub fn dir_opener(s: &Settings) -> (r: Opener)
    ensures
        r@ == s.opener(),
{
    match setting(s, "TWWH3_OPEN", "open_with") {
        Some(cmd) => {
            let p = expand_path(s, cmd.as_str());
            if starts_with(p.as_str(), "/") {
                Opener::At(p)
            } else {
                Opener::Named(cmd)
            }
        },
        None => Opener::Named("xdg-open".to_owned()),
    }
}

/// What is told when there is nothing to open folders with.
pub const OPENER_HINT: &'static str =
    "no file manager found — set open_with in ~/.config/twwh3-mods/config";

/// A program is looked for below every directory of the search path, in order.
pub proof fn every_directory_of_the_path_is_searched(dirs: Seq<Seq<char>>, bin: Seq<char>)
    requires
        dirs.len() > 0,
        forall|i: int| 0 <= i < dirs.len() ==> !(#[trigger] dirs[i]).contains(':'),
    ensures
        places(joined(dirs, seq![':']), bin).len() == dirs.len(),
        forall|i: int|
            0 <= i < dirs.len() ==> #[trigger] places(joined(dirs, seq![':']), bin)[i] == path_join(
                dirs[i],
                bin,
            ),
{
    joined_texts_are_split_again(dirs, ':');
}

/// The list of mounts writes a path with `\\040` for each space, and everything
/// else as it is.
pub proof fn spaces_are_written_as_codes(s: Seq<char>)
    ensures
        spaces_escaped(s) == s.map_values(
            |c: char|
                if c == ' ' {
                    seq!['\\', '0', '4', '0']
                } else {
                    seq![c]
                },
        ).flatten(),
    decreases s.len(),
{
    reveal_strlit("\\040");
    let f = |c: char|
        if c == ' ' {
            seq!['\\', '0', '4', '0']
        } else {
            seq![c]
        };
    if s.len() > 0 {
        let d = s.drop_last();
        spaces_are_written_as_codes(d);
        assert(s.map_values(f) =~= d.map_values(f).push(f(s.last())));
        d.map_values(f).lemma_flatten_push(f(s.last()));
        assert("\\040"@ =~= seq!['\\', '0', '4', '0']);
        assert(spaces_escaped(d).push(s.last()) =~= spaces_escaped(d) + seq![s.last()]);
    } else {
        assert(s.map_values(f).flatten() =~= Seq::<char>::empty());
    }
}

/// A text without white space.
pub open spec fn is_word(s: Seq<char>) -> bool {
    s.len() > 0 && forall|i: int| 0 <= i < s.len() ==> !white(#[trigger] s[i])
}

/// A line of the list of mounts names what is mounted, where, and by which kind
/// of file system; it counts where that is the place and the kind is of FUSE.
pub proof fn mounts_are_told_by_place_and_kind(
    dev: Seq<char>,
    place: Seq<char>,
    kind: Seq<char>,
    rest: Seq<char>,
    target: Seq<char>,
)
    requires
        is_word(dev),
        is_word(place),
        is_word(kind),
    ensures
        is_fuse_mount(
            dev + seq![' '] + place + seq![' '] + kind + seq![' '] + rest,
            target,
        ) <==> place == target && has_text(kind, "fuse"@),
{
    let k = CharClass::White;
    let none = Seq::<char>::empty();
    assert(white(' '));
    assert(none_in(dev, k) && none_in(place, k) && none_in(kind, k));
    let l2 = kind.push(' ') + rest;
    let l1 = place.push(' ') + l2;
    splitting_cuts_at_separators(dev, ' ', l1, k);
    splitting_cuts_at_separators(place, ' ', l2, k);
    splitting_cuts_at_separators(kind, ' ', rest, k);
    let line = dev + seq![' '] + place + seq![' '] + kind + seq![' '] + rest;
    assert(line =~= dev.push(' ') + l1);
    let w = words_of(line, k);
    assert(w =~= seq![dev] + (seq![place] + (seq![kind] + words_of(rest, k))));
    assert(w.len() >= 3 && w[1] == place && w[2] == kind);
}

/// A FUSE file system is mounted on a folder exactly if some line of the list
/// says so; without a list nothing is.
pub proof fn mounts_are_listed(text: Seq<char>, dir: Seq<char>)
    ensures
        fuse_mounted(Some(text), dir) <==> exists|i: int|
            0 <= i < lines_of(text).len() && is_fuse_mount(
                #[trigger] lines_of(text)[i],
                spaces_escaped(dir),
            ),
        !fuse_mounted(None, dir),
{
}

/// Every absolute directory of a script that mentions `fuse-overlayfs` may hold
/// it, in the order in which they are named.
pub proof fn every_named_directory_is_searched(pieces: Seq<Seq<char>>)
    ensures
        fuse_places(pieces) == pieces.filter(
            |p: Seq<char>| seq!['/'].is_prefix_of(p) && has_text(p, "fuse-overlayfs"@),
        ).map_values(|p: Seq<char>| path_join(p, "fuse-overlayfs"@)),
    decreases pieces.len(),
{
    reveal(Seq::filter);
    reveal_strlit("/");
    assert("/"@ =~= seq!['/']);
    let keep = |p: Seq<char>| seq!['/'].is_prefix_of(p) && has_text(p, "fuse-overlayfs"@);
    let place = |p: Seq<char>| path_join(p, "fuse-overlayfs"@);
    if pieces.len() > 0 {
        let d = pieces.drop_last();
        every_named_directory_is_searched(d);
        let kept = d.filter(keep);
        assert(kept.push(pieces.last()).map_values(place) =~= kept.map_values(place).push(
            place(pieces.last()),
        ));
    } else {
        assert(pieces.filter(keep).map_values(place) =~= Seq::<Seq<char>>::empty());
    }
}

/// A request names the folder that stands in it, without the white space around
/// it; a blank one names none.
pub proof fn requests_name_their_folder(a: Seq<char>, t: Seq<char>, b: Seq<char>)
    requires
        forall|i: int| 0 <= i < a.len() ==> white(#[trigger] a[i]),
        forall|i: int| 0 <= i < b.len() ==> white(#[trigger] b[i]),
        t.len() > 0,
        !white(t[0]),
        !white(t.last()),
    ensures
        requested(a + t + b) == Some(t),
        requested(a) is None,
{
    trimming_keeps_the_middle(a, t, b);
}

/// Folders are opened with what is set, by its path if that is absolute, and else
/// by its name; without a setting with `xdg-open`.
pub proof fn folders_are_opened_with_what_is_set(s: Settings, cmd: Seq<char>)
    ensures
        s.env@.contains_key("TWWH3_OPEN"@) && s.env@["TWWH3_OPEN"@]@ == cmd && seq!['/'].is_prefix_of(
            s.expanded(cmd),
        ) ==> s.opener() == OpenerView::At(s.expanded(cmd)),
        s.env@.contains_key("TWWH3_OPEN"@) && s.env@["TWWH3_OPEN"@]@ == cmd
            && !seq!['/'].is_prefix_of(s.expanded(cmd)) ==> s.opener() == OpenerView::Named(cmd),
        !s.env@.contains_key("TWWH3_OPEN"@) && s.config@.contains_key("open_with"@)
            && s.config@["open_with"@]@ == cmd && seq!['/'].is_prefix_of(s.expanded(cmd))
            ==> s.opener() == OpenerView::At(s.expanded(cmd)),
        !s.env@.contains_key("TWWH3_OPEN"@) && s.config@.contains_key("open_with"@)
            && s.config@["open_with"@]@ == cmd && !seq!['/'].is_prefix_of(s.expanded(cmd))
            ==> s.opener() == OpenerView::Named(cmd),
        !s.env@.contains_key("TWWH3_OPEN"@) && !s.config@.contains_key("open_with"@) ==> s.opener()
            == OpenerView::Named("xdg-open"@),
{
    reveal_strlit("/");
    assert("/"@ =~= seq!['/']);
}

/// Only the game's own `data/` is ever mounted on, and what is mounted there is
/// unmounted first.
pub proof fn only_the_games_folder_is_mounted_on(
    game: Option<Seq<char>>,
    data: Seq<char>,
    mounts: Option<Seq<char>>,
)
    ensures
        ({
            let r = mount_plan(game, data, mounts);
            let own = game is Some && same_paths(path_join(game->0, "data"@), data);
            &&& r == MountPlan::Refuse <==> !own
            &&& r == MountPlan::Mount <==> own && !fuse_mounted(mounts, data)
            &&& r == MountPlan::UnmountThenMount <==> own && fuse_mounted(mounts, data)
        }),
{
}

/// The launch shim is set up exactly if some configuration mentions it, and that
/// is unknown exactly if there is none.
pub proof fn the_shim_is_set_up_where_it_is_mentioned(configs: Seq<Seq<char>>)
    ensures
        shim_mentioned(configs) is None <==> configs.len() == 0,
        shim_mentioned(configs) == Some(true) <==> exists|i: int|
            0 <= i < configs.len() && has_text(#[trigger] configs[i], "twwh3-run"@),
{
}

/// Something is unmounted exactly if it is mounted.
pub proof fn what_is_mounted_is_unmounted(data: Seq<char>, mounts: Option<Seq<char>>)
    ensures
        unmount_plan(data, mounts) == MountPlan::Unmount <==> fuse_mounted(mounts, data),
        unmount_plan(data, mounts) == MountPlan::Nothing <==> !fuse_mounted(mounts, data),
{
}

} // verus!
