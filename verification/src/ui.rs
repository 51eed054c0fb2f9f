//! What the screen says: rows, labels and their emphasis.

use vstd::prelude::*;
use vstd::string::StringExecFns;

use crate::app::{App, AppView, Mode};
use crate::calendar::{fmt_date, shown_date};
use crate::model::{VersionInfo, VersionView};
use crate::paths::{tilde, with_tilde, Settings};
use crate::store::{human_size, size_text};
use crate::text::{
    find, from_chars, has_text, occurs_at, pad, padded, to_chars,
};

verus! {

/// One row of the status page. `ok` drives the colour: yes is green, no is red,
/// neither is informational. An empty value marks a section header.
pub struct StatusLine {
    pub label: String,
    pub value: String,
    pub ok: Option<bool>,
}

/// What a row of the status page says.
#[verifier::ext_equal]
pub struct LineView {
    pub label: Seq<char>,
    pub value: Seq<char>,
    pub ok: Option<bool>,
}

impl View for StatusLine {
    type V = LineView;

    open spec fn view(&self) -> LineView {
        LineView { label: self.label@, value: self.value@, ok: self.ok }
    }
}

/// What the rows of the status page say.
pub open spec fn line_views(v: Seq<StatusLine>) -> Seq<LineView> {
    v.map_values(|l: StatusLine| l@)
}

/// A section header of the status page.
pub open spec fn section_view(label: Seq<char>) -> LineView {
    LineView { label, value: Seq::empty(), ok: None }
}

/// A row of the status page.
pub open spec fn row_view(label: Seq<char>, value: Seq<char>, ok: Option<bool>) -> LineView {
    LineView { label, value, ok }
}

/// A row for a path: good if it exists, else with a note.
pub open spec fn path_row(
    s: Settings,
    label: Seq<char>,
    p: Seq<char>,
    exists: bool,
    missing_note: Seq<char>,
    missing_ok: Option<bool>,
) -> LineView {
    if exists {
        row_view(label, with_tilde(s, p), Some(true))
    } else {
        row_view(label, with_tilde(s, p) + " "@ + missing_note, missing_ok)
    }
}

impl StatusLine {
    /// A section header.
    pub fn section(label: &str) -> (r: StatusLine)
        ensures
            r@ == section_view(label@),
    {
        let value = String::new();
        assert(value@ =~= Seq::<char>::empty());
        StatusLine { label: label.to_owned(), value, ok: None }
    }

    /// A row.
    pub fn new(label: &str, value: String, ok: Option<bool>) -> (r: StatusLine)
        ensures
            r@ == row_view(label@, value@, ok),
    {
        StatusLine { label: label.to_owned(), value, ok }
    }
}

/// A row for a path: green when it exists, else with `missing_note` and the
/// severity `missing_ok`.
pub fn path_line(
    s: &Settings,
    label: &str,
    p: &str,
    exists: bool,
    missing_note: &str,
    missing_ok: Option<bool>,
) -> (r: StatusLine)
    ensures
        r@ == path_row(*s, label@, p@, exists, missing_note@, missing_ok),
{
    if exists {
        StatusLine::new(label, tilde(s, p), Some(true))
    } else {
        StatusLine::new(label, tilde(s, p).concat(" ").concat(missing_note), missing_ok)
    }
}

/// The colours that texts have.
#[derive(Clone, Copy, PartialEq, Eq, Structural)]
pub enum Tone {
    Plain,
    Gray,
    Green,
    Red,
    Yellow,
    Magenta,
    Cyan,
}

/// A text with its emphasis.
pub struct Styled {
    pub text: String,
    pub tone: Tone,
    pub bold: bool,
}

/// What a text with its emphasis says.
#[verifier::ext_equal]
pub struct StyledView {
    pub text: Seq<char>,
    pub tone: Tone,
    pub bold: bool,
}

impl View for Styled {
    type V = StyledView;

    open spec fn view(&self) -> StyledView {
        StyledView { text: self.text@, tone: self.tone, bold: self.bold }
    }
}

/// What the texts say.
pub open spec fn styled_views(v: Seq<Styled>) -> Seq<StyledView> {
    v.map_values(|x: Styled| x@)
}

/// A text without emphasis.
pub open spec fn plain_text(text: Seq<char>) -> StyledView {
    StyledView { text, tone: Tone::Plain, bold: false }
}

/// A text in a colour.
pub open spec fn toned(text: Seq<char>, tone: Tone) -> StyledView {
    StyledView { text, tone, bold: false }
}

/// The current profile's name, emphasised.
pub open spec fn profile_label(v: AppView) -> StyledView {
    match v.current_profile {
        Some(p) => StyledView { text: p, tone: Tone::Cyan, bold: true },
        None => toned("(unsaved)"@, Tone::Yellow),
    }
}

/// The first position at or after `from` at which `pat` occurs.
pub open spec fn first_found(s: Seq<char>, pat: Seq<char>, from: int) -> Option<int>
    decreases s.len() - from + 1,
{
    if from > s.len() - pat.len() {
        None
    } else if occurs_at(s, pat, from) {
        Some(from)
    } else {
        first_found(s, pat, from + 1)
    }
}

/// `s` with the first occurrence of `pat` replaced.
pub open spec fn replaced_once(s: Seq<char>, pat: Seq<char>, by: Seq<char>) -> Seq<char> {
    match first_found(s, pat, 0) {
        Some(i) => s.take(i) + by + s.skip(i + pat.len()),
        None => s,
    }
}

/// A path as the header shows it in `room` columns: with the home directory
/// shortened, and its head cut off where it is too long.
pub open spec fn header_path_text(s: Settings, path: Seq<char>, room: nat) -> Seq<char> {
    let p = match s.env_value("HOME"@) {
        Some(h) => if h.len() > 0 {
            replaced_once(path, h, "~"@)
        } else {
            path
        },
        None => path,
    };
    if p.len() > room {
        let keep = if room > 0 {
            room - 1
        } else {
            0
        };
        "…"@ + p.skip(p.len() - keep) + " "@
    } else {
        p + " "@
    }
}

proof fn lemma_first_found(s: Seq<char>, pat: Seq<char>, from: int, at: int)
    requires
        0 <= from <= at,
        occurs_at(s, pat, at),
        forall|j: int| from <= j < at ==> !occurs_at(s, pat, j),
    ensures
        first_found(s, pat, from) == Some(at),
    decreases at - from,
{
    if from < at {
        lemma_first_found(s, pat, from + 1, at);
    }
}

proof fn lemma_not_found(s: Seq<char>, pat: Seq<char>, from: int)
    requires
        0 <= from,
        !has_text(s, pat),
    ensures
        first_found(s, pat, from) is None,
    decreases s.len() - from + 1,
{
    if from <= s.len() - pat.len() {
        assert(!occurs_at(s, pat, from));
        lemma_not_found(s, pat, from + 1);
    }
}

/// `s` with the first occurrence of `pat` replaced.
pub fn replace_once(s: &str, pat: &str, by: &str) -> (r: String)
    ensures
        r@ == replaced_once(s@, pat@, by@),
{
    match find(s, pat) {
        Some(i) => {
            let v = to_chars(s);
            let p = to_chars(pat);
            let n: usize = p.len();
            let end: usize = v.len();
            proof {
                assert(occurs_at(s@, pat@, i as int));
                assert(i + n <= end);
                lemma_first_found(s@, pat@, 0, i as int);
            }
            let head = from_chars(&v, 0, i);
            let tail = from_chars(&v, i + n, end);
            assert(head@ =~= s@.take(i as int));
            assert(tail@ =~= s@.skip(i + n));
            head.concat(by).concat(tail.as_str())
        },
        None => {
            proof {
                lemma_not_found(s@, pat@, 0);
            }
            s.to_owned()
        },
    }
}

/// How much room the header has for the path, right of a text of `left`
/// columns: none if too little is left.
pub fn header_room(width: u16, left: u16) -> (r: Option<u16>)
    ensures
        r == (if width > left + 2 + 12 {
            Some((width - left - 2) as u16)
        } else {
            None
        }),
{
    if width as u32 > left as u32 + 2 + 12 {
        Some(width - left - 2)
    } else {
        None
    }
}

/// A path as the header shows it in `room` columns.
pub fn header_path(s: &Settings, path: &str, room: usize) -> (r: String)
    ensures
        r@ == header_path_text(*s, path@, room as nat),
{
    let p = match s.env.get("HOME") {
        Some(h) => if h.as_str().is_empty() {
            path.to_owned()
        } else {
            replace_once(path, h.as_str(), "~")
        },
        None => path.to_owned(),
    };
    let v = to_chars(p.as_str());
    let n: usize = v.len();
    if n > room {
        let keep: usize = if room > 0 {
            room - 1
        } else {
            0
        };
        let tail = from_chars(&v, n - keep, n);
        assert(tail@ =~= p@.skip(n - keep));
        "…".to_owned().concat(tail.as_str()).concat(" ")
    } else {
        p.concat(" ")
    }
}

/// The keys that the bottom line reminds of.
pub open spec fn keys_text(mode: Mode) -> Seq<char> {
    match mode {
        Mode::Browse => " ? help · q quit"@,
        Mode::Profiles =>
            " enter apply · J/K reorder · n new · r rename · e export · d delete · esc"@,
        Mode::NameInput => " enter confirm · esc cancel"@,
        Mode::VersionPicker => " enter pin · j/k choose · esc cancel"@,
        Mode::RequirementPicker => " space toggle · j/k choose · esc done"@,
        Mode::Status | Mode::Help => " esc close"@,
    }
}

/// The bottom line: the last message, or else the keys.
pub open spec fn bottom_view(v: AppView) -> StyledView {
    if v.status.len() > 0 {
        toned(" "@ + v.status, Tone::Yellow)
    } else {
        toned(keys_text(v.mode), Tone::Gray)
    }
}

/// The bottom line.
pub fn bottom_line(app: &App) -> (r: Styled)
    ensures
        r@ == bottom_view(app@),
{
    if app.status.as_str().is_empty() {
        let keys = match app.mode {
            Mode::Browse => " ? help · q quit",
            Mode::Profiles =>
                " enter apply · J/K reorder · n new · r rename · e export · d delete · esc",
            Mode::NameInput => " enter confirm · esc cancel",
            Mode::VersionPicker => " enter pin · j/k choose · esc cancel",
            Mode::RequirementPicker => " space toggle · j/k choose · esc done",
            Mode::Status | Mode::Help => " esc close",
        };
        gray(keys.to_owned())
    } else {
        in_tone(" ".to_owned().concat(app.status.as_str()), Tone::Yellow)
    }
}

/// A text without emphasis.
fn unstyled(text: String) -> (r: Styled)
    ensures
        r@ == plain_text(text@),
{
    Styled { text, tone: Tone::Plain, bold: false }
}

/// A text in a colour.
fn in_tone(text: String, tone: Tone) -> (r: Styled)
    ensures
        r@ == toned(text@, tone),
{
    Styled { text, tone, bold: false }
}

/// A dim text.
fn gray(text: String) -> (r: Styled)
    ensures
        r@ == toned(text@, Tone::Gray),
{
    in_tone(text, Tone::Gray)
}

/// The current profile's name, so that it stands out.
pub fn profile_span(app: &App) -> (r: Styled)
    ensures
        r@ == profile_label(app@),
{
    match &app.current_profile {
        Some(p) => Styled { text: p.clone(), tone: Tone::Cyan, bold: true },
        None => in_tone("(unsaved)".to_owned(), Tone::Yellow),
    }
}

/// The left part of the header.
pub open spec fn header_views(v: AppView) -> Seq<StyledView> {
    let parts = seq![
        StyledView { text: " twwh3-mods "@, tone: Tone::Plain, bold: true },
        toned("· profile: "@, Tone::Gray),
        profile_label(v),
    ];
    if v.dirty {
        parts.push(toned("  [modified]"@, Tone::Yellow))
    } else {
        parts
    }
}

/// The left part of the header: the profile front and centre.
pub fn header_spans(app: &App) -> (r: Vec<Styled>)
    ensures
        styled_views(r@) == header_views(app@),
{
    let mut v: Vec<Styled> = Vec::new();
    v.push(Styled { text: " twwh3-mods ".to_owned(), tone: Tone::Plain, bold: true });
    v.push(gray("· profile: ".to_owned()));
    v.push(profile_span(app));
    if app.dirty {
        v.push(in_tone("  [modified]".to_owned(), Tone::Yellow));
    }
    assert(styled_views(v@) =~= header_views(app@));
    v
}

/// The keys and what they do; a key alone heads a section, and an empty one
/// leaves a line free.
pub open spec fn help_table() -> Seq<(Seq<char>, Seq<char>)> {
    seq![
        ("Navigation"@, ""@),
        ("tab / h / l"@, "switch pane"@),
        ("j / k / ↑ / ↓"@, "move selection"@),
        ("g / G"@, "jump to top / bottom"@),
        (""@, ""@),
        ("Load order"@, ""@),
        ("space / enter"@, "Available: add · Load order: enable/disable in place"@),
        ("x / del"@, "remove the selected mod from the load order"@),
        ("J / K"@, "reorder the selected mod"@),
        ("R"@, "set which other mods this one requires"@),
        ("v"@, "pick which stored version of a Workshop mod to use"@),
        ("U"@, "update all mods flagged (updated) to current"@),
        (""@, ""@),
        ("Profiles (p)"@, ""@),
        ("enter"@, "apply the selected profile"@),
        ("J / K / shift+↑↓"@, "reorder profiles"@),
        ("n"@, "new profile from the current load order"@),
        ("r"@, "rename the selected profile"@),
        ("e"@, "export the profile as a portable bundle"@),
        ("d"@, "delete (press twice to confirm)"@),
        (""@, ""@),
        ("Actions"@, ""@),
        ("s"@, "save load order + profile"@),
        ("S"@, "status page (paths, launch plumbing)"@),
        ("o"@, "open game data/ as the game sees it (merged preview)"@),
        ("L"@, "write used_mods.txt and launch via Steam"@),
        ("? "@, "this help"@),
        ("q / esc"@, "quit (or close a popup)"@),
    ]
}

/// The pairs of texts.
pub open spec fn str_pairs(v: Seq<(&'static str, &'static str)>) -> Seq<(Seq<char>, Seq<char>)> {
    v.map_values(|p: (&'static str, &'static str)| (p.0@, p.1@))
}

/// The keys and what they do.
pub fn help_rows() -> (r: Vec<(&'static str, &'static str)>)
    ensures
        str_pairs(r@) == help_table(),
{
    let mut v: Vec<(&'static str, &'static str)> = Vec::new();
    v.push(("Navigation", ""));
    v.push(("tab / h / l", "switch pane"));
    v.push(("j / k / ↑ / ↓", "move selection"));
    v.push(("g / G", "jump to top / bottom"));
    v.push(("", ""));
    v.push(("Load order", ""));
    v.push(("space / enter", "Available: add · Load order: enable/disable in place"));
    v.push(("x / del", "remove the selected mod from the load order"));
    v.push(("J / K", "reorder the selected mod"));
    v.push(("R", "set which other mods this one requires"));
    v.push(("v", "pick which stored version of a Workshop mod to use"));
    v.push(("U", "update all mods flagged (updated) to current"));
    v.push(("", ""));
    v.push(("Profiles (p)", ""));
    v.push(("enter", "apply the selected profile"));
    v.push(("J / K / shift+↑↓", "reorder profiles"));
    v.push(("n", "new profile from the current load order"));
    v.push(("r", "rename the selected profile"));
    v.push(("e", "export the profile as a portable bundle"));
    v.push(("d", "delete (press twice to confirm)"));
    v.push(("", ""));
    v.push(("Actions", ""));
    v.push(("s", "save load order + profile"));
    v.push(("S", "status page (paths, launch plumbing)"));
    v.push(("o", "open game data/ as the game sees it (merged preview)"));
    v.push(("L", "write used_mods.txt and launch via Steam"));
    v.push(("? ", "this help"));
    v.push(("q / esc", "quit (or close a popup)"));
    assert(str_pairs(v@) =~= help_table());
    v
}

/// The cells of a row.
pub open spec fn cell_views(v: Seq<Vec<Styled>>) -> Seq<Seq<StyledView>> {
    v.map_values(|c: Vec<Styled>| styled_views(c@))
}

/// A heading in a table.
pub open spec fn heading(text: Seq<char>) -> StyledView {
    StyledView { text, tone: Tone::Cyan, bold: true }
}

/// The cells of a row of the help.
pub open spec fn help_cells(key: Seq<char>, desc: Seq<char>) -> Seq<StyledView> {
    if desc.len() == 0 {
        seq![heading(key)]
    } else {
        seq![toned("  "@ + key, Tone::Yellow), plain_text(desc)]
    }
}

/// The cells of a row of the help.
pub fn help_row(key: &str, desc: &str) -> (r: Vec<Styled>)
    ensures
        styled_views(r@) == help_cells(key@, desc@),
{
    let mut v: Vec<Styled> = Vec::new();
    if desc.is_empty() {
        v.push(Styled { text: key.to_owned(), tone: Tone::Cyan, bold: true });
    } else {
        v.push(in_tone("  ".to_owned().concat(key), Tone::Yellow));
        v.push(unstyled(desc.to_owned()));
    }
    assert(styled_views(v@) =~= help_cells(key@, desc@));
    v
}

/// The cells of a row of the status page.
pub open spec fn status_cells(l: LineView) -> Seq<StyledView> {
    if l.value.len() == 0 {
        seq![heading(l.label)]
    } else {
        seq![
            plain_text("  "@ + l.label),
            toned(
                l.value,
                match l.ok {
                    Some(true) => Tone::Green,
                    Some(false) => Tone::Red,
                    None => Tone::Gray,
                },
            ),
        ]
    }
}

/// The cells of a row of the status page.
pub fn status_row(l: &StatusLine) -> (r: Vec<Styled>)
    ensures
        styled_views(r@) == status_cells(l@),
{
    let mut v: Vec<Styled> = Vec::new();
    if l.value.as_str().is_empty() {
        v.push(Styled { text: l.label.clone(), tone: Tone::Cyan, bold: true });
    } else {
        let tone = match l.ok {
            Some(true) => Tone::Green,
            Some(false) => Tone::Red,
            None => Tone::Gray,
        };
        v.push(unstyled("  ".to_owned().concat(l.label.as_str())));
        v.push(in_tone(l.value.clone(), tone));
    }
    assert(styled_views(v@) =~= status_cells(l@));
    v
}

/// The row of the version picker for a version.
pub open spec fn version_view(v: VersionView, pinned: bool) -> StyledView {
    let size = if v.size > 0 {
        size_text(v.size as nat)
    } else {
        "-"@
    };
    StyledView {
        text: shown_date(v.timeupdated as nat) + "   "@ + padded(size, 9, ' ') + if v.current {
            " ·current"@
        } else {
            Seq::empty()
        } + if pinned {
            " ·pinned"@
        } else {
            Seq::empty()
        } + if !v.stored {
            " ·not stored"@
        } else {
            Seq::empty()
        },
        tone: if v.current {
            Tone::Green
        } else {
            Tone::Plain
        },
        bold: pinned,
    }
}

/// An optional piece of text.
fn piece(on: bool, text: &str) -> (r: String)
    ensures
        r@ == (if on {
            text@
        } else {
            Seq::empty()
        }),
{
    if on {
        text.to_owned()
    } else {
        let e = String::new();
        assert(e@ =~= Seq::<char>::empty());
        e
    }
}

/// The row of the version picker for a version.
pub fn version_row(v: &VersionInfo, pinned: bool) -> (r: Styled)
    ensures
        r@ == version_view(v@, pinned),
{
    let size = if v.size > 0 {
        human_size(v.size)
    } else {
        "-".to_owned()
    };
    let text = fmt_date(v.timeupdated).concat("   ").concat(
        pad(size.as_str(), 9, ' ').as_str(),
    ).concat(piece(v.current, " ·current").as_str()).concat(
        piece(pinned, " ·pinned").as_str(),
    ).concat(piece(!v.stored, " ·not stored").as_str());
    let tone = if v.current {
        Tone::Green
    } else {
        Tone::Plain
    };
    Styled { text, tone, bold: pinned }
}

/// A row for a path tells the path and, where it is not there, a note; what is
/// there is good.
pub proof fn path_rows_tell_the_path(
    s: Settings,
    label: Seq<char>,
    p: Seq<char>,
    note: Seq<char>,
    otherwise: Option<bool>,
)
    ensures
        path_row(s, label, p, true, note, otherwise) == (LineView {
            label,
            value: with_tilde(s, p),
            ok: Some(true),
        }),
        path_row(s, label, p, false, note, otherwise) == (LineView {
            label,
            value: with_tilde(s, p) + " "@ + note,
            ok: otherwise,
        }),
{
}

/// The bottom line shows the last message, and the keys of the page where there
/// is none.
pub proof fn messages_go_before_keys(v: AppView)
    ensures
        v.status.len() > 0 ==> bottom_view(v).text == " "@ + v.status && bottom_view(v).tone
            == Tone::Yellow,
        v.status.len() == 0 ==> bottom_view(v).text == keys_text(v.mode) && bottom_view(v).tone
            == Tone::Gray,
        !bottom_view(v).bold,
{
}

/// The header names the current profile, and says exactly when there is
/// something to save.
pub proof fn the_header_names_the_profile(v: AppView)
    ensures
        ({
            let r = header_views(v);
            &&& r[2].text == if v.current_profile is Some {
                v.current_profile->0
            } else {
                "(unsaved)"@
            }
            &&& v.dirty <==> r.len() == 4
            &&& !v.dirty <==> r.len() == 3
            &&& v.dirty ==> r[3].text == "  [modified]"@
        }),
{
}

proof fn lemma_found_first(s: Seq<char>, pat: Seq<char>, from: int)
    requires
        0 <= from,
    ensures
        match first_found(s, pat, from) {
            Some(i) => from <= i && occurs_at(s, pat, i) && forall|j: int|
                from <= j < i ==> !occurs_at(s, pat, j),
            None => forall|j: int| from <= j ==> !occurs_at(s, pat, j),
        },
    decreases s.len() - from + 1,
{
    if from <= s.len() - pat.len() && !occurs_at(s, pat, from) {
        lemma_found_first(s, pat, from + 1);
    }
}

/// The first occurrence of a text is replaced, and nothing else; a text that does
/// not occur leaves everything as it is.
pub proof fn the_first_occurrence_is_replaced(
    a: Seq<char>,
    pat: Seq<char>,
    b: Seq<char>,
    by: Seq<char>,
)
    requires
        forall|j: int| 0 <= j < a.len() ==> !#[trigger] occurs_at(a + pat + b, pat, j),
    ensures
        replaced_once(a + pat + b, pat, by) == a + by + b,
        !has_text(a, pat) ==> replaced_once(a, pat, by) == a,
{
    let s = a + pat + b;
    let n = a.len() as int;
    lemma_found_first(s, pat, 0);
    lemma_found_first(a, pat, 0);
    assert(s.subrange(n, n + pat.len()) =~= pat);
    assert(occurs_at(s, pat, n));
    match first_found(s, pat, 0) {
        Some(i) => {
            if i < n {
                assert(!occurs_at(s, pat, i));
            }
            assert(i == n);
            assert(s.take(n) =~= a);
            assert(s.skip(n + pat.len()) =~= b);
        },
        None => {},
    }
    match first_found(a, pat, 0) {
        Some(i) => {
            assert(occurs_at(a, pat, i));
        },
        None => {},
    }
}

/// A path that is too long for the header loses its head, so that it fits with
/// the sign for what was cut off.
pub proof fn long_paths_lose_their_head(s: Settings, path: Seq<char>, room: nat)
    requires
        !s.env@.contains_key("HOME"@),
    ensures
        path.len() <= room ==> header_path_text(s, path, room) == path + seq![' '],
        path.len() > room > 0 ==> header_path_text(s, path, room) == seq!['…'] + path.subrange(
            path.len() - room + 1,
            path.len() as int,
        ) + seq![' '],
        room == 0 && path.len() > 0 ==> header_path_text(s, path, room) == seq!['…', ' '],
{
    reveal_strlit("…");
    reveal_strlit(" ");
    assert("…"@ =~= seq!['…']);
    assert(" "@ =~= seq![' ']);
    if path.len() > room {
        let keep = if room > 0 {
            room - 1
        } else {
            0
        };
        assert(path.skip(path.len() - keep) =~= path.subrange(
            path.len() - keep,
            path.len() as int,
        ));
        if room == 0 {
            assert("…"@ + path.skip(path.len() as int) + " "@ =~= seq!['…', ' ']);
        }
    }
}

/// The row of a version tells when it was updated and how large it is, and
/// whether it is the installed one, the pinned one, and in the store.
pub proof fn version_rows_tell_the_version(v: VersionView, pinned: bool)
    ensures
        ({
            let size = if v.size > 0 {
                size_text(v.size as nat)
            } else {
                seq!['-']
            };
            let head = shown_date(v.timeupdated as nat) + "   "@ + padded(size, 9, ' ');
            let r = version_view(v, pinned);
            &&& r.text == head + if v.current {
                " ·current"@
            } else {
                Seq::empty()
            } + if pinned {
                " ·pinned"@
            } else {
                Seq::empty()
            } + if v.stored {
                Seq::empty()
            } else {
                " ·not stored"@
            }
            &&& r.tone == Tone::Green <==> v.current
            &&& r.bold <==> pinned
        }),
{
    reveal_strlit("-");
    assert("-"@ =~= seq!['-']);
}

/// A row of the status page is a heading without a value, and else its label and
/// its value, green where it is well and red where it is not.
pub proof fn status_rows_show_what_is_well(l: LineView)
    ensures
        l.value.len() == 0 ==> status_cells(l).len() == 1 && status_cells(l)[0].text == l.label
            && status_cells(l)[0].bold,
        l.value.len() > 0 ==> {
            let r = status_cells(l);
            &&& r.len() == 2
            &&& r[0].text == "  "@ + l.label
            &&& r[1].text == l.value
            &&& r[1].tone == Tone::Green <==> l.ok == Some(true)
            &&& r[1].tone == Tone::Red <==> l.ok == Some(false)
        },
{
}

} // verus!
