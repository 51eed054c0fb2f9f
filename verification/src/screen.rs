//! The rows of the panes, the side panel and the popups.

use vstd::prelude::*;
use vstd::string::StringExecFns;

use crate::app::{ints, selected_in, slots_fit, App, AppView, Pane};
use crate::laws::requires_mod;
use crate::model::{untagged, ModEntry, ModView, PreviewView, Slot, SlotView, VersionView};
use crate::paths::{file_name, name_of, tilde, with_tilde, Settings};
use crate::store::{human_size, size_text};
use crate::text::{
    decimal, eq_ignore_ascii_case, join, joined, lines, lines_of, pad, padded, same,
    same_ignoring_case, texts, to_decimal,
};
use crate::ui::{
    cell_views, plain_text, profile_label, profile_span, styled_views, toned, version_row,
    version_view, Styled, StyledView, Tone,
};

verus! {

impl AppView {
    /// The rows of the version picker.
    pub open spec fn version_rows(self) -> Seq<StyledView> {
        let pin = match self.version_mod {
            Some(i) => self.pin_of(self.pool[i as int].id),
            None => self.pin_of(Seq::empty()),
        };
        self.versions.map_values(|v: VersionView| version_view(v, pin == Some(v.manifest)))
    }

    /// The title of the version picker.
    pub open spec fn version_title(self) -> Seq<char> {
        " Versions of "@ + (match self.version_mod {
            Some(i) => self.pool[i as int].name,
            None => Seq::empty(),
        }) + " — newest first "@
    }

    /// The row of the requirement picker for a slot.
    pub open spec fn requirement_row(self, k: int) -> StyledView {
        let checked = requires_mod(self.slots[self.req_slot->0 as int].requires, self.slots[k].id);
        StyledView {
            text: (if checked {
                "[x] "@
            } else {
                "[ ] "@
            }) + self.name_of_slot(k),
            tone: Tone::Plain,
            bold: checked,
        }
    }

    /// The rows of the requirement picker.
    pub open spec fn requirement_rows(self) -> Seq<StyledView> {
        self.candidates().map_values(|k: int| self.requirement_row(k))
    }

    /// The cells for an available mod.
    pub open spec fn available_cells(self, i: int) -> Seq<StyledView> {
        let m = self.pool[i];
        seq![
            toned(
                if m.packs.len() > 1 {
                    m.name + " ("@ + decimal(m.packs.len()) + " packs)"@
                } else {
                    m.name
                },
                if m.local {
                    Tone::Magenta
                } else {
                    Tone::Plain
                },
            ),
            toned(
                padded(
                    match m.size {
                        Some(n) => size_text(n as nat),
                        None => "-"@,
                    },
                    9,
                    ' ',
                ),
                Tone::Gray,
            ),
        ]
    }

    /// The name of a slot's mod with a note on whether it is there and as
    /// pinned, and the colour of that.
    pub open spec fn slot_label(self, s: SlotView) -> (Seq<char>, Tone) {
        match s.idx {
            Some(i) => {
                let name = self.pool[i as int].name;
                if self.pool[i as int].missing {
                    (name + " (missing)"@, Tone::Red)
                } else if self.updated(s) {
                    (name + " (updated)"@, Tone::Yellow)
                } else {
                    (name, Tone::Plain)
                }
            },
            None => (s.id + " (missing)"@, Tone::Red),
        }
    }

    /// The cells for a slot of the load order.
    pub open spec fn slot_cells(self, k: int) -> Seq<StyledView> {
        let s = self.slots[k];
        let (label, tone) = self.slot_label(s);
        let unmet = self.unmet(s.requires);
        seq![
            toned(
                padded(decimal((k + 1) as nat), 3, ' '),
                if s.enabled {
                    Tone::Yellow
                } else {
                    Tone::Gray
                },
            ),
            if !s.enabled {
                toned(label + "  (off)"@, Tone::Gray)
            } else if unmet.len() > 0 {
                toned(label + "  ⚠ needs "@ + joined(unmet, ", "@), Tone::Red)
            } else {
                toned(label, tone)
            },
        ]
    }

    /// How many of the slots are disabled.
    pub open spec fn off_among(self, slots: Seq<SlotView>) -> nat
        decreases slots.len(),
    {
        if slots.len() == 0 {
            0
        } else {
            self.off_among(slots.drop_last()) + if slots.last().enabled {
                0nat
            } else {
                1
            }
        }
    }

    /// The title of the load order.
    pub open spec fn load_order_title(self) -> Seq<StyledView> {
        let off = self.off_among(self.slots);
        seq![
            plain_text(" Load order — "@),
            profile_label(self),
            plain_text(
                " ("@ + decimal(self.slots.len()) + if off > 0 {
                    ", "@ + decimal(off) + " off"@
                } else {
                    Seq::empty()
                } + ") "@,
            ),
        ]
    }
}

impl App {
    /// The rows of the version picker: the stored versions and the installed
    /// one, newest first, with their update dates.
    pub fn version_picker_rows(&self) -> (r: Vec<Styled>)
        requires
            self@.fits(),
        ensures
            styled_views(r@) == self@.version_rows(),
    {
        let id = match self.version_mod {
            Some(i) => {
                assert(self@.pool[i as int] == self.pool@[i as int]@);
                self.pool[i].id.clone()
            },
            None => String::new(),
        };
        assert(self.version_mod is None ==> id@ =~= Seq::<char>::empty());
        let pin = self.pins.get(id.as_str());
        let ghost want = self@.version_rows();
        let mut out: Vec<Styled> = Vec::new();
        let mut i: usize = 0;
        while i < self.versions.len()
            invariant
                i <= self.versions@.len() == want.len(),
                want == self@.version_rows(),
                match pin {
                    Some(p) => self@.pin_of(id@) == Some(p@),
                    None => self@.pin_of(id@) is None,
                },
                id@ == (match self@.version_mod {
                    Some(m) => self@.pool[m as int].id,
                    None => Seq::empty(),
                }),
                styled_views(out@) == want.take(i as int),
            decreases self.versions@.len() - i,
        {
            let v = &self.versions[i];
            assert(self@.versions[i as int] == v@);
            let pinned = match pin {
                Some(p) => same(p.as_str(), v.manifest.as_str()),
                None => false,
            };
            let ghost o0 = out@;
            let row = version_row(v, pinned);
            out.push(row);
            i = i + 1;
            assert(styled_views(out@) =~= styled_views(o0).push(row@));
            assert(want.take(i as int) =~= want.take(i - 1).push(want[i - 1]));
        }
        assert(want.take(i as int) =~= want);
        out
    }

    /// The title of the version picker.
    pub fn version_picker_title(&self) -> (r: String)
        requires
            self@.fits(),
        ensures
            r@ == self@.version_title(),
    {
        let name = match self.version_mod {
            Some(i) => {
                assert(self@.pool[i as int] == self.pool@[i as int]@);
                self.pool[i].name.clone()
            },
            None => String::new(),
        };
        assert(self.version_mod is None ==> name@ =~= Seq::<char>::empty());
        " Versions of ".to_owned().concat(name.as_str()).concat(" — newest first ")
    }

    /// The rows of the requirement picker: the other slots, each with whether
    /// the edited one requires it.
    pub fn requirement_picker_rows(&self) -> (r: Vec<Styled>)
        requires
            self@.fits(),
        ensures
            styled_views(r@) == self@.requirement_rows(),
    {
        let mut out: Vec<Styled> = Vec::new();
        let cands = self.req_candidates();
        let ghost want = self@.requirement_rows();
        assert(ints(cands@).len() == cands@.len());
        match self.req_slot {
            Some(rs) => {
                let mut i: usize = 0;
                while i < cands.len()
                    invariant
                        i <= cands@.len() == want.len(),
                        self@.fits(),
                        self.req_slot == Some(rs),
                        ints(cands@) == self@.candidates(),
                        forall|k: int|
                            0 <= k < cands@.len() ==> #[trigger] cands@[k] < self.slots@.len(),
                        want == self@.requirement_rows(),
                        styled_views(out@) == want.take(i as int),
                    decreases cands@.len() - i,
                {
                    let k: usize = cands[i];
                    proof {
                        assert(ints(cands@)[i as int] == k);
                        assert(self@.slots[k as int] == self.slots@[k as int]@);
                        assert(self@.slots[rs as int] == self.slots@[rs as int]@);
                    }
                    let checked = lists_mod(&self.slots[rs].requires, self.slots[k].id.as_str());
                    let mark = if checked {
                        "[x] "
                    } else {
                        "[ ] "
                    };
                    let row = Styled {
                        text: mark.to_owned().concat(self.slot_name(k).as_str()),
                        tone: Tone::Plain,
                        bold: checked,
                    };
                    let ghost o0 = out@;
                    out.push(row);
                    i = i + 1;
                    assert(styled_views(out@) =~= styled_views(o0).push(row@));
                    assert(want.take(i as int) =~= want.take(i - 1).push(want[i - 1]));
                }
                assert(want.take(i as int) =~= want);
            },
            None => {
                assert(styled_views(out@) =~= want);
            },
        }
        out
    }

    /// The cells for an available mod.
    fn available_row(&self, i: usize) -> (r: Vec<Styled>)
        requires
            i < self.pool@.len(),
        ensures
            styled_views(r@) == self@.available_cells(i as int),
    {
        let m = &self.pool[i];
        assert(self@.pool[i as int] == m@);
        assert(texts(m.packs@).len() == m.packs@.len());
        let label = if m.packs.len() > 1 {
            m.name.clone().concat(" (").concat(to_decimal(m.packs.len() as u64).as_str()).concat(
                " packs)",
            )
        } else {
            m.name.clone()
        };
        let tone = if m.local {
            Tone::Magenta
        } else {
            Tone::Plain
        };
        let size = match m.size {
            Some(n) => human_size(n),
            None => "-".to_owned(),
        };
        let mut v: Vec<Styled> = Vec::new();
        v.push(Styled { text: label, tone, bold: false });
        v.push(Styled { text: pad(size.as_str(), 9, ' '), tone: Tone::Gray, bold: false });
        assert(styled_views(v@) =~= self@.available_cells(i as int));
        v
    }

    /// The rows of the available mods.
    pub fn available_rows(&self) -> (r: Vec<Vec<Styled>>)
        ensures
            cell_views(r@) == self@.available().map_values(|i: int| self@.available_cells(i)),
    {
        let a = self.available();
        let ghost want = self@.available().map_values(|i: int| self@.available_cells(i));
        assert(ints(a@).len() == a@.len());
        let mut out: Vec<Vec<Styled>> = Vec::new();
        let mut i: usize = 0;
        while i < a.len()
            invariant
                i <= a@.len() == want.len(),
                ints(a@) == self@.available(),
                forall|k: int| 0 <= k < a@.len() ==> #[trigger] a@[k] < self.pool@.len(),
                want == self@.available().map_values(|i: int| self@.available_cells(i)),
                cell_views(out@) == want.take(i as int),
            decreases a@.len() - i,
        {
            assert(ints(a@)[i as int] == a@[i as int]);
            let row = self.available_row(a[i]);
            let ghost o0 = out@;
            out.push(row);
            i = i + 1;
            assert(cell_views(out@) =~= cell_views(o0).push(styled_views(row@)));
            assert(want.take(i as int) =~= want.take(i - 1).push(want[i - 1]));
        }
        assert(want.take(i as int) =~= want);
        out
    }

    /// The name of a slot's mod with a note, and the colour of that.
    fn label_of_slot(&self, s: &Slot) -> (r: (String, Tone))
        requires
            s@.is_below(self@.pool.len()),
        ensures
            (r.0@, r.1) == self@.slot_label(s@),
    {
        match s.idx {
            Some(i) => {
                let m = &self.pool[i];
                assert(self@.pool[i as int] == m@);
                if m.missing {
                    (m.name.clone().concat(" (missing)"), Tone::Red)
                } else if self.slot_updated(s) {
                    (m.name.clone().concat(" (updated)"), Tone::Yellow)
                } else {
                    (m.name.clone(), Tone::Plain)
                }
            },
            None => (s.id.clone().concat(" (missing)"), Tone::Red),
        }
    }

    /// The cells for a slot of the load order.
    fn slot_row(&self, k: usize) -> (r: Vec<Styled>)
        requires
            slots_fit(self@.slots, self@.pool.len()),
            k < self.slots@.len(),
        ensures
            styled_views(r@) == self@.slot_cells(k as int),
    {
        let s = &self.slots[k];
        assert(self@.slots[k as int] == s@);
        let (label, tone) = self.label_of_slot(s);
        let n: usize = self.slots.len();
        assert(k < n);
        let number = pad(to_decimal(k as u64 + 1).as_str(), 3, ' ');
        let unmet = self.unmet_requirements(s);
        assert(texts(unmet@).len() == unmet@.len());
        let mut v: Vec<Styled> = Vec::new();
        if !s.enabled {
            v.push(Styled { text: number, tone: Tone::Gray, bold: false });
            v.push(Styled { text: label.concat("  (off)"), tone: Tone::Gray, bold: false });
        } else {
            v.push(Styled { text: number, tone: Tone::Yellow, bold: false });
            if unmet.len() > 0 {
                let text = label.concat("  ⚠ needs ").concat(join(&unmet, ", ").as_str());
                v.push(Styled { text, tone: Tone::Red, bold: false });
            } else {
                v.push(Styled { text: label, tone, bold: false });
            }
        }
        assert(styled_views(v@) =~= self@.slot_cells(k as int));
        v
    }

    /// The rows of the load order.
    pub fn load_order_rows(&self) -> (r: Vec<Vec<Styled>>)
        requires
            slots_fit(self@.slots, self@.pool.len()),
        ensures
            cell_views(r@) == Seq::new(self@.slots.len(), |k: int| self@.slot_cells(k)),
    {
        let ghost want = Seq::new(self@.slots.len(), |k: int| self@.slot_cells(k));
        let mut out: Vec<Vec<Styled>> = Vec::new();
        let mut i: usize = 0;
        while i < self.slots.len()
            invariant
                i <= self.slots@.len() == want.len(),
                slots_fit(self@.slots, self@.pool.len()),
                want == Seq::new(self@.slots.len(), |k: int| self@.slot_cells(k)),
                cell_views(out@) == want.take(i as int),
            decreases self.slots@.len() - i,
        {
            let row = self.slot_row(i);
            let ghost o0 = out@;
            out.push(row);
            i = i + 1;
            assert(cell_views(out@) =~= cell_views(o0).push(styled_views(row@)));
            assert(want.take(i as int) =~= want.take(i - 1).push(want[i - 1]));
        }
        assert(want.take(i as int) =~= want);
        out
    }

    /// The title of the load order.
    pub fn load_order_heading(&self) -> (r: Vec<Styled>)
        ensures
            styled_views(r@) == self@.load_order_title(),
    {
        let ghost all = self@.slots;
        let mut off: usize = 0;
        let mut i: usize = 0;
        assert(all.take(0) =~= Seq::<SlotView>::empty());
        while i < self.slots.len()
            invariant
                i <= self.slots@.len(),
                all == self@.slots,
                off <= i,
                off == self@.off_among(all.take(i as int)),
            decreases self.slots@.len() - i,
        {
            assert(all.take(i + 1).drop_last() =~= all.take(i as int));
            assert(all[i as int] == self.slots@[i as int]@);
            if !self.slots[i].enabled {
                off = off + 1;
            }
            i = i + 1;
        }
        assert(all.take(i as int) =~= all);
        let note = if off > 0 {
            ", ".to_owned().concat(to_decimal(off as u64).as_str()).concat(" off")
        } else {
            String::new()
        };
        assert(off == 0 ==> note@ =~= Seq::<char>::empty());
        let count = " (".to_owned().concat(to_decimal(self.slots.len() as u64).as_str()).concat(
            note.as_str(),
        ).concat(") ");
        let mut v: Vec<Styled> = Vec::new();
        v.push(Styled { text: " Load order — ".to_owned(), tone: Tone::Plain, bold: false });
        v.push(profile_span(self));
        v.push(Styled { text: count, tone: Tone::Plain, bold: false });
        assert(styled_views(v@) =~= self@.load_order_title());
        v
    }
}

/// Whether a list of requirements has a mod.
fn lists_mod(reqs: &Vec<String>, id: &str) -> (r: bool)
    ensures
        r == requires_mod(texts(reqs@), id@),
{
    let ghost all = texts(reqs@);
    let mut i: usize = 0;
    while i < reqs.len()
        invariant
            i <= reqs@.len(),
            all == texts(reqs@),
            forall|j: int| 0 <= j < i ==> !same_ignoring_case(#[trigger] all[j], id@),
        decreases reqs@.len() - i,
    {
        assert(all[i as int] == reqs@[i as int]@);
        if eq_ignore_ascii_case(reqs[i].as_str(), id) {
            assert(same_ignoring_case(all[i as int], id@));
            return true;
        }
        i = i + 1;
    }
    false
}

/// What the side panel is about.
pub enum SidePanelSubject {
    /// A mod, by its position in the pool.
    Mod(usize),
    /// A mod that is not installed, by its id.
    Unknown(String),
    Nothing,
}

/// What the side panel is about.
pub enum SubjectView {
    Mod(int),
    Unknown(Seq<char>),
    Nothing,
}

impl View for SidePanelSubject {
    type V = SubjectView;

    open spec fn view(&self) -> SubjectView {
        match *self {
            SidePanelSubject::Mod(i) => SubjectView::Mod(i as int),
            SidePanelSubject::Unknown(id) => SubjectView::Unknown(id@),
            SidePanelSubject::Nothing => SubjectView::Nothing,
        }
    }
}

/// A line of the side panel: a dim label and a text.
pub struct PanelLine {
    pub label: &'static str,
    pub text: Styled,
}

/// What a line of the side panel says.
#[verifier::ext_equal]
pub struct PanelView {
    pub label: Seq<char>,
    pub text: StyledView,
}

impl View for PanelLine {
    type V = PanelView;

    open spec fn view(&self) -> PanelView {
        PanelView { label: self.label@, text: self.text@ }
    }
}

/// What the lines of the side panel say.
pub open spec fn panel_views(v: Seq<PanelLine>) -> Seq<PanelView> {
    v.map_values(|l: PanelLine| l@)
}

/// A line with a label.
pub open spec fn labelled(label: Seq<char>, text: Seq<char>) -> PanelView {
    PanelView { label, text: plain_text(text) }
}

/// A line without a label.
pub open spec fn bare(text: StyledView) -> PanelView {
    PanelView { label: ""@, text }
}

/// The lines that name the packs.
pub open spec fn pack_lines(packs: Seq<Seq<char>>) -> Seq<PanelView>
    decreases packs.len(),
{
    if packs.len() == 0 {
        Seq::empty()
    } else {
        let rest = pack_lines(packs.drop_last());
        match name_of(packs.last()) {
            Some(n) => rest.push(bare(toned("  "@ + n, Tone::Gray))),
            None => rest,
        }
    }
}

/// The first `n` of the elements, or all of them.
pub open spec fn first_of<T>(v: Seq<T>, n: int) -> Seq<T> {
    if v.len() <= n {
        v
    } else {
        v.take(n)
    }
}

/// The notice below a mod's name.
pub open spec fn notice(m: ModView) -> Seq<PanelView> {
    if m.missing {
        seq![bare(toned("missing — folder not found"@, Tone::Red))]
    } else if m.local {
        seq![bare(toned("local mod — a folder mirrored into data/"@, Tone::Magenta))]
    } else {
        Seq::empty()
    }
}

/// The lines of the side panel for a mod.
pub open spec fn mod_panel(s: Settings, m: ModView) -> Seq<PanelView> {
    seq![bare(StyledView { text: m.name, tone: Tone::Plain, bold: true })] + notice(m) + seq![
        labelled(
            "kind: "@,
            if m.local {
                "local"@
            } else {
                "workshop"@
            },
        ),
        labelled(
            "category: "@,
            if m.category.len() == 0 {
                "-"@
            } else {
                m.category
            },
        ),
        labelled(
            "steam id: "@,
            match m.steam_id {
                Some(x) => x,
                None => "-"@,
            },
        ),
        labelled("folder: "@, with_tilde(s, m.dir)),
        labelled("packs: "@, decimal(m.packs.len())),
    ] + pack_lines(first_of(m.packs, 8)) + seq![bare(plain_text(Seq::empty()))] + first_of(
        lines_of(untagged(m.short).0),
        12,
    ).map_values(|l: Seq<char>| bare(plain_text(l)))
}

impl AppView {
    /// What the side panel is about: the mod selected in the focused pane.
    pub open spec fn subject(self) -> SubjectView {
        match self.hovered() {
            Some(i) => SubjectView::Mod(i),
            None => if self.focus == Pane::Profile && selected_in(
                self.prof_sel,
                self.slots.len(),
            ) {
                SubjectView::Unknown(self.slots[self.prof_sel->0 as int].id)
            } else {
                SubjectView::Nothing
            },
        }
    }

    /// The lines of the side panel.
    pub open spec fn panel(self, s: Settings) -> Seq<PanelView> {
        match self.subject() {
            SubjectView::Mod(i) => mod_panel(s, self.pool[i]),
            SubjectView::Unknown(id) => seq![
                bare(plain_text(id)),
                bare(toned("missing — not installed (unsubscribed?)"@, Tone::Red)),
            ],
            SubjectView::Nothing => seq![bare(plain_text("nothing selected"@))],
        }
    }
}

/// What the side panel is about.
pub fn side_panel_subject(app: &App) -> (r: SidePanelSubject)
    requires
        app@.fits(),
    ensures
        r@ == app@.subject(),
        r matches SidePanelSubject::Mod(i) ==> i < app.pool@.len(),
{
    match app.hovered_mod() {
        Some(i) => SidePanelSubject::Mod(i),
        None => match (app.focus, app.prof_sel) {
            (Pane::Profile, Some(s)) => if s < app.slots.len() {
                assert(app@.slots[s as int] == app.slots@[s as int]@);
                SidePanelSubject::Unknown(app.slots[s].id.clone())
            } else {
                SidePanelSubject::Nothing
            },
            _ => SidePanelSubject::Nothing,
        },
    }
}

fn bare_line(text: String, tone: Tone, bold: bool) -> (r: PanelLine)
    ensures
        r@ == bare(StyledView { text: text@, tone, bold }),
{
    PanelLine { label: "", text: Styled { text, tone, bold } }
}

fn labelled_line(label: &'static str, text: String) -> (r: PanelLine)
    ensures
        r@ == labelled(label@, text@),
{
    PanelLine { label, text: Styled { text, tone: Tone::Plain, bold: false } }
}

/// The lines that name the first eight packs.
fn lines_of_packs(packs: &Vec<String>) -> (r: Vec<PanelLine>)
    ensures
        panel_views(r@) == pack_lines(first_of(texts(packs@), 8)),
{
    let ghost all = texts(packs@);
    let mut out: Vec<PanelLine> = Vec::new();
    let mut i: usize = 0;
    assert(all.take(0) =~= Seq::<Seq<char>>::empty());
    assert(panel_views(out@) =~= pack_lines(all.take(0)));
    while i < packs.len() && i < 8
        invariant
            i <= packs@.len(),
            i <= 8,
            all == texts(packs@),
            panel_views(out@) == pack_lines(all.take(i as int)),
        decreases packs@.len() - i,
    {
        assert(all.take(i + 1).drop_last() =~= all.take(i as int));
        assert(all.take(i + 1).last() == packs@[i as int]@);
        match file_name(packs[i].as_str()) {
            Some(n) => {
                let ghost o0 = out@;
                let l = bare_line("  ".to_owned().concat(n.as_str()), Tone::Gray, false);
                out.push(l);
                assert(panel_views(out@) =~= panel_views(o0).push(l@));
            },
            None => {},
        }
        i = i + 1;
    }
    assert(all.len() <= 8 ==> all.take(i as int) =~= all);
    out
}

/// The first twelve lines of a description.
fn lines_of_description(text: &str) -> (r: Vec<PanelLine>)
    ensures
        panel_views(r@) == first_of(lines_of(text@), 12).map_values(
            |l: Seq<char>| bare(plain_text(l)),
        ),
{
    let ls = lines(text);
    let ghost all = lines_of(text@);
    let ghost want = all.map_values(|l: Seq<char>| bare(plain_text(l)));
    let mut out: Vec<PanelLine> = Vec::new();
    let mut i: usize = 0;
    while i < ls.len() && i < 12
        invariant
            i <= ls@.len() == all.len(),
            i <= 12,
            texts(ls@) == all,
            want == all.map_values(|l: Seq<char>| bare(plain_text(l))),
            panel_views(out@) == want.take(i as int),
        decreases ls@.len() - i,
    {
        assert(all[i as int] == ls@[i as int]@);
        let ghost o0 = out@;
        let l = bare_line(ls[i].clone(), Tone::Plain, false);
        out.push(l);
        i = i + 1;
        assert(panel_views(out@) =~= panel_views(o0).push(l@));
        assert(want.take(i as int) =~= want.take(i - 1).push(want[i - 1]));
    }
    assert(panel_views(out@) =~= first_of(all, 12).map_values(
        |l: Seq<char>| bare(plain_text(l)),
    ));
    out
}

/// The lines of the side panel for a mod.
fn lines_of_mod(s: &Settings, m: &ModEntry) -> (r: Vec<PanelLine>)
    ensures
        panel_views(r@) == mod_panel(*s, m@),
{
    let mut v: Vec<PanelLine> = Vec::new();
    v.push(bare_line(m.name.clone(), Tone::Plain, true));
    if m.missing {
        v.push(bare_line("missing — folder not found".to_owned(), Tone::Red, false));
    } else if m.local {
        v.push(
            bare_line("local mod — a folder mirrored into data/".to_owned(), Tone::Magenta, false),
        );
    }
    let kind = if m.local {
        "local"
    } else {
        "workshop"
    };
    v.push(labelled_line("kind: ", kind.to_owned()));
    v.push(labelled_line("category: ", m.category().to_owned()));
    let sid = match &m.steam_id {
        Some(x) => x.clone(),
        None => "-".to_owned(),
    };
    v.push(labelled_line("steam id: ", sid));
    v.push(labelled_line("folder: ", tilde(s, m.dir.as_str())));
    v.push(labelled_line("packs: ", to_decimal(m.packs.len() as u64)));
    assert(texts(m.packs@).len() == m.packs@.len());
    let ghost head = v@;
    let mut p = lines_of_packs(&m.packs);
    let ghost p0 = p@;
    v.append(&mut p);
    let blank = bare_line(String::new(), Tone::Plain, false);
    assert(blank@.text.text =~= Seq::<char>::empty());
    v.push(blank);
    let mut d = lines_of_description(m.description().as_str());
    let ghost d0 = d@;
    v.append(&mut d);
    proof {
        assert(panel_views(v@) =~= panel_views(head) + panel_views(p0) + seq![blank@] + panel_views(
            d0,
        ));
        assert(panel_views(v@) =~= mod_panel(*s, m@));
    }
    v
}

/// The lines of the side panel.
pub fn side_panel(app: &App, s: &Settings) -> (r: Vec<PanelLine>)
    requires
        app@.fits(),
    ensures
        panel_views(r@) == app@.panel(*s),
{
    match side_panel_subject(app) {
        SidePanelSubject::Mod(i) => {
            assert(app@.pool[i as int] == app.pool@[i as int]@);
            lines_of_mod(s, &app.pool[i])
        },
        SidePanelSubject::Unknown(id) => {
            let mut v: Vec<PanelLine> = Vec::new();
            v.push(bare_line(id, Tone::Plain, false));
            v.push(
                bare_line(
                    "missing — not installed (unsubscribed?)".to_owned(),
                    Tone::Red,
                    false,
                ),
            );
            assert(panel_views(v@) =~= app@.panel(*s));
            v
        },
        SidePanelSubject::Nothing => {
            let mut v: Vec<PanelLine> = Vec::new();
            v.push(bare_line("nothing selected".to_owned(), Tone::Plain, false));
            assert(panel_views(v@) =~= app@.panel(*s));
            v
        },
    }
}

impl AppView {
    /// The row for a profile in the list of profiles.
    pub open spec fn profile_row(self, name: Seq<char>) -> StyledView {
        if self.current_profile == Some(name) {
            StyledView { text: name + " (current)"@, tone: Tone::Plain, bold: true }
        } else {
            plain_text(name)
        }
    }

    /// The rows of the list of profiles.
    pub open spec fn profile_rows(self) -> Seq<StyledView> {
        if self.profiles.len() == 0 {
            seq![toned("(none yet — press n)"@, Tone::Gray)]
        } else {
            self.profiles.map_values(|p: Seq<char>| self.profile_row(p))
        }
    }
}

/// How many of the lines are about missing mods.
pub open spec fn missing_lines(preview: Seq<PreviewView>) -> nat
    decreases preview.len(),
{
    if preview.len() == 0 {
        0
    } else {
        missing_lines(preview.drop_last()) + if preview.last().missing {
            1nat
        } else {
            0
        }
    }
}

/// The title of the preview of a profile.
pub open spec fn preview_title_text(preview: Seq<PreviewView>) -> Seq<char> {
    let missing = missing_lines(preview);
    if preview.len() == 0 {
        " Mods in profile "@
    } else {
        " Mods in profile ("@ + decimal(preview.len()) + if missing > 0 {
            ", "@ + decimal(missing) + " missing"@
        } else {
            Seq::empty()
        } + ") "@
    }
}

/// The line at position `n` of the preview of a profile.
pub open spec fn preview_view(n: int, l: PreviewView) -> StyledView {
    let text = padded(decimal((n + 1) as nat), 3, ' ') + " "@ + l.label;
    if l.missing {
        toned(text + " (missing)"@, Tone::Red)
    } else if l.updated {
        toned(text + " (updated)"@, Tone::Yellow)
    } else {
        plain_text(text)
    }
}

impl App {
    /// The rows of the list of profiles.
    pub fn profile_list_rows(&self) -> (r: Vec<Styled>)
        ensures
            styled_views(r@) == self@.profile_rows(),
    {
        let mut out: Vec<Styled> = Vec::new();
        if self.profiles.len() == 0 {
            out.push(
                Styled { text: "(none yet — press n)".to_owned(), tone: Tone::Gray, bold: false },
            );
            assert(styled_views(out@) =~= self@.profile_rows());
            return out;
        }
        let ghost want = self@.profiles.map_values(|p: Seq<char>| self@.profile_row(p));
        let mut i: usize = 0;
        while i < self.profiles.len()
            invariant
                i <= self.profiles@.len(),
                want == self@.profiles.map_values(|p: Seq<char>| self@.profile_row(p)),
                styled_views(out@) == want.take(i as int),
            decreases self.profiles@.len() - i,
        {
            let p = &self.profiles[i];
            assert(self@.profiles[i as int] == p@);
            let current = match &self.current_profile {
                Some(c) => same(c.as_str(), p.as_str()),
                None => false,
            };
            let row = if current {
                Styled { text: p.clone().concat(" (current)"), tone: Tone::Plain, bold: true }
            } else {
                Styled { text: p.clone(), tone: Tone::Plain, bold: false }
            };
            let ghost o0 = out@;
            out.push(row);
            i = i + 1;
            assert(styled_views(out@) =~= styled_views(o0).push(row@));
            assert(want.take(i as int) =~= want.take(i - 1).push(want[i - 1]));
        }
        assert(want.take(i as int) =~= want);
        out
    }

    /// The title of the preview of a profile.
    pub fn preview_title(&self) -> (r: String)
        ensures
            r@ == preview_title_text(self@.preview),
    {
        let ghost all = self@.preview;
        let mut missing: usize = 0;
        let mut i: usize = 0;
        assert(all.take(0) =~= Seq::<PreviewView>::empty());
        while i < self.preview.len()
            invariant
                i <= self.preview@.len(),
                all == self@.preview,
                missing <= i,
                missing == missing_lines(all.take(i as int)),
            decreases self.preview@.len() - i,
        {
            assert(all.take(i + 1).drop_last() =~= all.take(i as int));
            assert(all[i as int] == self.preview@[i as int]@);
            if self.preview[i].missing {
                missing = missing + 1;
            }
            i = i + 1;
        }
        assert(all.take(i as int) =~= all);
        if self.preview.len() == 0 {
            return " Mods in profile ".to_owned();
        }
        let note = if missing > 0 {
            ", ".to_owned().concat(to_decimal(missing as u64).as_str()).concat(" missing")
        } else {
            String::new()
        };
        assert(missing == 0 ==> note@ =~= Seq::<char>::empty());
        " Mods in profile (".to_owned().concat(
            to_decimal(self.preview.len() as u64).as_str(),
        ).concat(note.as_str()).concat(") ")
    }

    /// The lines of the preview of a profile.
    pub fn preview_lines(&self) -> (r: Vec<Styled>)
        ensures
            styled_views(r@) == Seq::new(
                self@.preview.len(),
                |n: int| preview_view(n, self@.preview[n]),
            ),
    {
        let ghost want = Seq::new(
            self@.preview.len(),
            |n: int| preview_view(n, self@.preview[n]),
        );
        let mut out: Vec<Styled> = Vec::new();
        let mut i: usize = 0;
        while i < self.preview.len()
            invariant
                i <= self.preview@.len() == want.len(),
                want == Seq::new(self@.preview.len(), |n: int| preview_view(n, self@.preview[n])),
                styled_views(out@) == want.take(i as int),
            decreases self.preview@.len() - i,
        {
            let l = &self.preview[i];
            assert(self@.preview[i as int] == l@);
            let text = pad(to_decimal(i as u64 + 1).as_str(), 3, ' ').concat(" ").concat(
                l.label.as_str(),
            );
            let row = if l.missing {
                Styled { text: text.concat(" (missing)"), tone: Tone::Red, bold: false }
            } else if l.updated {
                Styled { text: text.concat(" (updated)"), tone: Tone::Yellow, bold: false }
            } else {
                Styled { text, tone: Tone::Plain, bold: false }
            };
            let ghost o0 = out@;
            out.push(row);
            i = i + 1;
            assert(styled_views(out@) =~= styled_views(o0).push(row@));
            assert(want.take(i as int) =~= want.take(i - 1).push(want[i - 1]));
        }
        assert(want.take(i as int) =~= want);
        out
    }

    /// The title of the input of a profile's name.
    pub fn name_input_title(&self) -> (r: String)
        ensures
            r@ == (match self@.rename_from {
                Some(from) => " Rename '"@ + from + "' to "@,
                None => " New profile name "@,
            }),
    {
        match &self.rename_from {
            Some(from) => " Rename '".to_owned().concat(from.as_str()).concat("' to "),
            None => " New profile name ".to_owned(),
        }
    }
}

/// A rectangle on the screen.
#[derive(Clone, Copy)]
pub struct Area {
    pub x: u16,
    pub y: u16,
    pub width: u16,
    pub height: u16,
}

impl Area {
    /// The rectangle ends within the coordinates.
    pub open spec fn fits(self) -> bool {
        self.x + self.width <= u16::MAX && self.y + self.height <= u16::MAX
    }
}

/// A rectangle of the given size, or as much of it as fits, in the middle of
/// another.
pub fn centered_rect(width: u16, height: u16, area: Area) -> (r: Area)
    requires
        area.fits(),
    ensures
        r.width == (if width < area.width {
            width
        } else {
            area.width
        }),
        r.height == (if height < area.height {
            height
        } else {
            area.height
        }),
        r.x == area.x + (area.width - r.width) / 2,
        r.y == area.y + (area.height - r.height) / 2,
        r.fits(),
{
    let w: u16 = if width < area.width {
        width
    } else {
        area.width
    };
    let h: u16 = if height < area.height {
        height
    } else {
        area.height
    };
    Area {
        x: area.x + (area.width - w) / 2,
        y: area.y + (area.height - h) / 2,
        width: w,
        height: h,
    }
}

/// The width of a popup: the screen's without a margin, but no more than
/// `most`.
pub fn popup_width(screen: u16, margin: u16, most: u16) -> (r: u16)
    ensures
        r == (if screen < margin {
            0
        } else if screen - margin < most {
            screen - margin
        } else {
            most as int
        }),
{
    if screen < margin {
        0
    } else if screen - margin < most {
        screen - margin
    } else {
        most
    }
}

/// The height of a popup with `rows` rows: two more for the border, at least
/// `least`, and no more than leaves a line free above and below.
pub fn popup_height(rows: usize, least: u16, screen: u16) -> (r: u16)
    requires
        rows <= 65533,
        least == 0 || least + 2 <= screen,
    ensures
        ({
            let most = if screen < 2 {
                0
            } else {
                screen - 2
            };
            let want = if rows + 2 < least {
                least as int
            } else {
                rows + 2
            };
            r == (if want > most {
                most
            } else {
                want
            })
        }),
{
    let most: u16 = if screen < 2 {
        0
    } else {
        screen - 2
    };
    let n: u16 = (rows + 2) as u16;
    let want: u16 = if n < least {
        least
    } else {
        n
    };
    if want > most {
        most
    } else {
        want
    }
}

impl AppView {
    /// The line of the printed load order for a slot.
    pub open spec fn listed_slot(self, k: int) -> Seq<char> {
        let s = self.slots[k];
        let (name, note) = match s.idx {
            Some(i) => (
                self.pool[i as int].name,
                if self.pool[i as int].missing {
                    "  (missing)"@
                } else if self.updated(s) {
                    "  (updated)"@
                } else {
                    Seq::empty()
                },
            ),
            None => (s.id, "  (missing)"@),
        };
        padded(decimal((k + 1) as nat), 3, ' ') + "  "@ + name + note + "\n"@
    }

    /// The lines of the printed load order up to slot `n`.
    pub open spec fn listed_slots(self, n: int) -> Seq<char>
        decreases n,
    {
        if n <= 0 {
            Seq::empty()
        } else {
            self.listed_slots(n - 1) + self.listed_slot(n - 1)
        }
    }

    /// The lines of the printed available mods.
    pub open spec fn listed_mods(self, mods: Seq<int>) -> Seq<char>
        decreases mods.len(),
    {
        if mods.len() == 0 {
            Seq::empty()
        } else {
            let m = self.pool[mods.last()];
            self.listed_mods(mods.drop_last()) + ("     "@ + m.name + if m.local {
                "  (local)"@
            } else {
                Seq::empty()
            } + "\n"@)
        }
    }

    /// The load order and the available mods, printed.
    pub open spec fn listing(self) -> Seq<char> {
        "Load order:\n"@ + self.listed_slots(self.slots.len() as int) + "\nAvailable:\n"@
            + self.listed_mods(self.available())
    }
}

impl App {
    /// The load order and the available mods, for printing.
    pub fn list_text(&self) -> (r: String)
        requires
            slots_fit(self@.slots, self@.pool.len()),
        ensures
            r@ == self@.listing(),
    {
        let mut out: String = String::new();
        assert(out@ =~= self@.listed_slots(0));
        let mut k: usize = 0;
        while k < self.slots.len()
            invariant
                k <= self.slots@.len(),
                slots_fit(self@.slots, self@.pool.len()),
                out@ == self@.listed_slots(k as int),
            decreases self.slots@.len() - k,
        {
            let s = &self.slots[k];
            assert(self@.slots[k as int] == s@);
            let none = String::new();
            assert(none@ =~= Seq::<char>::empty());
            let note = match s.idx {
                Some(i) => {
                    assert(self@.pool[i as int] == self.pool@[i as int]@);
                    if self.pool[i].missing {
                        "  (missing)".to_owned()
                    } else if self.slot_updated(s) {
                        "  (updated)".to_owned()
                    } else {
                        none
                    }
                },
                None => "  (missing)".to_owned(),
            };
            let line = pad(to_decimal(k as u64 + 1).as_str(), 3, ' ').concat("  ").concat(
                self.slot_name(k).as_str(),
            ).concat(note.as_str()).concat("\n");
            out.append(line.as_str());
            k = k + 1;
        }
        let a = self.available();
        let ghost all = self@.available();
        let mut mods: String = String::new();
        let mut i: usize = 0;
        assert(ints(a@).len() == a@.len());
        assert(all.take(0) =~= Seq::<int>::empty());
        assert(mods@ =~= self@.listed_mods(all.take(0)));
        while i < a.len()
            invariant
                i <= a@.len() == all.len(),
                ints(a@) == all,
                forall|k: int| 0 <= k < a@.len() ==> #[trigger] a@[k] < self.pool@.len(),
                mods@ == self@.listed_mods(all.take(i as int)),
            decreases a@.len() - i,
        {
            proof {
                assert(all.take(i + 1).drop_last() =~= all.take(i as int));
                assert(ints(a@)[i as int] == a@[i as int]);
                assert(all.take(i + 1).last() == a@[i as int]);
            }
            let m = &self.pool[a[i]];
            assert(self@.pool[a@[i as int] as int] == m@);
            let note = if m.local {
                "  (local)".to_owned()
            } else {
                String::new()
            };
            assert(!m.local ==> note@ =~= Seq::<char>::empty());
            let line = "     ".to_owned().concat(m.name.as_str()).concat(note.as_str()).concat(
                "\n",
            );
            mods.append(line.as_str());
            i = i + 1;
        }
        assert(all.take(i as int) =~= all);
        "Load order:\n".to_owned().concat(out.as_str()).concat("\nAvailable:\n").concat(
            mods.as_str(),
        )
    }
}

/// The row of a slot has its number and the name of its mod, or its id where
/// there is none; it says whether the mod is missing or past its pin, and of a
/// slot that is off or that misses what it requires that. Only those and
/// nothing else are out of the plain colour.
pub proof fn rows_tell_the_state_of_a_slot(v: AppView, k: int)
    requires
        0 <= k < v.slots.len(),
    ensures
        ({
            let s = v.slots[k];
            let r = v.slot_cells(k);
            let gone = s.idx is None || v.pool[s.idx->0 as int].missing;
            let name = if s.idx is Some {
                v.pool[s.idx->0 as int].name
            } else {
                s.id
            };
            let label = if gone {
                name + " (missing)"@
            } else if v.updated(s) {
                name + " (updated)"@
            } else {
                name
            };
            let unmet = v.unmet(s.requires);
            &&& r.len() == 2
            &&& r[0].text == padded(decimal((k + 1) as nat), 3, ' ')
            &&& r[0].tone == if s.enabled {
                Tone::Yellow
            } else {
                Tone::Gray
            }
            &&& !s.enabled ==> r[1].text == label + "  (off)"@ && r[1].tone == Tone::Gray
            &&& s.enabled && unmet.len() > 0 ==> r[1].text == label + "  ⚠ needs "@ + joined(
                unmet,
                ", "@,
            ) && r[1].tone == Tone::Red
            &&& s.enabled && unmet.len() == 0 ==> r[1].text == label
            &&& s.enabled && unmet.len() == 0 ==> (r[1].tone == Tone::Red <==> gone)
            &&& s.enabled && unmet.len() == 0 ==> (r[1].tone == Tone::Yellow <==> !gone
                && v.updated(s))
            &&& !r[0].bold && !r[1].bold
        }),
{
}

/// The row of an available mod has its name, how many packs it has if more than
/// one, and its size; local mods stand out.
pub proof fn rows_tell_the_packs_of_a_mod(v: AppView, i: int)
    ensures
        ({
            let m = v.pool[i];
            let r = v.available_cells(i);
            &&& r.len() == 2
            &&& m.packs.len() <= 1 ==> r[0].text == m.name
            &&& m.packs.len() > 1 ==> r[0].text == m.name + " ("@ + decimal(m.packs.len())
                + " packs)"@
            &&& r[0].tone == Tone::Magenta <==> m.local
            &&& m.size is Some ==> r[1].text == padded(size_text(m.size->0 as nat), 9, ' ')
            &&& m.size is None ==> r[1].text == padded("-"@, 9, ' ')
        }),
{
}

/// The picker has a row for every version, in order; the one that the mod is
/// pinned to is marked.
pub proof fn every_version_has_a_row(v: AppView, i: usize)
    requires
        v.version_mod == Some(i),
    ensures
        v.version_rows().len() == v.versions.len(),
        forall|k: int|
            #![trigger v.version_rows()[k]]
            0 <= k < v.versions.len() ==> {
                let id = v.pool[i as int].id;
                let pinned = v.pins.contains_key(id) && v.pins[id] == v.versions[k].manifest;
                &&& v.version_rows()[k] == version_view(v.versions[k], pinned)
                &&& v.version_rows()[k].bold == pinned
            },
        v.version_title() == " Versions of "@ + v.pool[i as int].name + " — newest first "@,
{
}

/// The requirement picker has a row for every other slot, checked exactly if the
/// edited slot requires its mod.
pub proof fn every_candidate_has_a_row(v: AppView, r: usize, k: int)
    requires
        v.req_slot == Some(r),
        0 <= k < v.candidates().len(),
    ensures
        v.requirement_rows().len() == v.candidates().len(),
        ({
            let row = v.requirement_rows()[k];
            let c = v.slots[v.candidates()[k]];
            let name = if c.idx is Some {
                v.pool[c.idx->0 as int].name
            } else {
                c.id
            };
            let reqs = v.slots[r as int].requires;
            &&& row.bold <==> exists|i: int|
                0 <= i < reqs.len() && same_ignoring_case(#[trigger] reqs[i], c.id)
            &&& row.bold ==> row.text == "[x] "@ + name
            &&& !row.bold ==> row.text == "[ ] "@ + name
        }),
{
}

/// The title of the load order tells how many slots there are and how many of
/// them are off.
pub proof fn the_title_counts_the_slots(v: AppView)
    ensures
        ({
            let off = v.slots.filter(|s: SlotView| !s.enabled).len();
            let r = v.load_order_title();
            &&& r.len() == 3
            &&& off == 0 ==> r[2].text == " ("@ + decimal(v.slots.len()) + ") "@
            &&& off > 0 ==> r[2].text == " ("@ + decimal(v.slots.len()) + (", "@ + decimal(off)
                + " off"@) + ") "@
            &&& v.current_profile is Some ==> r[1].text == v.current_profile->0
            &&& v.current_profile is None ==> r[1].text == "(unsaved)"@
        }),
{
    lemma_off_counted(v, v.slots);
    let n = " ("@ + decimal(v.slots.len());
    assert(n + Seq::<char>::empty() =~= n);
}

proof fn lemma_off_counted(v: AppView, slots: Seq<SlotView>)
    ensures
        v.off_among(slots) == slots.filter(|s: SlotView| !s.enabled).len(),
    decreases slots.len(),
{
    reveal(Seq::filter);
    if slots.len() > 0 {
        lemma_off_counted(v, slots.drop_last());
    }
}

proof fn lemma_pack_lines(packs: Seq<Seq<char>>)
    ensures
        pack_lines(packs) == packs.filter_map(
            |p: Seq<char>|
                match name_of(p) {
                    Some(n) => Some(
                        PanelView {
                            label: ""@,
                            text: StyledView { text: "  "@ + n, tone: Tone::Gray, bold: false },
                        },
                    ),
                    None => None,
                },
        ),
    decreases packs.len(),
{
    let f = |p: Seq<char>|
        match name_of(p) {
            Some(n) => Some(
                PanelView {
                    label: ""@,
                    text: StyledView { text: "  "@ + n, tone: Tone::Gray, bold: false },
                },
            ),
            None => None,
        };
    if packs.len() > 0 {
        lemma_pack_lines(packs.drop_last());
    }
    assert(pack_lines(packs) =~= packs.filter_map(f));
}

/// The side panel of a mod tells its name, a notice where it is missing or local,
/// what kind it is, its category, its Workshop id, its folder, how many packs it
/// has and the names of the first eight, and the first twelve lines of its
/// description.
pub proof fn the_panel_tells_of_a_mod(s: Settings, m: ModView)
    ensures
        ({
            let r = mod_panel(s, m);
            let n = if m.missing || m.local {
                2int
            } else {
                1
            };
            let shown = m.packs.take(if m.packs.len() < 8 {
                m.packs.len() as int
            } else {
                8
            });
            let named = shown.filter_map(
                |p: Seq<char>|
                    match name_of(p) {
                        Some(x) => Some(
                            PanelView {
                                label: ""@,
                                text: StyledView { text: "  "@ + x, tone: Tone::Gray, bold: false },
                            },
                        ),
                        None => None,
                    },
            );
            let words = lines_of(untagged(m.short).0);
            let told = words.take(if words.len() < 12 {
                words.len() as int
            } else {
                12
            });
            &&& r.len() == n + 6 + named.len() + told.len()
            &&& r[0].text.text == m.name && r[0].text.bold
            &&& m.missing ==> r[1].text.text == "missing — folder not found"@
            &&& m.local && !m.missing ==> r[1].text.text
                == "local mod — a folder mirrored into data/"@
            &&& r[n].label == "kind: "@ && r[n].text.text == if m.local {
                "local"@
            } else {
                "workshop"@
            }
            &&& r[n + 1].label == "category: "@ && r[n + 1].text.text == if m.category.len() == 0 {
                "-"@
            } else {
                m.category
            }
            &&& r[n + 2].label == "steam id: "@ && r[n + 2].text.text == if m.steam_id is Some {
                m.steam_id->0
            } else {
                "-"@
            }
            &&& r[n + 3].label == "folder: "@ && r[n + 3].text.text == with_tilde(s, m.dir)
            &&& r[n + 4].label == "packs: "@ && r[n + 4].text.text == decimal(m.packs.len())
            &&& forall|k: int| 0 <= k < named.len() ==> r[n + 5 + k] == #[trigger] named[k]
            &&& r[n + 5 + named.len()].text.text.len() == 0
            &&& forall|k: int|
                0 <= k < told.len() ==> r[n + 6 + named.len() + k].text.text == #[trigger] told[k]
        }),
{
    let shown = m.packs.take(if m.packs.len() < 8 {
        m.packs.len() as int
    } else {
        8
    });
    assert(first_of(m.packs, 8) =~= shown);
    lemma_pack_lines(shown);
    let words = lines_of(untagged(m.short).0);
    assert(first_of(words, 12) =~= words.take(
        if words.len() < 12 {
            words.len() as int
        } else {
            12
        },
    ));
}

/// The side panel is about the mod of the selected row, or about the id of a slot
/// whose mod is not installed.
pub proof fn the_panel_is_about_the_selected_row(v: AppView)
    ensures
        v.focus == Pane::Available ==> (v.subject() matches SubjectView::Mod(i) ==> v.avail_sel
            is Some && i == v.available()[v.avail_sel->0 as int]),
        v.focus == Pane::Available ==> !(v.subject() is Unknown),
        v.focus == Pane::Profile && v.prof_sel is Some && v.prof_sel->0 < v.slots.len() ==> {
            let s = v.slots[v.prof_sel->0 as int];
            &&& s.idx is Some ==> v.subject() == SubjectView::Mod(s.idx->0 as int)
            &&& s.idx is None ==> v.subject() == SubjectView::Unknown(s.id)
        },
        v.focus == Pane::Profile && !(v.prof_sel is Some && v.prof_sel->0 < v.slots.len())
            ==> v.subject() is Nothing,
{
}

/// The list of profiles has a row for every profile, in order, and marks the
/// current one and no other.
pub proof fn every_profile_has_a_row(v: AppView)
    ensures
        v.profiles.len() > 0 ==> v.profile_rows().len() == v.profiles.len(),
        v.profiles.len() == 0 ==> v.profile_rows().len() == 1 && v.profile_rows()[0].text
            == "(none yet — press n)"@,
        forall|k: int|
            #![trigger v.profile_rows()[k]]
            0 <= k < v.profiles.len() ==> {
                let r = v.profile_rows()[k];
                let current = v.current_profile is Some && v.current_profile->0 == v.profiles[k];
                &&& current ==> r.text == v.profiles[k] + " (current)"@ && r.bold
                &&& !current ==> r.text == v.profiles[k] && !r.bold
            },
{
}

/// The preview of a profile has a title that counts its mods and the missing
/// ones, and each line a number, a name and what is to be said of the mod.
pub proof fn previews_count_their_mods(preview: Seq<PreviewView>, k: int)
    requires
        0 <= k < preview.len(),
    ensures
        ({
            let gone = preview.filter(|l: PreviewView| l.missing).len();
            let t = preview_title_text(preview);
            &&& gone == 0 ==> t == " Mods in profile ("@ + decimal(preview.len()) + ") "@
            &&& gone > 0 ==> t == " Mods in profile ("@ + decimal(preview.len()) + (", "@ + decimal(
                gone,
            ) + " missing"@) + ") "@
        }),
        ({
            let l = preview[k];
            let r = preview_view(k, l);
            let text = padded(decimal((k + 1) as nat), 3, ' ') + " "@ + l.label;
            &&& l.missing ==> r.text == text + " (missing)"@ && r.tone == Tone::Red
            &&& !l.missing && l.updated ==> r.text == text + " (updated)"@ && r.tone
                == Tone::Yellow
            &&& !l.missing && !l.updated ==> r.text == text && r.tone == Tone::Plain
        }),
{
    lemma_missing_counted(preview);
    let n = " Mods in profile ("@ + decimal(preview.len());
    assert(n + Seq::<char>::empty() =~= n);
}

proof fn lemma_missing_counted(preview: Seq<PreviewView>)
    ensures
        missing_lines(preview) == preview.filter(|l: PreviewView| l.missing).len(),
    decreases preview.len(),
{
    reveal(Seq::filter);
    if preview.len() > 0 {
        lemma_missing_counted(preview.drop_last());
    }
}

/// The printed line of a slot: its number, the name of its mod or its id, and
/// whether the mod is missing or past its pin.
pub open spec fn printed_slot(v: AppView, k: int) -> Seq<char> {
    let s = v.slots[k];
    let gone = s.idx is None || v.pool[s.idx->0 as int].missing;
    let name = if s.idx is Some {
        v.pool[s.idx->0 as int].name
    } else {
        s.id
    };
    let note = if gone {
        "  (missing)"@
    } else if v.updated(s) {
        "  (updated)"@
    } else {
        Seq::empty()
    };
    padded(decimal((k + 1) as nat), 3, ' ') + "  "@ + name + note + "\n"@
}

/// The printed line of an available mod.
pub open spec fn printed_mod(m: ModView) -> Seq<char> {
    let note = if m.local {
        "  (local)"@
    } else {
        Seq::empty()
    };
    "     "@ + m.name + note + "\n"@
}

/// The printed list has a line for every slot of the load order, and one for
/// every mod that is available.
pub proof fn every_slot_and_mod_is_printed(v: AppView)
    ensures
        v.listing() == "Load order:\n"@ + Seq::new(
            v.slots.len(),
            |k: int| printed_slot(v, k),
        ).flatten() + "\nAvailable:\n"@ + v.available().map_values(
            |i: int| printed_mod(v.pool[i]),
        ).flatten(),
{
    lemma_slots_printed(v, v.slots.len() as int);
    lemma_mods_printed(v, v.available());
}

proof fn lemma_slots_printed(v: AppView, n: int)
    requires
        0 <= n <= v.slots.len(),
    ensures
        v.listed_slots(n) == Seq::new(n as nat, |k: int| printed_slot(v, k)).flatten(),
    decreases n,
{
    if n > 0 {
        lemma_slots_printed(v, n - 1);
        let d = Seq::new((n - 1) as nat, |k: int| printed_slot(v, k));
        let a = Seq::new(n as nat, |k: int| printed_slot(v, k));
        assert(a =~= d.push(printed_slot(v, n - 1)));
        d.lemma_flatten_push(printed_slot(v, n - 1));
        assert(v.listed_slot(n - 1) =~= printed_slot(v, n - 1));
    } else {
        assert(Seq::new(0nat, |k: int| printed_slot(v, k)).flatten() =~= Seq::<char>::empty());
    }
}

proof fn lemma_mods_printed(v: AppView, mods: Seq<int>)
    ensures
        v.listed_mods(mods) == mods.map_values(|i: int| printed_mod(v.pool[i])).flatten(),
    decreases mods.len(),
{
    let f = |i: int| printed_mod(v.pool[i]);
    if mods.len() > 0 {
        let d = mods.drop_last();
        lemma_mods_printed(v, d);
        assert(mods.map_values(f) =~= d.map_values(f).push(f(mods.last())));
        d.map_values(f).lemma_flatten_push(f(mods.last()));
    } else {
        assert(mods.map_values(f).flatten() =~= Seq::<char>::empty());
    }
}

} // verus!
