//! The state at the start, and what applying, saving, renaming and deleting a
//! profile does to it.

use vstd::prelude::*;
use vstd::string::StringExecFns;

use crate::app::{ints, slots_fit, App, AppView, Mode, Pane};
use crate::json::{parse_json, parsed_json, Json, JsonView};
use crate::laws::{first_state_fits, profile_slots_fit};
use crate::model::{
    ml_views, mod_views, slot_views, MlView, ModEntry, ModView, PreviewView, SlotView, VersionView,
};
use crate::profiles::{
    active_packs, entries_or_none, first_position, lemma_first_position, listed_mods,
    modlist_entries, modlist_of, opt_str, pins_of, position_in, read_modlist, seeded,
    slots_are_counted, slots_for, ModlistError, ModlistErrorView,
};
use crate::steam::{ws_views, ModMeta, WsInfo, WsView};
use crate::strmap::StrMap;
use crate::text::{decimal, join, joined, opt_text, same, texts, to_decimal, trim, trimmed};
use crate::ui::LineView;

verus! {

/// The profile that a text names as the current one.
pub open spec fn current_name_of(text: Option<Seq<char>>) -> Option<Seq<char>> {
    match text {
        Some(t) => if trimmed(t).len() > 0 {
            Some(trimmed(t))
        } else {
            None
        },
        None => None,
    }
}

/// The profile that was current when the program last ran, given the text that
/// recorded it, if there is one. It counts only if the profile still exists.
pub fn current_name(text: Option<&str>) -> (r: Option<String>)
    ensures
        opt_text(r) == current_name_of(opt_str(text)),
{
    match text {
        Some(t) => {
            let s = trim(t);
            if s.as_str().is_empty() {
                None
            } else {
                Some(s)
            }
        },
        None => None,
    }
}

/// The current profile that was recorded is read back.
pub proof fn current_profile_reads_back(name: Seq<char>)
    requires
        name.len() > 0,
        trimmed(name) == name,
    ensures
        current_name_of(Some(name)) == Some(name),
{
}

/// The state before any load order is known.
pub open spec fn empty_state(
    path: Seq<char>,
    pool: Seq<ModView>,
    ws: Map<Seq<char>, WsView>,
    game_buildid: Option<Seq<char>>,
) -> AppView {
    AppView {
        path,
        pool,
        slots: Seq::empty(),
        focus: Pane::Profile,
        avail_sel: None,
        prof_sel: None,
        dirty: false,
        status: Seq::empty(),
        confirm_quit: false,
        mode: Mode::Browse,
        current_profile: None,
        ws,
        game_buildid,
        pins: Map::empty(),
        pinned_buildid: None,
        profiles: Seq::empty(),
        profile_sel: None,
        preview_for: None,
        preview: Seq::empty(),
        confirm_delete: false,
        input: Seq::empty(),
        rename_from: None,
        status_lines: Seq::empty(),
        preview_mounted: false,
        overlay_watch_since: None,
        version_mod: None,
        versions: Seq::empty(),
        version_sel: None,
        req_slot: None,
        req_sel: None,
    }
}

impl AppView {
    /// The load order taken from the profile `name`, whose text is `text`, with
    /// its pins, and what changed since it was saved as the status.
    pub open spec fn with_profile(self, name: Seq<char>, text: Option<Seq<char>>) -> AppView {
        let t = (AppView {
            current_profile: Some(name),
            slots: slots_for(self.pool, entries_or_none(text)),
            ..self
        }).with_pins_of(
            match text {
                Some(x) => parsed_json(x),
                None => None,
            },
        );
        t.with_status(
            match t.drift() {
                Some(d) => d,
                None => Seq::empty(),
            },
        )
    }

    /// The first row of each pane selected; the load order focused unless it
    /// is empty.
    pub open spec fn first_rows_selected(self) -> AppView {
        AppView {
            prof_sel: if self.slots.len() > 0 {
                Some(0)
            } else {
                self.prof_sel
            },
            avail_sel: if self.available().len() > 0 {
                Some(0)
            } else {
                self.avail_sel
            },
            focus: if self.slots.len() == 0 {
                Pane::Available
            } else {
                self.focus
            },
            ..self
        }
    }

    /// The profile `name` applied, given its document.
    pub open spec fn applied(self, name: Seq<char>, doc: JsonView) -> AppView {
        let s = AppView { slots: slots_for(self.pool, listed_mods(doc)->0), ..self };
        let t = (AppView {
            prof_sel: if s.slots.len() == 0 {
                None
            } else {
                Some(0)
            },
            ..s
        }).some_available_selected();
        let u = (AppView { dirty: false, current_profile: Some(name), ..t }).with_pins_of(
            Some(doc),
        );
        u.with_status(u.applied_text(name))
    }

    /// What is told of a profile that was applied.
    pub open spec fn applied_text(self, name: Seq<char>) -> Seq<char> {
        let missing = self.missing_among(self.slots);
        let notes = if missing > 0 {
            seq![decimal(missing) + " missing (kept in profile, not enabled)"@]
        } else {
            Seq::empty()
        };
        let notes = match self.drift() {
            Some(d) => notes.push(d),
            None => notes,
        };
        "Switched to profile '"@ + name + "': "@ + decimal(self.slots.len()) + " mods"@
            + if notes.len() == 0 {
            Seq::empty()
        } else {
            " — "@ + joined(notes, "; "@)
        }
    }

    /// The profile `name` is gone.
    pub open spec fn without_profile(self, name: Seq<char>) -> AppView {
        AppView {
            current_profile: if self.current_profile == Some(name) {
                None
            } else {
                self.current_profile
            },
            status: "Deleted profile '"@ + name + "'"@,
            ..self
        }
    }

    /// The profile `from` is now called `to`.
    pub open spec fn renamed(self, from: Seq<char>, to: Seq<char>) -> AppView {
        AppView {
            current_profile: if self.current_profile == Some(from) {
                Some(to)
            } else {
                self.current_profile
            },
            status: "Renamed profile '"@ + from + "' → '"@ + to + "'"@,
            ..self
        }
    }

    /// The pins of a profile that was just written, if it is the current one.
    pub open spec fn written(self, name: Seq<char>, text: Seq<char>) -> AppView {
        if self.current_profile == Some(name) {
            self.with_pins_of(parsed_json(text))
        } else {
            self
        }
    }

    /// The load order saved to its profile, or not. `Ok` holds the text that was
    /// written and how many packs were newly stored.
    pub open spec fn saved(
        self,
        name: Seq<char>,
        outcome: Result<(Seq<char>, nat), Seq<char>>,
    ) -> AppView {
        let mods = (self.slots.len() - self.missing_among(self.slots)) as nat;
        let t = match outcome {
            Ok((text, _)) => self.written(name, text),
            Err(_) => self,
        };
        AppView {
            dirty: false,
            status: match outcome {
                Ok((_, vaulted)) => "Saved '"@ + name + "': "@ + decimal(mods) + " mods"@ + if vaulted
                    > 0 {
                    ", "@ + decimal(vaulted) + " pack versions stored"@
                } else {
                    Seq::empty()
                },
                Err(e) => "Saving '"@ + name + "' failed: "@ + e,
            },
            ..t
        }
    }

    /// The load order saved as the profile `name`, the current one from now on.
    pub open spec fn saved_as(self, name: Seq<char>, text: Seq<char>, vaulted: nat) -> AppView {
        (AppView { current_profile: Some(name), ..self }).written(name, text).with_status(
            "Saved profile '"@ + name + "' ("@ + decimal(self.slots.len()) + " mods"@ + if vaulted
                > 0 {
                ", "@ + decimal(vaulted) + " pack versions vaulted)"@
            } else {
                ")"@
            },
        )
    }

    /// The list of profiles shows the profile `name` selected.
    pub open spec fn profile_selected(self, name: Seq<char>) -> AppView {
        match first_position(self.profiles, name, 0) {
            Some(i) => AppView { profile_sel: Some(i as usize), ..self },
            None => self,
        }
    }
}

impl App {
    /// The state before any load order is known.
    fn empty(
        path: String,
        pool: Vec<ModEntry>,
        ws: StrMap<WsInfo>,
        game_buildid: Option<String>,
    ) -> (r: App)
        ensures
            r@ == empty_state(path@, mod_views(pool@), ws_views(ws@), opt_text(game_buildid)),
    {
        let r = App {
            path,
            pool,
            slots: Vec::new(),
            focus: Pane::Profile,
            avail_sel: None,
            prof_sel: None,
            dirty: false,
            status: String::new(),
            confirm_quit: false,
            mode: Mode::Browse,
            current_profile: None,
            ws,
            game_buildid,
            pins: StrMap::new(),
            pinned_buildid: None,
            profiles: Vec::new(),
            profile_sel: None,
            preview_for: None,
            preview: Vec::new(),
            confirm_delete: false,
            input: String::new(),
            rename_from: None,
            status_lines: Vec::new(),
            preview_mounted: false,
            overlay_watch_since: None,
            version_mod: None,
            versions: Vec::new(),
            version_sel: None,
            req_slot: None,
            req_sel: None,
        };
        proof {
            assert(r@.slots =~= Seq::<SlotView>::empty());
            assert(r@.status =~= Seq::<char>::empty());
            assert(r@.input =~= Seq::<char>::empty());
            assert(r@.pins =~= Map::<Seq<char>, Seq<char>>::empty());
            assert(r@.profiles =~= Seq::<Seq<char>>::empty());
            assert(r@.preview =~= Seq::<PreviewView>::empty());
            assert(r@.status_lines =~= Seq::<LineView>::empty());
            assert(r@.versions =~= Seq::<VersionView>::empty());
        }
        r
    }

    /// The state at the start: the load order of the current profile, given
    /// its name and, if it could be read, its text; without a current profile
    /// the load order that the launcher has active.
    pub fn load(
        path: String,
        pool: Vec<ModEntry>,
        meta: &StrMap<ModMeta>,
        ws: StrMap<WsInfo>,
        game_buildid: Option<String>,
        current: Option<(String, Option<String>)>,
    ) -> (r: App)
        ensures
            r@ == first_state(
                empty_state(path@, mod_views(pool@), ws_views(ws@), opt_text(game_buildid)),
                meta.items(),
                match current {
                    Some(c) => Some((c.0@, opt_text(c.1))),
                    None => None,
                },
            ),
            ({
                let e = empty_state(
                    path@,
                    mod_views(pool@),
                    ws_views(ws@),
                    opt_text(game_buildid),
                );
                r@ == (match current {
                    Some(c) => e.with_profile(c.0@, opt_text(c.1)),
                    None => AppView { slots: seeded(e.pool, active_packs(meta.items())), ..e },
                }).first_rows_selected()
            }),
            r@.fits(),
    {
        let n: usize = pool.len();
        let mut app = App::empty(path, pool, ws, game_buildid);
        proof {
            assert(app@.pool.len() == n);
            first_state_fits(
                app@,
                if current is Some {
                    Some(((current->0).0@, opt_text((current->0).1)))
                } else {
                    None
                },
                active_packs(meta.items()),
            );
        }
        match current {
            Some((name, text)) => {
                let t = match &text {
                    Some(x) => Some(x.as_str()),
                    None => None,
                };
                let entries = match read_modlist(t) {
                    Ok(v) => v,
                    Err(_) => Vec::new(),
                };
                assert(ml_views(entries@) =~= entries_or_none(opt_text(text)));
                let ghost ev = ml_views(entries@);
                app.slots = app.slots_for_profile(entries);
                app.current_profile = Some(name);
                app.load_pins(t);
                let ghost before = app@;
                proof {
                    assert(app@.pool.len() == n);
                    profile_slots_fit(app@.pool, ev);
                }
                app.status = match app.drift_report() {
                    Some(d) => d,
                    None => String::new(),
                };
                assert(before.drift() is None ==> app.status@ =~= Seq::<char>::empty());
            },
            None => {
                app.slots = app.slots_from_moddata(meta);
            },
        }
        let a = app.available();
        assert(ints(a@).len() == a@.len());
        assert(slot_views(app.slots@).len() == app.slots@.len());
        if app.slots.len() > 0 {
            app.prof_sel = Some(0);
        } else {
            app.focus = Pane::Available;
        }
        if a.len() > 0 {
            app.avail_sel = Some(0);
        }
        app
    }

    /// What is told of a profile that was applied.
    fn applied_report(&self, name: &str) -> (r: String)
        requires
            slots_fit(self@.slots, self@.pool.len()),
        ensures
            r@ == self@.applied_text(name@),
    {
        let missing = self.missing_count();
        let mut notes: Vec<String> = Vec::new();
        if missing > 0 {
            notes.push(
                to_decimal(missing as u64).concat(" missing (kept in profile, not enabled)"),
            );
        }
        let ghost n0 = texts(notes@);
        assert(n0 =~= if missing > 0 {
            seq![decimal(missing as nat) + " missing (kept in profile, not enabled)"@]
        } else {
            Seq::empty()
        });
        match self.drift_report() {
            Some(d) => {
                notes.push(d);
                assert(texts(notes@) =~= n0.push(d@));
            },
            None => {},
        }
        assert(texts(notes@).len() == notes@.len());
        let note = if notes.len() == 0 {
            String::new()
        } else {
            " — ".to_owned().concat(join(&notes, "; ").as_str())
        };
        assert(notes@.len() == 0 ==> note@ =~= Seq::<char>::empty());
        "Switched to profile '".to_owned().concat(name).concat("': ").concat(
            to_decimal(self.slots.len() as u64).as_str(),
        ).concat(" mods").concat(note.as_str())
    }

    /// Apply a profile, given its document. Returns whether the document lists
    /// mods; if not, nothing happens.
    pub fn apply_document(&mut self, name: &str, doc: &Json) -> (r: bool)
        ensures
            r == (listed_mods(doc@) is Some),
            final(self)@ == (if r {
                old(self)@.applied(name@, doc@)
            } else {
                old(self)@
            }),
            old(self)@.fits() && old(self)@.mode != Mode::RequirementPicker
                ==> final(self)@.fits(),
    {
        let entries = match modlist_entries(doc) {
            Some(v) => v,
            None => {
                return false;
            },
        };
        let ghost ev = ml_views(entries@);
        self.slots = self.slots_for_profile(entries);
        let n: usize = self.pool.len();
        proof {
            assert(self@.pool.len() == n);
            profile_slots_fit(self@.pool, ev);
        }
        self.prof_sel = if self.slots.len() == 0 {
            None
        } else {
            Some(0)
        };
        self.select_some_available();
        self.dirty = false;
        self.set_current(Some(name.to_owned()));
        self.take_pins(Some(doc));
        self.status = self.applied_report(name);
        true
    }

    /// Apply the profile `name`, given its text if it could be read. A profile
    /// that cannot be read changes nothing.
    pub fn apply_profile(&mut self, name: &str, text: Option<&str>) -> (r: Result<(), ModlistError>)
        ensures
            match r {
                Ok(_) => modlist_of(opt_str(text)) is Ok && final(self)@ == old(self)@.applied(
                    name@,
                    parsed_json(text->0@)->0,
                ),
                Err(e) => modlist_of(opt_str(text)) == Err::<Seq<MlView>, ModlistErrorView>(e@)
                    && final(self)@ == old(self)@,
            },
            old(self)@.fits() && old(self)@.mode != Mode::RequirementPicker
                ==> final(self)@.fits(),
    {
        match text {
            None => Err(ModlistError::Unreadable),
            Some(t) => match parse_json(t) {
                Err(e) => Err(ModlistError::NotJson(e)),
                Ok(doc) => if self.apply_document(name, &doc) {
                    Ok(())
                } else {
                    Err(ModlistError::NoMods)
                },
            },
        }
    }

    /// The file of the profile `name` was deleted.
    pub fn delete_profile(&mut self, name: &str)
        ensures
            final(self)@ == old(self)@.without_profile(name@),
    {
        let is_current = match &self.current_profile {
            Some(c) => same(c.as_str(), name),
            None => false,
        };
        if is_current {
            self.set_current(None);
        }
        self.status = "Deleted profile '".to_owned().concat(name).concat("'");
    }

    /// The file of the profile `from` was renamed.
    pub fn rename_profile(&mut self, from: &str, to: &str)
        ensures
            final(self)@ == old(self)@.renamed(from@, to@),
    {
        let is_current = match &self.current_profile {
            Some(c) => same(c.as_str(), from),
            None => false,
        };
        if is_current {
            self.set_current(Some(to.to_owned()));
        }
        self.status = "Renamed profile '".to_owned().concat(from).concat("' → '").concat(to).concat(
            "'",
        );
    }

    /// The profile that the load order is to be saved to. Without a current
    /// profile there is none.
    pub fn save(&mut self) -> (r: Option<String>)
        ensures
            opt_text(r) == old(self)@.current_profile,
            final(self)@ == (if old(self)@.current_profile is Some {
                old(self)@
            } else {
                old(self)@.with_status(
                    "No profile selected — press p then n to save this load order as one"@,
                )
            }),
    {
        match &self.current_profile {
            Some(n) => Some(n.clone()),
            None => {
                self.status =
                "No profile selected — press p then n to save this load order as one".to_owned();
                None
            },
        }
    }

    /// The profile `name` was written as `text`.
    pub fn modlist_written(&mut self, name: &str, text: &str)
        ensures
            final(self)@ == old(self)@.written(name@, text@),
    {
        let is_current = match &self.current_profile {
            Some(c) => same(c.as_str(), name),
            None => false,
        };
        if is_current {
            self.load_pins(Some(text));
        }
    }

    /// Saving the load order to its profile ended: with the text that was
    /// written and the number of packs that were newly stored, or with an error.
    pub fn save_done(&mut self, name: &str, outcome: Result<(String, usize), String>)
        requires
            slots_fit(old(self)@.slots, old(self)@.pool.len()),
        ensures
            final(self)@ == old(self)@.saved(
                name@,
                match outcome {
                    Ok(x) => Ok::<(Seq<char>, nat), Seq<char>>((x.0@, x.1 as nat)),
                    Err(e) => Err::<(Seq<char>, nat), Seq<char>>(e@),
                },
            ),
    {
        let mods: usize = self.slots.len() - self.missing_count();
        self.status = match outcome {
            Ok((text, vaulted)) => {
                self.modlist_written(name, text.as_str());
                let note = if vaulted > 0 {
                    ", ".to_owned().concat(to_decimal(vaulted as u64).as_str()).concat(
                        " pack versions stored",
                    )
                } else {
                    String::new()
                };
                assert(vaulted == 0 ==> note@ =~= Seq::<char>::empty());
                "Saved '".to_owned().concat(name).concat("': ").concat(
                    to_decimal(mods as u64).as_str(),
                ).concat(" mods").concat(note.as_str())
            },
            Err(e) => "Saving '".to_owned().concat(name).concat("' failed: ").concat(e.as_str()),
        };
        self.dirty = false;
    }

    /// The load order was saved as the profile `name`, the current one from now
    /// on: `text` was written, and `vaulted` packs were newly stored.
    pub fn save_profile(&mut self, name: &str, text: &str, vaulted: usize)
        ensures
            final(self)@ == old(self)@.saved_as(name@, text@, vaulted as nat),
    {
        self.set_current(Some(name.to_owned()));
        self.modlist_written(name, text);
        let note = if vaulted > 0 {
            ", ".to_owned().concat(to_decimal(vaulted as u64).as_str()).concat(
                " pack versions vaulted)",
            )
        } else {
            ")".to_owned()
        };
        self.status = "Saved profile '".to_owned().concat(name).concat("' (").concat(
            to_decimal(self.slots.len() as u64).as_str(),
        ).concat(" mods").concat(note.as_str());
    }

    /// Select the profile `name` in the list.
    pub fn select_profile(&mut self, name: &str)
        ensures
            final(self)@ == old(self)@.profile_selected(name@),
    {
        match position_in(&self.profiles, name) {
            Some(i) => {
                self.profile_sel = Some(i);
            },
            None => {},
        }
    }
}

/// What renaming a profile takes.
#[derive(Clone, Copy, PartialEq, Eq, Structural)]
pub enum RenameStep {
    /// It has that name.
    Nothing,
    /// Another profile has that name.
    Taken,
    /// Its file has to be renamed.
    Rename,
}

/// What renaming the profile `from` to `to` takes, given whether a profile `to`
/// exists.
pub open spec fn rename_plan(from: Seq<char>, to: Seq<char>, exists: bool) -> RenameStep {
    if to != from && !exists {
        RenameStep::Rename
    } else if to != from {
        RenameStep::Taken
    } else {
        RenameStep::Nothing
    }
}

/// What renaming a profile takes.
pub fn rename_step(from: &str, to: &str, exists: bool) -> (r: RenameStep)
    ensures
        r == (if to@ == from@ {
            RenameStep::Nothing
        } else if exists {
            RenameStep::Taken
        } else {
            RenameStep::Rename
        }),
        r == rename_plan(from@, to@, exists),
{
    if same(to, from) {
        RenameStep::Nothing
    } else if exists {
        RenameStep::Taken
    } else {
        RenameStep::Rename
    }
}

/// What to tell when another profile has the name.
pub fn taken_message(to: &str) -> (r: String)
    ensures
        r@ == "a profile named '"@ + to@ + "' already exists"@,
{
    "a profile named '".to_owned().concat(to).concat("' already exists")
}

/// Applying a profile replaces the load order, the pins and the build that they
/// were made for by what the profile says, makes it the current profile, and
/// takes back what was unsaved; the pool and what Steam says stay as they are.
pub proof fn applying_replaces_the_load_order(v: AppView, name: Seq<char>, doc: JsonView)
    requires
        listed_mods(doc) is Some,
    ensures
        ({
            let r = v.applied(name, doc);
            &&& r.slots == slots_for(v.pool, listed_mods(doc)->0)
            &&& r.pins == pins_of(Some(doc))
            &&& r.pinned_buildid == doc.text_at("game_buildid"@)
            &&& r.current_profile == Some(name)
            &&& !r.dirty
            &&& r.prof_sel == if r.slots.len() > 0 {
                Some(0usize)
            } else {
                None
            }
            &&& v.avail_sel is Some ==> r.avail_sel == v.avail_sel
            &&& r == (AppView {
                slots: r.slots,
                pins: r.pins,
                pinned_buildid: r.pinned_buildid,
                current_profile: r.current_profile,
                dirty: r.dirty,
                prof_sel: r.prof_sel,
                avail_sel: r.avail_sel,
                status: r.status,
                ..v
            })
        }),
{
}

/// What is told of a profile that was applied: its name, how many mods it has,
/// how many of them are missing if any is, and the drift if there is one.
pub proof fn applied_profiles_are_reported(v: AppView, name: Seq<char>)
    ensures
        ({
            let missing = v.slots.filter(
                |s: SlotView|
                    match s.idx {
                        Some(i) => v.pool[i as int].missing,
                        None => true,
                    },
            ).len();
            let head = "Switched to profile '"@ + name + "': "@ + decimal(v.slots.len())
                + " mods"@;
            let gone = decimal(missing) + " missing (kept in profile, not enabled)"@;
            v.applied_text(name) == head + if missing > 0 && v.drift() is Some {
                " — "@ + (gone + "; "@ + v.drift()->0)
            } else if missing > 0 {
                " — "@ + gone
            } else if v.drift() is Some {
                " — "@ + v.drift()->0
            } else {
                Seq::empty()
            }
        }),
{
    slots_are_counted(v, v.slots);
    let missing = v.missing_among(v.slots);
    let gone = decimal(missing) + " missing (kept in profile, not enabled)"@;
    reveal_with_fuel(joined, 3);
    let one = seq![gone];
    assert(one.drop_last() =~= Seq::<Seq<char>>::empty());
    assert(joined(one, "; "@) =~= gone);
    match v.drift() {
        Some(d) => {
            assert(Seq::<Seq<char>>::empty().push(d) =~= seq![d]);
            assert(seq![d].drop_last() =~= Seq::<Seq<char>>::empty());
            assert(joined(seq![d], "; "@) =~= d);
            assert(one.push(d).drop_last() =~= one);
            assert(joined(one.push(d), "; "@) =~= gone + "; "@ + d);
        },
        None => {},
    }
}

/// Deleting, renaming and saving profiles changes no slot: a deleted profile is
/// no longer the current one, a renamed one stays it under its new name, and
/// every other profile stays what it was.
pub proof fn profiles_keep_track(v: AppView, name: Seq<char>, to: Seq<char>)
    ensures
        ({
            let d = v.without_profile(name);
            &&& d == (AppView { current_profile: d.current_profile, status: d.status, ..v })
            &&& d.current_profile != Some(name)
            &&& v.current_profile != Some(name) ==> d.current_profile == v.current_profile
            &&& v.current_profile == Some(name) ==> d.current_profile is None
            &&& d.status == "Deleted profile '"@ + name + "'"@
        }),
        ({
            let r = v.renamed(name, to);
            &&& r == (AppView { current_profile: r.current_profile, status: r.status, ..v })
            &&& v.current_profile == Some(name) ==> r.current_profile == Some(to)
            &&& v.current_profile != Some(name) ==> r.current_profile == v.current_profile
            &&& r.status == "Renamed profile '"@ + name + "' → '"@ + to + "'"@
        }),
{
}

/// A load order that was saved is no longer unsaved, and its pins are those of
/// the text that was written, if the profile is the current one; it stays the
/// load order. A save that failed changes no pin.
pub proof fn saving_takes_over_the_written_pins(
    v: AppView,
    name: Seq<char>,
    text: Seq<char>,
    stored: nat,
    error: Seq<char>,
)
    ensures
        ({
            let r = v.saved(name, Ok((text, stored)));
            let w = v.written(name, text);
            let gone = v.slots.filter(
                |s: SlotView|
                    match s.idx {
                        Some(i) => v.pool[i as int].missing,
                        None => true,
                    },
            ).len();
            &&& w == (AppView { pins: w.pins, pinned_buildid: w.pinned_buildid, ..v })
            &&& v.current_profile == Some(name) ==> w.pins == pins_of(parsed_json(text))
            &&& v.current_profile == Some(name) ==> w.pinned_buildid == match parsed_json(text) {
                Some(d) => d.text_at("game_buildid"@),
                None => None,
            }
            &&& v.current_profile != Some(name) ==> w == v
            &&& r == (AppView { dirty: false, status: r.status, ..w })
            &&& r.status == "Saved '"@ + name + "': "@ + decimal((v.slots.len() - gone) as nat)
                + " mods"@ + if stored > 0 {
                ", "@ + decimal(stored) + " pack versions stored"@
            } else {
                Seq::empty()
            }
        }),
        ({
            let r = v.saved(name, Err(error));
            r == (AppView {
                dirty: false,
                status: "Saving '"@ + name + "' failed: "@ + error,
                ..v
            })
        }),
        ({
            let r = v.saved_as(name, text, stored);
            &&& r.pins == pins_of(parsed_json(text))
            &&& r.current_profile == Some(name)
            &&& r == (AppView {
                current_profile: r.current_profile,
                pins: r.pins,
                pinned_buildid: r.pinned_buildid,
                status: r.status,
                ..v
            })
            &&& r.status == "Saved profile '"@ + name + "' ("@ + decimal(v.slots.len())
                + " mods"@ + if stored > 0 {
                ", "@ + decimal(stored) + " pack versions vaulted)"@
            } else {
                ")"@
            }
        }),
{
    slots_are_counted(v, v.slots);
}

/// At the start the load order is that of the current profile, with its pins;
/// what changed since it was saved is told.
pub proof fn the_current_profile_is_loaded(v: AppView, name: Seq<char>, text: Seq<char>)
    ensures
        ({
            let r = v.with_profile(name, Some(text));
            &&& r.current_profile == Some(name)
            &&& r.pins == pins_of(parsed_json(text))
            &&& parsed_json(text) is Some && listed_mods(parsed_json(text)->0) is Some ==> r.slots
                == slots_for(v.pool, listed_mods(parsed_json(text)->0)->0)
            &&& parsed_json(text) is None ==> r.slots.len() == 0
            &&& r == (AppView {
                slots: r.slots,
                pins: r.pins,
                pinned_buildid: r.pinned_buildid,
                current_profile: r.current_profile,
                status: r.status,
                ..v
            })
            &&& r.drift() is Some ==> r.status == r.drift()->0
            &&& r.drift() is None ==> r.status.len() == 0
        }),
        ({
            let r = v.with_profile(name, None);
            r.current_profile == Some(name) && r.slots.len() == 0 && r.pins.dom().is_empty()
        }),
{
    let r = v.with_profile(name, Some(text));
    let t = AppView { status: v.status, ..r };
    assert(t.drift_parts() == r.drift_parts()) by {
        lemma_status_moves_no_drift(r, v.status);
    }
}

proof fn lemma_status_moves_no_drift(v: AppView, status: Seq<char>)
    ensures
        v.with_status(status).drift() == v.drift(),
        v.with_status(status).drift_parts() == v.drift_parts(),
{
    let t = v.with_status(status);
    slots_are_counted(v, v.slots);
    slots_are_counted(t, v.slots);
    assert((|s: SlotView| v.updated(s)) =~= (|s: SlotView| t.updated(s)));
    assert(t.updated_among(t.slots) == v.updated_among(v.slots));
}

/// The list of profiles shows the first profile of the name selected, and stays
/// as it is where there is none.
pub proof fn profiles_are_selected_by_name(v: AppView, name: Seq<char>)
    requires
        v.profiles.len() <= usize::MAX,
    ensures
        ({
            let r = v.profile_selected(name);
            &&& r == (AppView { profile_sel: r.profile_sel, ..v })
            &&& !v.profiles.contains(name) ==> r == v
            &&& v.profiles.contains(name) ==> r.profile_sel is Some && r.profile_sel->0
                < v.profiles.len() && v.profiles[r.profile_sel->0 as int] == name && forall|j: int|
                0 <= j < r.profile_sel->0 ==> #[trigger] v.profiles[j] != name
        }),
{
    lemma_first_position(v.profiles, name, 0);
}

/// At the start the first row of each pane that has one is selected, and the load
/// order is focused unless it is empty; nothing else changes.
pub proof fn the_first_rows_are_selected(v: AppView)
    ensures
        ({
            let r = v.first_rows_selected();
            &&& r == (AppView {
                prof_sel: r.prof_sel,
                avail_sel: r.avail_sel,
                focus: r.focus,
                ..v
            })
            &&& v.slots.len() > 0 ==> r.prof_sel == Some(0usize) && r.focus == v.focus
            &&& v.slots.len() == 0 ==> r.prof_sel == v.prof_sel && r.focus == Pane::Available
            &&& v.available().len() > 0 ==> r.avail_sel == Some(0usize)
            &&& v.available().len() == 0 ==> r.avail_sel == v.avail_sel
        }),
{
}

/// Before anything is loaded there is no slot, no pin, no profile, no message and
/// nothing to save.
pub proof fn nothing_is_loaded_at_first(
    path: Seq<char>,
    pool: Seq<ModView>,
    ws: Map<Seq<char>, WsView>,
    build: Option<Seq<char>>,
)
    ensures
        ({
            let e = empty_state(path, pool, ws, build);
            &&& e.path == path && e.pool == pool && e.ws == ws && e.game_buildid == build
            &&& e.slots.len() == 0 && e.pins.dom().is_empty() && e.profiles.len() == 0
            &&& e.current_profile is None && e.pinned_buildid is None
            &&& !e.dirty && !e.confirm_quit && !e.confirm_delete && !e.preview_mounted
            &&& e.mode == Mode::Browse && e.focus == Pane::Profile
            &&& e.status.len() == 0 && e.overlay_watch_since is None
            &&& e.prof_sel is None && e.avail_sel is None && e.profile_sel is None
        }),
{
}

/// A profile is renamed exactly if the new name is another one and no profile has
/// it; no profile is ever renamed over another.
pub proof fn profiles_are_renamed_to_free_names(from: Seq<char>, to: Seq<char>, exists: bool)
    ensures
        rename_plan(from, to, exists) == RenameStep::Rename <==> to != from && !exists,
        rename_plan(from, to, exists) == RenameStep::Taken <==> to != from && exists,
        rename_plan(from, to, exists) == RenameStep::Nothing <==> to == from,
{
}

/// The state at the start, given the state before any load order is known.
pub open spec fn first_state(
    e: AppView,
    meta: Seq<(Seq<char>, ModMeta)>,
    current: Option<(Seq<char>, Option<Seq<char>>)>,
) -> AppView {
    match current {
        Some((name, text)) => e.with_profile(name, text).first_rows_selected(),
        None => (AppView { slots: seeded(e.pool, active_packs(meta)), ..e }).first_rows_selected(),
    }
}

/// The program starts with the load order of the current profile, and without one
/// with the mods that the launcher has active; nothing is unsaved then.
pub proof fn the_program_starts_where_it_ended(
    e: AppView,
    meta: Seq<(Seq<char>, ModMeta)>,
    name: Seq<char>,
    text: Seq<char>,
)
    ensures
        ({
            let r = first_state(e, meta, Some((name, Some(text))));
            &&& r.current_profile == Some(name)
            &&& r.pins == pins_of(parsed_json(text))
            &&& r.dirty == e.dirty && r.pool == e.pool && r.ws == e.ws
            &&& parsed_json(text) is Some && listed_mods(parsed_json(text)->0) is Some ==> r.slots
                == slots_for(e.pool, listed_mods(parsed_json(text)->0)->0)
            &&& r.slots.len() > 0 ==> r.prof_sel == Some(0usize)
        }),
        ({
            let r = first_state(e, meta, None);
            &&& r.slots == seeded(e.pool, active_packs(meta))
            &&& r.current_profile == e.current_profile && r.pins == e.pins
            &&& r.dirty == e.dirty && r.pool == e.pool && r.ws == e.ws
            &&& r.slots.len() > 0 ==> r.prof_sel == Some(0usize)
        }),
{
    the_current_profile_is_loaded(e, name, text);
}

} // verus!
