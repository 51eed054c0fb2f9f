//! What each key does.

use vstd::prelude::*;
use vstd::string::StringExecFns;
use vstd::utf8::encode_utf8;

use crate::app::{ints, least, name_is_valid, valid_profile_name, App, AppView, Mode, Pane};
use crate::laws::keys_keep_the_state_fitting;
use crate::store::{store_views, StoreRequest, StoreView};
use crate::text::{from_chars, joined, to_chars, trim, trimmed};
use crate::versions::StoredVersion;

verus! {

/// The keys that do something.
#[derive(Clone, Copy, PartialEq, Eq, Structural)]
pub enum KeyCode {
    Char(char),
    Esc,
    Tab,
    BackTab,
    Left,
    Right,
    Up,
    Down,
    Home,
    End,
    Enter,
    Delete,
    Backspace,
    Other,
}

/// A key that was pressed, with the modifiers held.
#[derive(Clone, Copy)]
pub struct KeyPress {
    pub code: KeyCode,
    pub shift: bool,
    pub control: bool,
}

/// What is left to be done outside for a key.
pub enum Request {
    Nothing,
    /// End the program.
    Quit,
    /// List the files of the profile directory.
    ListProfiles,
    /// Save the load order to its profile.
    Save(String),
    /// Gather the status page.
    GatherStatus,
    /// List the stored versions of a Workshop item.
    ListVersions(String),
    /// Store versions, if they can be stored.
    Store(Vec<StoreRequest>),
    /// Open the game's `data/` folder, or unmount the preview.
    ToggleDataView,
    Launch,
    /// Write the order of the profiles.
    WriteOrder(String),
    /// Apply a profile.
    Apply(String),
    /// Export a profile.
    Export(String),
    /// Delete a profile, and list the profiles again.
    Delete(String),
    /// Rename a profile, list the profiles again and select it.
    Rename(String, String),
    /// Save the load order as a profile, list the profiles again and select it.
    SaveProfile(String),
}

/// What a request says.
pub enum RequestView {
    Nothing,
    Quit,
    ListProfiles,
    Save(Seq<char>),
    GatherStatus,
    ListVersions(Seq<char>),
    Store(Seq<StoreView>),
    ToggleDataView,
    Launch,
    WriteOrder(Seq<char>),
    Apply(Seq<char>),
    Export(Seq<char>),
    Delete(Seq<char>),
    Rename(Seq<char>, Seq<char>),
    SaveProfile(Seq<char>),
}

impl View for Request {
    type V = RequestView;

    open spec fn view(&self) -> RequestView {
        match *self {
            Request::Nothing => RequestView::Nothing,
            Request::Quit => RequestView::Quit,
            Request::ListProfiles => RequestView::ListProfiles,
            Request::Save(s) => RequestView::Save(s@),
            Request::GatherStatus => RequestView::GatherStatus,
            Request::ListVersions(s) => RequestView::ListVersions(s@),
            Request::Store(v) => RequestView::Store(store_views(v@)),
            Request::ToggleDataView => RequestView::ToggleDataView,
            Request::Launch => RequestView::Launch,
            Request::WriteOrder(s) => RequestView::WriteOrder(s@),
            Request::Apply(s) => RequestView::Apply(s@),
            Request::Export(s) => RequestView::Export(s@),
            Request::Delete(s) => RequestView::Delete(s@),
            Request::Rename(a, b) => RequestView::Rename(a@, b@),
            Request::SaveProfile(s) => RequestView::SaveProfile(s@),
        }
    }
}

/// The row above the selected one.
pub open spec fn row_above(sel: Option<usize>) -> Option<usize> {
    match sel {
        Some(i) => if i > 0 {
            Some((i - 1) as usize)
        } else {
            Some(0)
        },
        None => Some(0),
    }
}

/// The row below the selected one in a list of `n` rows.
pub open spec fn row_below(sel: Option<usize>, n: nat) -> Option<usize> {
    if n == 0 {
        sel
    } else {
        let i = match sel {
            Some(i) => i as int,
            None => 0,
        };
        Some(least(i + 1, n - 1) as usize)
    }
}

/// A profile's name may grow to this many bytes.
pub const NAME_BYTES: usize = 40;

impl AppView {
    /// The state once a key was pressed, before it does anything: the last
    /// message and the pending confirmations are gone.
    pub open spec fn awake(self) -> AppView {
        AppView { confirm_quit: false, confirm_delete: false, status: Seq::empty(), ..self }
    }

    pub open spec fn in_mode(self, mode: Mode) -> AppView {
        AppView { mode, ..self }
    }

    /// What a key does to the two panes.
    pub open spec fn browse_key(self, k: KeyPress, confirmed: bool) -> (AppView, RequestView) {
        let nothing = RequestView::Nothing;
        match k.code {
            KeyCode::Char('q') | KeyCode::Esc => if !self.dirty || confirmed {
                (self, RequestView::Quit)
            } else {
                (
                    AppView {
                        confirm_quit: true,
                        status: "Unsaved changes — press q again to discard them, or s to save"@,
                        ..self
                    },
                    nothing,
                )
            },
            KeyCode::Tab | KeyCode::BackTab | KeyCode::Left | KeyCode::Right | KeyCode::Char('h')
            | KeyCode::Char('l') => (self.pane_switched(), nothing),
            KeyCode::Char('K') => (self.slot_moved(-1), nothing),
            KeyCode::Char('J') => (self.slot_moved(1), nothing),
            KeyCode::Up => if k.shift {
                (self.slot_moved(-1), nothing)
            } else {
                (self.selection_moved(-1), nothing)
            },
            KeyCode::Down => if k.shift {
                (self.slot_moved(1), nothing)
            } else {
                (self.selection_moved(1), nothing)
            },
            KeyCode::Char('k') => (self.selection_moved(-1), nothing),
            KeyCode::Char('j') => (self.selection_moved(1), nothing),
            KeyCode::Home | KeyCode::Char('g') => (self.edge_selected(false), nothing),
            KeyCode::End | KeyCode::Char('G') => (self.edge_selected(true), nothing),
            KeyCode::Char(' ') | KeyCode::Enter => match self.focus {
                Pane::Available => (self.selected_added(), nothing),
                Pane::Profile => (self.selected_toggled(), nothing),
            },
            KeyCode::Char('x') | KeyCode::Delete | KeyCode::Backspace => if self.focus
                == Pane::Profile {
                (self.selected_removed(), nothing)
            } else {
                (self, nothing)
            },
            KeyCode::Char('R') => (self.requirement_picker_opened(), nothing),
            KeyCode::Char('p') => (self.in_mode(Mode::Profiles), RequestView::ListProfiles),
            KeyCode::Char('s') => match self.current_profile {
                Some(n) => (self, RequestView::Save(n)),
                None => (
                    self.with_status(
                        "No profile selected — press p then n to save this load order as one"@,
                    ),
                    nothing,
                ),
            },
            KeyCode::Char('S') => (self.in_mode(Mode::Status), RequestView::GatherStatus),
            KeyCode::Char('v') => match self.hovered() {
                None => (self, nothing),
                Some(i) => match self.pool[i].steam_id {
                    Some(sid) => (self, RequestView::ListVersions(sid)),
                    None => (self.with_status("Local mods have no Workshop versions"@), nothing),
                },
            },
            KeyCode::Char('U') => (self.all_updated().0, RequestView::Store(self.all_updated().1)),
            KeyCode::Char('o') => (self, RequestView::ToggleDataView),
            KeyCode::Char('L') => (self, RequestView::Launch),
            KeyCode::Char('?') => (self.in_mode(Mode::Help), nothing),
            _ => (self, nothing),
        }
    }

    /// What a key does to the version picker.
    pub open spec fn version_key(self, k: KeyPress) -> (AppView, RequestView) {
        let nothing = RequestView::Nothing;
        match k.code {
            KeyCode::Char('q') | KeyCode::Esc | KeyCode::Char('v') => (
                self.in_mode(Mode::Browse),
                nothing,
            ),
            KeyCode::Up | KeyCode::Char('k') => (
                AppView { version_sel: row_above(self.version_sel), ..self },
                nothing,
            ),
            KeyCode::Down | KeyCode::Char('j') => (
                AppView { version_sel: row_below(self.version_sel, self.versions.len()), ..self },
                nothing,
            ),
            KeyCode::Enter | KeyCode::Char(' ') => (
                self.version_picked().0,
                RequestView::Store(
                    match self.version_picked().1 {
                        Some(q) => seq![q],
                        None => Seq::empty(),
                    },
                ),
            ),
            _ => (self, nothing),
        }
    }

    /// What a key does to the requirement picker.
    pub open spec fn requirement_key(self, k: KeyPress) -> AppView {
        match k.code {
            KeyCode::Char('q') | KeyCode::Esc | KeyCode::Enter | KeyCode::Char('R') => AppView {
                req_slot: None,
                mode: Mode::Browse,
                ..self
            },
            KeyCode::Up | KeyCode::Char('k') => AppView {
                req_sel: row_above(self.req_sel),
                ..self
            },
            KeyCode::Down | KeyCode::Char('j') => AppView {
                req_sel: row_below(self.req_sel, self.candidates().len()),
                ..self
            },
            KeyCode::Char(' ') => self.requirement_toggled(),
            _ => self,
        }
    }

    /// What a key does to the list of profiles.
    pub open spec fn profiles_key(self, k: KeyPress, confirmed: bool) -> (AppView, RequestView) {
        let nothing = RequestView::Nothing;
        match k.code {
            KeyCode::Char('q') | KeyCode::Esc | KeyCode::Char('p') => (
                self.in_mode(Mode::Browse),
                nothing,
            ),
            KeyCode::Char('K') => self.profile_moved_and_written(-1),
            KeyCode::Char('J') => self.profile_moved_and_written(1),
            KeyCode::Up => if k.shift {
                self.profile_moved_and_written(-1)
            } else {
                (AppView { profile_sel: row_above(self.profile_sel), ..self }, nothing)
            },
            KeyCode::Down => if k.shift {
                self.profile_moved_and_written(1)
            } else {
                (
                    AppView {
                        profile_sel: row_below(self.profile_sel, self.profiles.len()),
                        ..self
                    },
                    nothing,
                )
            },
            KeyCode::Char('k') => (
                AppView { profile_sel: row_above(self.profile_sel), ..self },
                nothing,
            ),
            KeyCode::Char('j') => (
                AppView { profile_sel: row_below(self.profile_sel, self.profiles.len()), ..self },
                nothing,
            ),
            KeyCode::Enter => match self.selected_name() {
                Some(n) => (self.in_mode(Mode::Browse), RequestView::Apply(n)),
                None => (self, nothing),
            },
            KeyCode::Char('n') => (
                AppView {
                    input: Seq::empty(),
                    rename_from: None,
                    mode: Mode::NameInput,
                    ..self
                },
                nothing,
            ),
            KeyCode::Char('r') => match self.selected_name() {
                Some(n) => (
                    AppView { rename_from: Some(n), input: n, mode: Mode::NameInput, ..self },
                    nothing,
                ),
                None => (self, nothing),
            },
            KeyCode::Char('e') => match self.selected_name() {
                Some(n) => (self, RequestView::Export(n)),
                None => (self, nothing),
            },
            KeyCode::Char('d') => match self.selected_name() {
                Some(n) => if confirmed {
                    (self, RequestView::Delete(n))
                } else {
                    (
                        AppView {
                            confirm_delete: true,
                            status: "Press d again to delete profile '"@ + n + "'"@,
                            ..self
                        },
                        nothing,
                    )
                },
                None => (self, nothing),
            },
            _ => (self, nothing),
        }
    }

    /// The selected profile moved in the list, and the new order to be
    /// written.
    pub open spec fn profile_moved_and_written(self, delta: int) -> (AppView, RequestView) {
        (
            self.profile_moved(delta),
            if self.profile_moves(delta) {
                RequestView::WriteOrder(joined(self.profile_moved(delta).profiles, "\n"@))
            } else {
                RequestView::Nothing
            },
        )
    }

    /// What a key does to the input of a profile's name.
    pub open spec fn name_key(self, k: KeyPress) -> (AppView, RequestView) {
        let nothing = RequestView::Nothing;
        match k.code {
            KeyCode::Esc => (
                AppView { rename_from: None, mode: Mode::Profiles, ..self },
                nothing,
            ),
            KeyCode::Enter => if !name_is_valid(trimmed(self.input)) {
                (
                    self.with_status("Profile names: letters, digits, space, - _ . only"@),
                    nothing,
                )
            } else {
                (
                    AppView { rename_from: None, mode: Mode::Profiles, ..self },
                    match self.rename_from {
                        Some(from) => RequestView::Rename(from, trimmed(self.input)),
                        None => RequestView::SaveProfile(trimmed(self.input)),
                    },
                )
            },
            KeyCode::Backspace => (
                AppView {
                    input: if self.input.len() > 0 {
                        self.input.drop_last()
                    } else {
                        self.input
                    },
                    ..self
                },
                nothing,
            ),
            KeyCode::Char(c) => if encode_utf8(self.input).len() < NAME_BYTES {
                (AppView { input: self.input.push(c), ..self }, nothing)
            } else {
                (self, nothing)
            },
            _ => (self, nothing),
        }
    }

    /// What a key does.
    pub open spec fn key_step(self, k: KeyPress) -> (AppView, RequestView) {
        if k.code == KeyCode::Char('c') && k.control {
            (self, RequestView::Quit)
        } else {
            let a = self.awake();
            match self.mode {
                Mode::Browse => a.browse_key(k, self.confirm_quit),
                Mode::Help => (a.in_mode(Mode::Browse), RequestView::Nothing),
                Mode::VersionPicker => a.version_key(k),
                Mode::RequirementPicker => (a.requirement_key(k), RequestView::Nothing),
                Mode::Status => match k.code {
                    KeyCode::Char('q') | KeyCode::Esc | KeyCode::Char('S') | KeyCode::Enter
                    | KeyCode::Char(' ') => (a.in_mode(Mode::Browse), RequestView::Nothing),
                    _ => (a, RequestView::Nothing),
                },
                Mode::Profiles => a.profiles_key(k, self.confirm_delete),
                Mode::NameInput => a.name_key(k),
            }
        }
    }
}

/// The row above the selected one.
fn up(sel: Option<usize>) -> (r: Option<usize>)
    ensures
        r == row_above(sel),
{
    match sel {
        Some(i) => if i > 0 {
            Some(i - 1)
        } else {
            Some(0)
        },
        None => Some(0),
    }
}

/// The row below the selected one in a list of `n` rows.
fn down(sel: Option<usize>, n: usize) -> (r: Option<usize>)
    ensures
        r == row_below(sel, n as nat),
{
    if n == 0 {
        return sel;
    }
    let i: usize = match sel {
        Some(i) => i,
        None => 0,
    };
    if i < n - 1 {
        Some(i + 1)
    } else {
        Some(n - 1)
    }
}

impl App {
    fn on_browse_key(&mut self, k: KeyPress, confirmed: bool) -> (r: Request)
        requires
            old(self)@.fits(),
        ensures
            (final(self)@, r@) == old(self)@.browse_key(k, confirmed),
    {
        match k.code {
            KeyCode::Char('q') | KeyCode::Esc => {
                if !self.dirty || confirmed {
                    return Request::Quit;
                }
                self.confirm_quit = true;
                self.status =
                "Unsaved changes — press q again to discard them, or s to save".to_owned();
            },
            KeyCode::Tab | KeyCode::BackTab | KeyCode::Left | KeyCode::Right | KeyCode::Char('h')
            | KeyCode::Char('l') => self.switch_pane(),
            KeyCode::Char('K') => self.move_slot(-1),
            KeyCode::Char('J') => self.move_slot(1),
            KeyCode::Up => if k.shift {
                self.move_slot(-1)
            } else {
                self.move_selection(-1)
            },
            KeyCode::Down => if k.shift {
                self.move_slot(1)
            } else {
                self.move_selection(1)
            },
            KeyCode::Char('k') => self.move_selection(-1),
            KeyCode::Char('j') => self.move_selection(1),
            KeyCode::Home | KeyCode::Char('g') => self.select_edge(false),
            KeyCode::End | KeyCode::Char('G') => self.select_edge(true),
            KeyCode::Char(' ') | KeyCode::Enter => match self.focus {
                Pane::Available => self.add_selected(),
                Pane::Profile => self.toggle_enabled(),
            },
            KeyCode::Char('x') | KeyCode::Delete | KeyCode::Backspace => {
                if self.focus == Pane::Profile {
                    self.remove_selected();
                }
            },
            KeyCode::Char('R') => self.open_requirement_picker(),
            KeyCode::Char('p') => {
                self.mode = Mode::Profiles;
                return Request::ListProfiles;
            },
            KeyCode::Char('s') => {
                return match self.save() {
                    Some(n) => Request::Save(n),
                    None => Request::Nothing,
                };
            },
            KeyCode::Char('S') => {
                self.mode = Mode::Status;
                return Request::GatherStatus;
            },
            KeyCode::Char('v') => {
                match self.version_item() {
                    Some(sid) => {
                        return Request::ListVersions(sid);
                    },
                    None => {
                        let none: Vec<StoredVersion> = Vec::new();
                        self.open_version_picker(&none);
                    },
                }
            },
            KeyCode::Char('U') => {
                let stores = self.update_all();
                return Request::Store(stores);
            },
            KeyCode::Char('o') => {
                return Request::ToggleDataView;
            },
            KeyCode::Char('L') => {
                return Request::Launch;
            },
            KeyCode::Char('?') => {
                self.mode = Mode::Help;
            },
            _ => {},
        }
        Request::Nothing
    }

    fn on_version_key(&mut self, k: KeyPress) -> (r: Request)
        requires
            old(self)@.fits(),
        ensures
            (final(self)@, r@) == old(self)@.version_key(k),
    {
        match k.code {
            KeyCode::Char('q') | KeyCode::Esc | KeyCode::Char('v') => {
                self.mode = Mode::Browse;
            },
            KeyCode::Up | KeyCode::Char('k') => {
                self.version_sel = up(self.version_sel);
            },
            KeyCode::Down | KeyCode::Char('j') => {
                self.version_sel = down(self.version_sel, self.versions.len());
            },
            KeyCode::Enter | KeyCode::Char(' ') => {
                let mut stores: Vec<StoreRequest> = Vec::new();
                match self.pick_version() {
                    Some(q) => {
                        stores.push(q);
                        assert(store_views(stores@) =~= seq![q@]);
                    },
                    None => {
                        assert(store_views(stores@) =~= Seq::<StoreView>::empty());
                    },
                }
                return Request::Store(stores);
            },
            _ => {},
        }
        Request::Nothing
    }

    fn on_requirement_key(&mut self, k: KeyPress)
        requires
            old(self)@.fits(),
        ensures
            final(self)@ == old(self)@.requirement_key(k),
    {
        match k.code {
            KeyCode::Char('q') | KeyCode::Esc | KeyCode::Enter | KeyCode::Char('R') => {
                self.req_slot = None;
                self.mode = Mode::Browse;
            },
            KeyCode::Up | KeyCode::Char('k') => {
                self.req_sel = up(self.req_sel);
            },
            KeyCode::Down | KeyCode::Char('j') => {
                let c = self.req_candidates();
                assert(ints(c@).len() == c@.len());
                self.req_sel = down(self.req_sel, c.len());
            },
            KeyCode::Char(' ') => self.toggle_requirement(),
            _ => {},
        }
    }

    fn move_and_write(&mut self, delta: isize) -> (r: Request)
        ensures
            (final(self)@, r@) == old(self)@.profile_moved_and_written(delta as int),
    {
        match self.move_profile(delta) {
            Some(text) => Request::WriteOrder(text),
            None => Request::Nothing,
        }
    }

    fn on_profiles_key(&mut self, k: KeyPress, confirmed: bool) -> (r: Request)
        ensures
            (final(self)@, r@) == old(self)@.profiles_key(k, confirmed),
    {
        match k.code {
            KeyCode::Char('q') | KeyCode::Esc | KeyCode::Char('p') => {
                self.mode = Mode::Browse;
            },
            KeyCode::Char('K') => {
                return self.move_and_write(-1);
            },
            KeyCode::Char('J') => {
                return self.move_and_write(1);
            },
            KeyCode::Up => {
                if k.shift {
                    return self.move_and_write(-1);
                }
                self.profile_sel = up(self.profile_sel);
            },
            KeyCode::Down => {
                if k.shift {
                    return self.move_and_write(1);
                }
                self.profile_sel = down(self.profile_sel, self.profiles.len());
            },
            KeyCode::Char('k') => {
                self.profile_sel = up(self.profile_sel);
            },
            KeyCode::Char('j') => {
                self.profile_sel = down(self.profile_sel, self.profiles.len());
            },
            KeyCode::Enter => {
                match self.selected_profile() {
                    Some(n) => {
                        self.mode = Mode::Browse;
                        return Request::Apply(n);
                    },
                    None => {},
                }
            },
            KeyCode::Char('n') => {
                self.input = String::new();
                assert(self.input@ =~= Seq::<char>::empty());
                self.rename_from = None;
                self.mode = Mode::NameInput;
            },
            KeyCode::Char('r') => {
                match self.selected_profile() {
                    Some(n) => {
                        self.rename_from = Some(n.clone());
                        self.input = n;
                        self.mode = Mode::NameInput;
                    },
                    None => {},
                }
            },
            KeyCode::Char('e') => {
                match self.selected_profile() {
                    Some(n) => {
                        return Request::Export(n);
                    },
                    None => {},
                }
            },
            KeyCode::Char('d') => {
                match self.selected_profile() {
                    Some(n) => {
                        if confirmed {
                            return Request::Delete(n);
                        }
                        self.confirm_delete = true;
                        self.status = "Press d again to delete profile '".to_owned().concat(
                            n.as_str(),
                        ).concat("'");
                    },
                    None => {},
                }
            },
            _ => {},
        }
        Request::Nothing
    }

    fn on_name_key(&mut self, k: KeyPress) -> (r: Request)
        ensures
            (final(self)@, r@) == old(self)@.name_key(k),
    {
        match k.code {
            KeyCode::Esc => {
                self.rename_from = None;
                self.mode = Mode::Profiles;
            },
            KeyCode::Enter => {
                let name = trim(self.input.as_str());
                if !valid_profile_name(name.as_str()) {
                    self.status = "Profile names: letters, digits, space, - _ . only".to_owned();
                    return Request::Nothing;
                }
                let from = match &self.rename_from {
                    Some(f) => Some(f.clone()),
                    None => None,
                };
                self.rename_from = None;
                self.mode = Mode::Profiles;
                return match from {
                    Some(f) => Request::Rename(f, name),
                    None => Request::SaveProfile(name),
                };
            },
            KeyCode::Backspace => {
                let v = to_chars(self.input.as_str());
                if v.len() > 0 {
                    self.input = from_chars(&v, 0, v.len() - 1);
                    assert(self.input@ =~= v@.drop_last());
                }
            },
            KeyCode::Char(c) => {
                if self.input.as_str().as_bytes().len() < NAME_BYTES {
                    self.input.push(c);
                }
            },
            _ => {},
        }
        Request::Nothing
    }

    /// Do what a key does. What is left to be done outside is returned.
    pub fn handle_key(&mut self, k: KeyPress) -> (r: Request)
        requires
            old(self)@.fits(),
        ensures
            (final(self)@, r@) == old(self)@.key_step(k),
            final(self)@.fits(),
    {
        let n: usize = self.pool.len();
        proof {
            assert(self@.pool.len() == n);
            keys_keep_the_state_fitting(self@, k);
        }
        if k.code == KeyCode::Char('c') && k.control {
            return Request::Quit;
        }
        let confirm_quit = self.confirm_quit;
        let confirm_delete = self.confirm_delete;
        self.confirm_quit = false;
        self.confirm_delete = false;
        self.status = String::new();
        assert(self.status@ =~= Seq::<char>::empty());
        match self.mode {
            Mode::Browse => self.on_browse_key(k, confirm_quit),
            Mode::Help => {
                self.mode = Mode::Browse;
                Request::Nothing
            },
            Mode::VersionPicker => self.on_version_key(k),
            Mode::RequirementPicker => {
                self.on_requirement_key(k);
                Request::Nothing
            },
            Mode::Status => {
                match k.code {
                    KeyCode::Char('q') | KeyCode::Esc | KeyCode::Char('S') | KeyCode::Enter
                    | KeyCode::Char(' ') => {
                        self.mode = Mode::Browse;
                    },
                    _ => {},
                }
                Request::Nothing
            },
            Mode::Profiles => self.on_profiles_key(k, confirm_delete),
            Mode::NameInput => self.on_name_key(k),
        }
    }
}

} // verus!
