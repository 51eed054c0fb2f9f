use twwh3_mods::app::{valid_profile_name, App, Mode, Pane};
use twwh3_mods::keys::{KeyCode, KeyPress, Request};
use twwh3_mods::model::{ModEntry, Slot};
use twwh3_mods::steam::WsInfo;
use twwh3_mods::strmap::StrMap;
use twwh3_mods::versions::StoredVersion;

fn workshop(id: &str, name: &str) -> ModEntry {
    ModEntry {
        dir: format!("/ws/{id}"),
        id: id.to_string(),
        name: name.to_string(),
        packs: vec![format!("/ws/{id}/{name}.pack")],
        size: Some(2048),
        steam_id: Some(id.to_string()),
        png: None,
        local: false,
        category: String::new(),
        short: String::new(),
        missing: false,
    }
}

fn local(name: &str) -> ModEntry {
    ModEntry {
        dir: format!("/local/{name}"),
        id: name.to_string(),
        name: name.to_string(),
        packs: vec![format!("/local/{name}/{name}.pack")],
        size: None,
        steam_id: None,
        png: None,
        local: true,
        category: String::new(),
        short: String::new(),
        missing: false,
    }
}

fn info(manifest: &str, time: u64) -> WsInfo {
    WsInfo { size: 2048, timeupdated: time, manifest: manifest.to_string() }
}

/// Pool: 0 Alpha (100001), 1 beta (100002), 2 Gamma (local), 3 Delta (100003).
fn app() -> App {
    let pool = vec![
        workshop("100001", "Alpha"),
        workshop("100002", "beta"),
        local("Gamma"),
        workshop("100003", "Delta"),
    ];
    let mut ws: StrMap<WsInfo> = StrMap::new();
    ws.insert("100001".to_string(), info("m1", 1_700_000_000));
    ws.insert("100002".to_string(), info("m2", 1_600_000_000));
    let meta = twwh3_mods::steam::read_moddata_meta(None);
    App::load("/moddata".to_string(), pool, &meta, ws, Some("15".to_string()), None)
}

fn slot(app: &App, i: usize) -> Slot {
    Slot { id: app.pool[i].id.clone(), idx: Some(i), enabled: true, requires: Vec::new() }
}

fn with_slots(idx: &[usize]) -> App {
    let mut a = app();
    for &i in idx {
        let s = slot(&a, i);
        a.slots.push(s);
    }
    a.focus = Pane::Profile;
    a.prof_sel = if idx.is_empty() { None } else { Some(0) };
    a
}

fn press(a: &mut App, code: KeyCode) -> Request {
    a.handle_key(KeyPress { code, shift: false, control: false })
}

fn ids(a: &App) -> Vec<String> {
    a.slots.iter().map(|s| s.id.clone()).collect()
}

fn names(a: &App) -> Vec<String> {
    a.available().iter().map(|&i| a.pool[i].name.clone()).collect()
}

#[test]
fn a_fresh_state_shows_the_available_mods() {
    let a = app();
    assert!(a.slots.is_empty());
    assert!(matches!(a.focus, Pane::Available));
    assert_eq!(a.avail_sel, Some(0));
    assert_eq!(a.prof_sel, None);
    assert_eq!(names(&a), vec!["Alpha", "beta", "Delta", "Gamma"]);
}

#[test]
fn the_launcher_seeds_the_first_load_order() {
    let text = r#"[
     {"game": "warhammer3", "uuid": "BETA.pack", "active": true, "order": 2},
     {"game": "warhammer3", "uuid": "gamma.pack", "active": true, "order": 1},
     {"game": "warhammer3", "uuid": "alpha.pack", "active": false, "order": 0},
     {"game": "warhammer3", "uuid": "nowhere.pack", "active": true, "order": 0}
    ]"#;
    let meta = twwh3_mods::steam::read_moddata_meta(Some(text));
    let base = app();
    let a = App::load("/m".to_string(), base.pool, &meta, StrMap::new(), None, None);
    assert_eq!(ids(&a), vec!["Gamma", "100002"]);
    assert!(a.slots.iter().all(|s| s.enabled));
    assert!(matches!(a.focus, Pane::Profile));
    assert_eq!(a.prof_sel, Some(0));
    assert_eq!(names(&a), vec!["Alpha", "Delta"]);
}

#[test]
fn adding_moves_a_mod_to_the_end_of_the_load_order() {
    let mut a = app();
    a.avail_sel = Some(3);
    a.add_selected();
    assert_eq!(ids(&a), vec!["Gamma"]);
    assert!(a.dirty);
    assert_eq!(a.avail_sel, Some(2));
    assert_eq!(a.prof_sel, Some(0));
    assert_eq!(names(&a), vec!["Alpha", "beta", "Delta"]);
    a.avail_sel = Some(9);
    a.add_selected();
    assert_eq!(a.slots.len(), 1);
}

#[test]
fn missing_mods_are_not_available() {
    let mut a = app();
    a.pool[0].missing = true;
    assert_eq!(names(&a), vec!["beta", "Delta", "Gamma"]);
}

#[test]
fn removing_selects_a_neighbour() {
    let mut a = with_slots(&[0, 1, 2]);
    a.prof_sel = Some(2);
    a.avail_sel = None;
    a.remove_selected();
    assert_eq!(ids(&a), vec!["100001", "100002"]);
    assert_eq!(a.prof_sel, Some(1));
    assert_eq!(a.avail_sel, Some(0));
    a.remove_selected();
    a.remove_selected();
    assert_eq!(a.prof_sel, None);
}

#[test]
fn toggling_a_slot_twice_changes_nothing_else() {
    let mut a = with_slots(&[0, 1]);
    a.toggle_enabled();
    assert!(!a.slots[0].enabled);
    assert_eq!(a.status, "Disabled 'Alpha' (kept in the load order)");
    assert_eq!(ids(&a), vec!["100001", "100002"]);
    a.toggle_enabled();
    assert!(a.slots[0].enabled);
    assert_eq!(a.status, "Enabled 'Alpha'");
}

#[test]
fn slots_move_and_move_back() {
    let mut a = with_slots(&[0, 1, 2]);
    a.move_slot(1);
    assert_eq!(ids(&a), vec!["100002", "100001", "Gamma"]);
    assert_eq!(a.prof_sel, Some(1));
    a.move_slot(-1);
    assert_eq!(ids(&a), vec!["100001", "100002", "Gamma"]);
    a.dirty = false;
    a.move_slot(-1);
    assert!(!a.dirty);
    a.focus = Pane::Available;
    a.move_slot(1);
    assert_eq!(ids(&a), vec!["100001", "100002", "Gamma"]);
}

#[test]
fn the_selection_stays_within_the_pane() {
    let mut a = with_slots(&[0, 1, 2]);
    a.move_selection(5);
    assert_eq!(a.prof_sel, Some(2));
    a.move_selection(-9);
    assert_eq!(a.prof_sel, Some(0));
    a.select_edge(true);
    assert_eq!(a.prof_sel, Some(2));
    a.select_edge(false);
    assert_eq!(a.prof_sel, Some(0));
    a.avail_sel = Some(7);
    a.switch_pane();
    assert!(matches!(a.focus, Pane::Available));
    assert_eq!(a.avail_sel, Some(0));
}

#[test]
fn requirements_are_toggled_and_reported() {
    let mut a = with_slots(&[0, 1, 2]);
    a.open_requirement_picker();
    assert!(matches!(a.mode, Mode::RequirementPicker));
    assert_eq!(a.req_candidates(), vec![1, 2]);
    a.req_sel = Some(1);
    a.toggle_requirement();
    assert_eq!(a.slots[0].requires, vec!["Gamma"]);
    assert!(a.unmet_requirements(&a.slots[0]).is_empty());
    a.slots[2].enabled = false;
    assert_eq!(a.unmet_requirements(&a.slots[0]), vec!["Gamma"]);
    a.slots[2].enabled = true;
    a.pool[2].missing = true;
    assert_eq!(a.unmet_requirements(&a.slots[0]), vec!["Gamma"]);
    a.toggle_requirement();
    assert!(a.slots[0].requires.is_empty());
    a.slots[0].requires = vec!["GAMMA".to_string(), "nowhere".to_string()];
    assert_eq!(a.unmet_requirements(&a.slots[0]), vec!["Gamma", "nowhere"]);
    a.toggle_requirement();
    assert_eq!(a.slots[0].requires, vec!["nowhere"]);
}

#[test]
fn requirements_need_other_mods() {
    let mut a = with_slots(&[0]);
    a.open_requirement_picker();
    assert_eq!(a.status, "Add more mods to the load order first");
    a.focus = Pane::Available;
    a.open_requirement_picker();
    assert_eq!(a.status, "Select a mod in the load order, then R to set what it requires");
}

#[test]
fn updated_mods_are_those_past_their_pin() {
    let mut a = with_slots(&[0, 1, 2]);
    a.pins.insert("100001".to_string(), "old".to_string());
    a.pins.insert("100002".to_string(), "m2".to_string());
    a.pins.insert("Gamma".to_string(), "x".to_string());
    assert!(a.slot_updated(&a.slots[0]));
    assert!(!a.slot_updated(&a.slots[1]));
    assert!(!a.slot_updated(&a.slots[2]));
    let gone = Slot { id: "100001".to_string(), idx: None, enabled: true, requires: vec![] };
    assert!(!a.slot_updated(&gone));
    assert!(a.slot_missing(&gone));
}

#[test]
fn updating_all_moves_pins_to_what_is_installed() {
    let mut a = with_slots(&[0, 1]);
    a.pins.insert("100001".to_string(), "old".to_string());
    a.pins.insert("100002".to_string(), "m2".to_string());
    let stores = a.update_all();
    assert_eq!(stores.len(), 1);
    assert_eq!((stores[0].sid.as_str(), stores[0].manifest.as_str()), ("100001", "m1"));
    assert_eq!((stores[0].dir.as_str(), stores[0].timeupdated), ("/ws/100001", 1_700_000_000));
    assert_eq!(a.pins.get("100001").unwrap(), "m1");
    assert_eq!(a.status, "1 mods set to the current version — press s to save");
    assert!(a.dirty);
    assert!(!a.slots.iter().any(|s| a.slot_updated(s)));
    assert!(a.update_all().is_empty());
    assert_eq!(a.status, "No mods have a newer Workshop version");
}

fn stored(manifest: &str, time: u64) -> StoredVersion {
    StoredVersion { manifest: manifest.to_string(), timeupdated: time, size: 1 }
}

#[test]
fn the_version_picker_lists_newest_first() {
    let mut a = with_slots(&[0]);
    a.pins.insert("100001".to_string(), "old".to_string());
    a.open_version_picker(&vec![stored("old", 5), stored("older", 3), stored("newer", 1_800_000_000)]);
    assert!(matches!(a.mode, Mode::VersionPicker));
    let list: Vec<&str> = a.versions.iter().map(|v| v.manifest.as_str()).collect();
    assert_eq!(list, vec!["newer", "m1", "old", "older"]);
    assert!(a.versions[1].current && !a.versions[1].stored);
    assert_eq!(a.version_sel, Some(2));
    assert_eq!(a.version_mod, Some(0));
}

#[test]
fn the_version_picker_starts_at_the_pin_or_the_installed_version() {
    let mut a = with_slots(&[0]);
    a.open_version_picker(&vec![stored("newer", 1_800_000_000), stored("m1", 7)]);
    assert_eq!(a.version_sel, Some(1));
    assert_eq!(a.versions.len(), 2);
    let mut l = with_slots(&[2]);
    l.open_version_picker(&vec![]);
    assert_eq!(l.status, "Local mods have no Workshop versions");
    let mut n = with_slots(&[3]);
    n.open_version_picker(&vec![]);
    assert_eq!(n.status, "No versions stored for this mod yet (save or launch to store one)");
}

#[test]
fn picking_a_version_pins_it() {
    let mut a = with_slots(&[0]);
    a.open_version_picker(&vec![stored("old", 1_500_000_000)]);
    a.version_sel = Some(1);
    assert!(a.pick_version().is_none());
    assert_eq!(a.pins.get("100001").unwrap(), "old");
    assert_eq!(a.status, "'Alpha' pinned to the 2017-07-14 02:40 version — s to save");
    assert!(a.dirty);
    assert!(matches!(a.mode, Mode::Browse));
    a.open_version_picker(&vec![stored("old", 1_500_000_000)]);
    a.version_sel = Some(0);
    let q = a.pick_version().unwrap();
    assert_eq!(q.manifest, "m1");
    assert_eq!(a.status, "'Alpha' pinned to the current version (2023-11-14 22:13) — s to save");
}

#[test]
fn a_pin_needs_a_mod_in_the_load_order() {
    let mut a = app();
    a.avail_sel = Some(0);
    a.open_version_picker(&vec![stored("old", 5)]);
    assert!(a.pick_version().is_none());
    assert_eq!(a.status, "'Alpha' isn't in the load order — add it first to pin a version");
    assert!(!a.dirty);
    assert!(a.pins.get("100001").is_none());
}

#[test]
fn profile_names_are_plain() {
    for good in ["a", "My mods 2", "x-y_z.w", " padded "] {
        assert!(valid_profile_name(good), "{good:?}");
    }
    for bad in ["", " ", ".", "..", "a/b", "ü", "a\tb", "a:b"] {
        assert!(!valid_profile_name(bad), "{bad:?}");
    }
}

#[test]
fn quitting_with_changes_asks_twice() {
    let mut a = app();
    assert!(matches!(press(&mut a, KeyCode::Char('q')), Request::Quit));
    a.dirty = true;
    assert!(matches!(press(&mut a, KeyCode::Char('q')), Request::Nothing));
    assert_eq!(a.status, "Unsaved changes — press q again to discard them, or s to save");
    assert!(matches!(press(&mut a, KeyCode::Tab), Request::Nothing));
    assert!(!a.confirm_quit);
    assert!(matches!(press(&mut a, KeyCode::Esc), Request::Nothing));
    assert!(matches!(press(&mut a, KeyCode::Esc), Request::Quit));
    a.confirm_quit = false;
    let c = KeyPress { code: KeyCode::Char('c'), shift: false, control: true };
    assert!(matches!(a.handle_key(c), Request::Quit));
}

#[test]
fn keys_do_what_the_help_says() {
    let mut a = with_slots(&[0, 1]);
    press(&mut a, KeyCode::Char('j'));
    assert_eq!(a.prof_sel, Some(1));
    press(&mut a, KeyCode::Char('K'));
    assert_eq!(ids(&a), vec!["100002", "100001"]);
    a.handle_key(KeyPress { code: KeyCode::Down, shift: true, control: false });
    assert_eq!(ids(&a), vec!["100001", "100002"]);
    press(&mut a, KeyCode::Char(' '));
    assert!(!a.slots[1].enabled);
    press(&mut a, KeyCode::Char('x'));
    assert_eq!(ids(&a), vec!["100001"]);
    press(&mut a, KeyCode::Char('l'));
    press(&mut a, KeyCode::Enter);
    assert_eq!(a.slots.len(), 2);
    assert!(matches!(press(&mut a, KeyCode::Char('p')), Request::ListProfiles));
    assert!(matches!(a.mode, Mode::Profiles));
    press(&mut a, KeyCode::Esc);
    assert!(matches!(press(&mut a, KeyCode::Char('S')), Request::GatherStatus));
    press(&mut a, KeyCode::Char(' '));
    assert!(matches!(press(&mut a, KeyCode::Char('o')), Request::ToggleDataView));
    assert!(matches!(press(&mut a, KeyCode::Char('L')), Request::Launch));
    press(&mut a, KeyCode::Char('?'));
    assert!(matches!(a.mode, Mode::Help));
    press(&mut a, KeyCode::Char('z'));
    assert!(matches!(a.mode, Mode::Browse));
    assert!(matches!(press(&mut a, KeyCode::Char('s')), Request::Nothing));
    assert_eq!(a.status, "No profile selected — press p then n to save this load order as one");
    a.current_profile = Some("main".to_string());
    assert!(matches!(press(&mut a, KeyCode::Char('s')), Request::Save(n) if n == "main"));
    a.focus = Pane::Profile;
    a.prof_sel = Some(0);
    assert!(matches!(press(&mut a, KeyCode::Char('v')), Request::ListVersions(s) if s == "100001"));
    assert!(matches!(press(&mut a, KeyCode::Char('U')), Request::Store(v) if v.is_empty()));
}

#[test]
fn picker_keys_choose_and_close() {
    let mut a = with_slots(&[0, 1, 2]);
    press(&mut a, KeyCode::Char('R'));
    press(&mut a, KeyCode::Down);
    press(&mut a, KeyCode::Down);
    assert_eq!(a.req_sel, Some(1));
    press(&mut a, KeyCode::Char(' '));
    assert_eq!(a.slots[0].requires, vec!["Gamma"]);
    press(&mut a, KeyCode::Enter);
    assert!(matches!(a.mode, Mode::Browse));
    assert_eq!(a.req_slot, None);
    a.open_version_picker(&vec![stored("old", 5)]);
    press(&mut a, KeyCode::Down);
    press(&mut a, KeyCode::Down);
    assert_eq!(a.version_sel, Some(1));
    press(&mut a, KeyCode::Up);
    assert_eq!(a.version_sel, Some(0));
    assert!(matches!(press(&mut a, KeyCode::Enter), Request::Store(v) if v.len() == 1));
}

#[test]
fn profile_keys_ask_for_the_right_work() {
    let mut a = app();
    a.mode = Mode::Profiles;
    a.refresh_profiles(&vec!["/m/b.json".to_string(), "/m/a.json".to_string()], "");
    assert!(matches!(press(&mut a, KeyCode::Char('d')), Request::Nothing));
    assert_eq!(a.status, "Press d again to delete profile 'a'");
    assert!(matches!(press(&mut a, KeyCode::Char('d')), Request::Delete(n) if n == "a"));
    assert!(matches!(press(&mut a, KeyCode::Char('e')), Request::Export(n) if n == "a"));
    assert!(matches!(press(&mut a, KeyCode::Char('J')), Request::WriteOrder(t) if t == "b\na"));
    assert!(matches!(press(&mut a, KeyCode::Char('J')), Request::Nothing));
    assert!(matches!(press(&mut a, KeyCode::Enter), Request::Apply(n) if n == "a"));
    assert!(matches!(a.mode, Mode::Browse));
}

#[test]
fn names_are_typed_and_checked() {
    let mut a = app();
    a.mode = Mode::Profiles;
    a.refresh_profiles(&vec!["/m/old.json".to_string()], "");
    press(&mut a, KeyCode::Char('n'));
    for c in "my/".chars() {
        press(&mut a, KeyCode::Char(c));
    }
    assert!(matches!(press(&mut a, KeyCode::Enter), Request::Nothing));
    assert_eq!(a.status, "Profile names: letters, digits, space, - _ . only");
    press(&mut a, KeyCode::Backspace);
    assert!(matches!(press(&mut a, KeyCode::Enter), Request::SaveProfile(n) if n == "my"));
    assert!(matches!(a.mode, Mode::Profiles));
    press(&mut a, KeyCode::Char('r'));
    assert_eq!(a.input, "old");
    press(&mut a, KeyCode::Char('2'));
    assert!(matches!(press(&mut a, KeyCode::Enter), Request::Rename(f, t) if f == "old" && t == "old2"));
    press(&mut a, KeyCode::Char('n'));
    for _ in 0..50 {
        press(&mut a, KeyCode::Char('x'));
    }
    assert_eq!(a.input.len(), 40);
    press(&mut a, KeyCode::Esc);
    assert!(matches!(a.mode, Mode::Profiles));
}
