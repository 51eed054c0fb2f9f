use twwh3_mods::app::App;
use twwh3_mods::model::{ModEntry, Slot};
use twwh3_mods::profiles::{in_order, profile_names, read_modlist, ModlistError};
use twwh3_mods::session::{current_name, rename_step, taken_message, RenameStep};
use twwh3_mods::steam::{read_moddata_meta, WsInfo};
use twwh3_mods::strmap::StrMap;

fn entry(id: &str, name: &str, local: bool) -> ModEntry {
    ModEntry {
        dir: format!("/mods/{id}"),
        id: id.to_string(),
        name: name.to_string(),
        packs: vec![format!("/mods/{id}/{name}.pack")],
        size: None,
        steam_id: if local { None } else { Some(id.to_string()) },
        png: None,
        local,
        category: String::new(),
        short: String::new(),
        missing: false,
    }
}

fn state(current: Option<(&str, &str)>) -> App {
    let pool = vec![entry("100001", "Alpha", false), entry("100002", "Beta", false), entry("Gamma", "Gamma", true)];
    let mut ws: StrMap<WsInfo> = StrMap::new();
    ws.insert("100001".to_string(), WsInfo { size: 11, timeupdated: 22, manifest: "m1".to_string() });
    ws.insert("100002".to_string(), WsInfo { size: 0, timeupdated: 0, manifest: String::new() });
    let current = current.map(|(n, t)| (n.to_string(), Some(t.to_string())));
    App::load("/moddata".to_string(), pool, &read_moddata_meta(None), ws, Some("15".to_string()), current)
}

const PROFILE: &str = r#"{
  "game_buildid": "14",
  "mods": [
    {"id": "100001", "steam_id": "100001", "manifest": "m0", "sha256": "aa", "requires": ["Gamma", 5]},
    {"id": "gone", "manifest": "mg", "active": false},
    {"id": "GAMMA", "local": true},
    {"name": "nothing"}
  ]
}"#;

#[test]
fn profiles_are_read_with_defaults() {
    let v = read_modlist(Some(PROFILE)).ok().unwrap();
    assert_eq!(v.len(), 3);
    assert_eq!((v[0].id.as_str(), v[0].local, v[0].enabled), ("100001", false, true));
    assert_eq!(v[0].requires, vec!["Gamma"]);
    assert_eq!(v[0].manifest.as_deref(), Some("m0"));
    assert_eq!(v[0].sha256.as_deref(), Some("aa"));
    assert_eq!((v[1].id.as_str(), v[1].local, v[1].enabled), ("gone", true, false));
    assert!(v[2].local);
}

#[test]
fn unreadable_profiles_say_why() {
    assert!(matches!(read_modlist(None), Err(ModlistError::Unreadable)));
    assert!(matches!(read_modlist(Some("{")), Err(ModlistError::NotJson(_))));
    assert!(matches!(read_modlist(Some("{}")), Err(ModlistError::NoMods)));
    assert_eq!(ModlistError::Unreadable.message("/p"), "could not read /p");
    let broken = read_modlist(Some("{")).err().unwrap();
    assert_eq!(broken.message("/p"), "could not parse /p");
    assert_eq!(broken.cause().as_deref(), Some("EOF while parsing an object at line 1 column 1"));
    assert_eq!(ModlistError::NoMods.cause(), None);
    assert_eq!(ModlistError::NoMods.message("/p"), "profile has no \"mods\" array");
}

#[test]
fn the_current_profile_is_loaded_with_its_drift() {
    let a = state(Some(("main", PROFILE)));
    let ids: Vec<&str> = a.slots.iter().map(|s| s.id.as_str()).collect();
    assert_eq!(ids, vec!["100001", "gone", "GAMMA"]);
    let idx: Vec<Option<usize>> = a.slots.iter().map(|s| s.idx).collect();
    assert_eq!(idx, vec![Some(0), None, Some(2)]);
    assert_eq!(a.pins.get("100001").unwrap(), "m0");
    assert_eq!(a.pinned_buildid.as_deref(), Some("14"));
    assert_eq!(
        a.status,
        "Since 'main' was saved: 1 mods updated by Steam; game updated (build 14 → 15) — staying on pinned versions; v to pick, U to update all"
    );
    assert_eq!(current_name(Some(" main\n")), Some("main".to_string()));
    assert_eq!(current_name(Some("\n")), None);
    assert_eq!(current_name(None), None);
}

#[test]
fn a_saved_profile_reads_back_in_order() {
    let mut a = state(Some(("main", PROFILE)));
    a.slots[0].requires = vec!["Gamma".to_string()];
    let text = a.write_modlist(&vec![Some("hash".to_string()), None, None], 99);
    let v = read_modlist(Some(&text)).ok().unwrap();
    assert_eq!(v.len(), 3);
    assert_eq!((v[0].id.as_str(), v[0].enabled, v[0].local), ("100001", true, false));
    assert_eq!(v[0].requires, vec!["Gamma"]);
    assert_eq!(v[0].steam_id.as_deref(), Some("100001"));
    assert_eq!(v[0].sha256.as_deref(), Some("hash"));
    assert_eq!((v[1].id.as_str(), v[1].enabled), ("gone", false));
    assert_eq!((v[2].id.as_str(), v[2].local), ("GAMMA", true));
    assert!(text.contains("\"saved_at\": 99"));
    assert!(text.contains("\"game_buildid\": \"15\""));
    let before: Vec<(String, Option<usize>, bool)> =
        a.slots.iter().map(|s| (s.id.clone(), s.idx, s.enabled)).collect();
    assert!(a.apply_profile("main", Some(&text)).is_ok());
    let after: Vec<(String, Option<usize>, bool)> =
        a.slots.iter().map(|s| (s.id.clone(), s.idx, s.enabled)).collect();
    assert_eq!(before, after);
}

#[test]
fn pins_stay_when_a_profile_is_saved() {
    let mut a = state(Some(("main", PROFILE)));
    a.slots.push(Slot { id: "100002".to_string(), idx: Some(1), enabled: true, requires: vec![] });
    let text = a.write_modlist(&vec![None, None, None, None], 1);
    a.load_pins(Some(&text));
    assert_eq!(a.pins.get("100001").unwrap(), "m0");
    assert_eq!(a.pins.get("gone").unwrap(), "mg");
    assert!(a.pins.get("100002").is_none());
    assert!(a.pins.get("GAMMA").is_none());
}

#[test]
fn a_new_mod_is_pinned_to_what_is_installed_and_stored() {
    let mut a = state(None);
    a.slots.push(Slot { id: "100001".to_string(), idx: Some(0), enabled: true, requires: vec![] });
    let plan = a.plan_modlist("/v");
    let q = plan[0].store.as_ref().unwrap();
    assert_eq!((q.sid.as_str(), q.manifest.as_str(), q.dir.as_str()), ("100001", "m1", "/mods/100001"));
    assert_eq!((q.timeupdated, q.size), (22, 11));
    assert_eq!(plan[0].pack.as_deref(), Some("/v/100001/m1/Alpha.pack"));
    let text = a.write_modlist(&vec![None], 1);
    assert!(text.contains("\"manifest\": \"m1\""));
    assert!(text.contains("\"timeupdated\": 22"));
    assert!(text.contains("\"size\": 11"));
    a.pins.insert("100001".to_string(), "m0".to_string());
    let plan = a.plan_modlist("/v");
    assert!(plan[0].store.is_none());
    assert_eq!(plan[0].pack.as_deref(), Some("/v/100001/m0/Alpha.pack"));
    assert!(!a.write_modlist(&vec![None], 1).contains("timeupdated"));
}

#[test]
fn applying_reports_what_is_missing() {
    let mut a = state(None);
    a.dirty = true;
    assert!(a.apply_profile("p", Some(PROFILE)).is_ok());
    assert!(!a.dirty);
    assert_eq!(a.current_profile.as_deref(), Some("p"));
    assert_eq!(a.prof_sel, Some(0));
    assert_eq!(
        a.status,
        "Switched to profile 'p': 3 mods — 1 missing (kept in profile, not enabled); Since 'p' was saved: 1 mods updated by Steam; game updated (build 14 → 15) — staying on pinned versions; v to pick, U to update all"
    );
    assert!(matches!(a.apply_profile("q", Some("{}")), Err(ModlistError::NoMods)));
    assert_eq!(a.current_profile.as_deref(), Some("p"));
    assert!(a.apply_profile("r", Some(r#"{"mods": []}"#)).is_ok());
    assert_eq!(a.status, "Switched to profile 'r': 0 mods");
    assert_eq!(a.prof_sel, None);
}

#[test]
fn saving_is_told() {
    let mut a = state(Some(("main", PROFILE)));
    assert_eq!(a.save(), Some("main".to_string()));
    a.dirty = true;
    a.save_done("main", Ok((PROFILE.to_string(), 2)));
    assert_eq!(a.status, "Saved 'main': 2 mods, 2 pack versions stored");
    assert!(!a.dirty);
    a.save_done("main", Ok((r#"{"mods": [{"id": "a", "manifest": "x"}]}"#.to_string(), 0)));
    assert_eq!(a.status, "Saved 'main': 2 mods");
    assert_eq!(a.pins.get("a").unwrap(), "x");
    assert!(a.pins.get("100001").is_none());
    a.save_done("main", Err("disk full".to_string()));
    assert_eq!(a.status, "Saving 'main' failed: disk full");
    a.save_profile("new", PROFILE, 0);
    assert_eq!(a.current_profile.as_deref(), Some("new"));
    assert_eq!(a.pins.get("100001").unwrap(), "m0");
    assert_eq!(a.status, "Saved profile 'new' (3 mods)");
    a.save_profile("new", PROFILE, 1);
    assert_eq!(a.status, "Saved profile 'new' (3 mods, 1 pack versions vaulted)");
    a.modlist_written("other", r#"{"mods": []}"#);
    assert!(a.pins.get("100001").is_some());
    a.modlist_written("new", r#"{"mods": []}"#);
    assert!(a.pins.get("100001").is_none());
}

#[test]
fn profiles_are_deleted_and_renamed() {
    let mut a = state(Some(("main", PROFILE)));
    a.rename_profile("main", "best");
    assert_eq!(a.current_profile.as_deref(), Some("best"));
    assert_eq!(a.status, "Renamed profile 'main' → 'best'");
    a.delete_profile("other");
    assert_eq!(a.current_profile.as_deref(), Some("best"));
    a.delete_profile("best");
    assert_eq!(a.current_profile, None);
    assert_eq!(a.status, "Deleted profile 'best'");
    assert!(matches!(rename_step("a", "a", true), RenameStep::Nothing));
    assert!(matches!(rename_step("a", "b", true), RenameStep::Taken));
    assert!(matches!(rename_step("a", "b", false), RenameStep::Rename));
    assert_eq!(taken_message("b"), "a profile named 'b' already exists");
}

#[test]
fn profiles_are_listed_in_the_saved_order() {
    let paths: Vec<String> = ["/m/b.json", "/m/.order", "/m/c.JSON", "/m/a.json", "/m/d.json"]
        .iter()
        .map(|s| s.to_string())
        .collect();
    assert_eq!(profile_names(&paths), vec!["a", "b", "d"]);
    let order = in_order(profile_names(&paths), " d \nzzz\nb\nd\n");
    assert_eq!(order, vec!["d", "b", "a"]);
    let mut a = state(None);
    a.profile_sel = Some(9);
    a.refresh_profiles(&paths, "d");
    assert_eq!(a.profiles, vec!["d", "a", "b"]);
    assert_eq!(a.profile_sel, Some(2));
    assert_eq!(a.selected_profile().as_deref(), Some("b"));
    a.select_profile("a");
    assert_eq!(a.profile_sel, Some(1));
    a.refresh_profiles(&vec![], "");
    assert_eq!(a.profile_sel, None);
}

#[test]
fn the_preview_resolves_names() {
    let mut a = state(None);
    a.refresh_profiles(&vec!["/m/main.json".to_string()], "");
    assert_eq!(a.preview_wanted().as_deref(), Some("main"));
    a.refresh_preview(Some(PROFILE));
    assert_eq!(a.preview_for.as_deref(), Some("main"));
    assert!(a.preview_wanted().is_none());
    let rows: Vec<(&str, bool, bool)> =
        a.preview.iter().map(|l| (l.label.as_str(), l.missing, l.updated)).collect();
    assert_eq!(rows, vec![("Alpha", false, true), ("gone", true, false), ("Gamma", false, false)]);
    assert_eq!(a.preview_title(), " Mods in profile (3, 1 missing) ");
    let lines: Vec<String> = a.preview_lines().into_iter().map(|l| l.text).collect();
    assert_eq!(lines, vec!["  1 Alpha (updated)", "  2 gone (missing)", "  3 Gamma"]);
}
