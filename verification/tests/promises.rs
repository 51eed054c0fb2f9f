use twwh3_mods::app::{App, Pane};
use twwh3_mods::keys::{KeyCode, KeyPress, Request};
use twwh3_mods::model::{FoundFile, ModEntry};
use twwh3_mods::profiles::read_modlist;
use twwh3_mods::session::current_name;
use twwh3_mods::steam::{parse_workshop_acf, read_moddata_meta, WsInfo};
use twwh3_mods::store::{
    find_stored_pack, read_version_meta, recorded_sha256, store_mod_version, write_version_meta, PackHash,
};
use twwh3_mods::strmap::StrMap;

fn entry(id: &str, name: &str) -> ModEntry {
    ModEntry {
        dir: format!("/mods/{id}"),
        id: id.to_string(),
        name: name.to_string(),
        packs: vec![format!("/mods/{id}/{name}.pack")],
        size: None,
        steam_id: Some(id.to_string()),
        png: None,
        local: false,
        category: String::new(),
        short: String::new(),
        missing: false,
    }
}

fn state() -> App {
    let pool = vec![entry("100001", "Alpha"), entry("100002", "Beta"), entry("100003", "Gamma")];
    let mut ws: StrMap<WsInfo> = StrMap::new();
    for (id, m) in [("100001", "a1"), ("100002", "b1"), ("100003", "c1")] {
        ws.insert(id.to_string(), WsInfo { size: 1, timeupdated: 2, manifest: m.to_string() });
    }
    App::load("/m".to_string(), pool, &read_moddata_meta(None), ws, None, None)
}

fn press(a: &mut App, code: KeyCode) -> Request {
    a.handle_key(KeyPress { code, shift: false, control: false })
}

#[test]
fn any_load_order_made_with_keys_is_saved_and_applied_again() {
    let mut a = state();
    for _ in 0..3 {
        press(&mut a, KeyCode::Char(' '));
    }
    press(&mut a, KeyCode::Tab);
    press(&mut a, KeyCode::Char('J'));
    press(&mut a, KeyCode::Char(' '));
    press(&mut a, KeyCode::Char('R'));
    press(&mut a, KeyCode::Char(' '));
    press(&mut a, KeyCode::Esc);
    let before: Vec<(String, Option<usize>, bool, Vec<String>)> =
        a.slots.iter().map(|s| (s.id.clone(), s.idx, s.enabled, s.requires.clone())).collect();
    assert_eq!(before[1], ("100001".to_string(), Some(0), false, vec!["100002".to_string()]));
    let text = a.write_modlist(&vec![None, None, None], 5);
    assert!(a.apply_profile("p", Some(&text)).is_ok());
    let after: Vec<(String, Option<usize>, bool, Vec<String>)> =
        a.slots.iter().map(|s| (s.id.clone(), s.idx, s.enabled, s.requires.clone())).collect();
    assert_eq!(before, after);
}

#[test]
fn saving_moves_pins_only_for_new_mods() {
    let mut a = state();
    press(&mut a, KeyCode::Char(' '));
    press(&mut a, KeyCode::Char(' '));
    a.current_profile = Some("p".to_string());
    a.pins.insert("100001".to_string(), "a0".to_string());
    let text = a.write_modlist(&vec![None, None], 5);
    a.save_done("p", Ok((text.clone(), 0)));
    assert_eq!(a.pins.get("100001").unwrap(), "a0");
    assert_eq!(a.pins.get("100002").unwrap(), "b1");
    let manifests: Vec<Option<String>> =
        read_modlist(Some(&text)).ok().unwrap().into_iter().map(|e| e.manifest).collect();
    assert_eq!(manifests, vec![Some("a0".to_string()), Some("b1".to_string())]);
}

#[test]
fn the_order_of_the_profiles_is_kept() {
    let mut a = state();
    let paths = vec!["/m/c.json".to_string(), "/m/a.json".to_string(), "/m/b b.json".to_string()];
    a.refresh_profiles(&paths, "");
    assert_eq!(a.profiles, vec!["a", "b b", "c"]);
    a.profile_sel = Some(2);
    let order = a.move_profile(-1).unwrap();
    assert_eq!(order, "a\nc\nb b");
    let mut later = state();
    later.refresh_profiles(&paths, &order);
    assert_eq!(later.profiles, a.profiles);
    assert_eq!(current_name(Some("b b")).as_deref(), Some("b b"));
}

#[test]
fn recorded_hashes_are_read_back() {
    let hash = PackHash::new().pack_sha256();
    assert_eq!(hash.len(), 64);
    assert_eq!(recorded_sha256(Some(&hash)), Some(hash.clone()));
    assert_eq!(recorded_sha256(Some(&format!("{hash}\n"))), Some(hash));
    assert_eq!(recorded_sha256(Some(" \n")), None);
}

#[test]
fn unfinished_copies_are_not_stored_packs() {
    let files = vec![FoundFile { rel: "sub/a.pack".to_string(), abs: "/w/sub/a.pack".to_string(), size: None }];
    let steps = store_mod_version("/v", "1", "m", &files, &vec![false]);
    assert_eq!(steps[0].dst, "/v/1/m/sub/a.pack");
    assert_eq!(steps[0].tmp, "/v/1/m/sub/.a.pack.tmp");
    assert!(steps[0].is_pack);
    assert_eq!(find_stored_pack(&vec![steps[0].tmp.clone()]), None);
    assert_eq!(find_stored_pack(&vec![steps[0].tmp.clone(), steps[0].dst.clone()]), Some(steps[0].dst.clone()));
    assert!(store_mod_version("/v", "1", "m", &files, &vec![true]).is_empty());
    assert!(store_mod_version("/v", "1", "", &files, &vec![false]).is_empty());
}

#[test]
fn records_of_versions_are_kept() {
    let text = write_version_meta(true, false, "m", 7, 8, 9).unwrap();
    assert_eq!(read_version_meta(Some(&text)), (7, 8));
    assert!(write_version_meta(true, true, "m", 0, 8, 9).is_none());
    assert!(write_version_meta(true, true, "m", 7, 8, 9).is_some());
    assert!(write_version_meta(false, false, "m", 7, 8, 9).is_none());
}

#[test]
fn a_second_block_leaves_known_fields() {
    let acf = "\"100001\"\n{\n\"size\" \"10\"\n\"manifest\" \"m1\"\n}\n\"100001\"\n{\n\"manifest\" \"m2\"\n\"timeupdated\" \"3\"\n}\n";
    let m = parse_workshop_acf(acf);
    let w = m.get("100001").unwrap();
    assert_eq!((w.size, w.timeupdated, w.manifest.as_str()), (10, 3, "m2"));
}

#[test]
fn the_state_answers_every_key() {
    let mut a = state();
    let keys = ['j', 'k', 'g', 'G', ' ', 'l', 'J', 'K', 'x', 'R', ' ', 'q', 'v', 'S', 'q', 'U', 'p', 'n', 'a', '?'];
    for c in keys.iter().cycle().take(200) {
        press(&mut a, KeyCode::Char(*c));
        let n = a.pool.len();
        assert!(a.slots.iter().all(|s| s.idx.is_none_or(|i| i < n)));
    }
    assert!(matches!(a.focus, Pane::Available | Pane::Profile));
}
