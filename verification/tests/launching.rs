use twwh3_mods::app::App;
use twwh3_mods::dataview::{DataStep, StepResult};
use twwh3_mods::launch::{
    overlay_is_off, overlay_list, pinned_count, used_mods_list, LaunchOutcome, ResolvedMod, SlotFiles,
};
use twwh3_mods::model::{FoundFile, ModEntry, PackSource, Slot};
use twwh3_mods::overlay::{
    data_of, dir_opener, find_fuse_overlayfs, launch_options_use_shim, lower_dirs, mount_listener_marker,
    mount_request_file, on_path, overlay_mount, overlay_mounted, overlay_status_file, overlay_unmount,
    request_target, unmount_request_file, MountPlan, Opener,
};
use twwh3_mods::paths::{parse_config, Settings};
use twwh3_mods::status::StatusFacts;
use twwh3_mods::steam::{read_moddata_meta, WsInfo};
use twwh3_mods::strmap::StrMap;

fn settings(config: &str) -> Settings {
    let mut env = StrMap::new();
    env.insert("HOME".to_string(), "/home/u".to_string());
    Settings { env, config: parse_config(config) }
}

fn entry(id: &str, name: &str, local: bool, packs: &[&str]) -> ModEntry {
    ModEntry {
        dir: format!("/mods/{id}"),
        id: id.to_string(),
        name: name.to_string(),
        packs: packs.iter().map(|p| format!("/mods/{id}/{p}")).collect(),
        size: None,
        steam_id: if local { None } else { Some(id.to_string()) },
        png: None,
        local,
        category: String::new(),
        short: String::new(),
        missing: false,
    }
}

/// Alpha (100001) is pinned to m0 and installed as m1, Beta (100002) has no
/// manifest, Gamma is local; both Alpha and Gamma carry `shared.pack`.
fn state() -> App {
    let pool = vec![
        entry("100001", "Alpha", false, &["a.pack", "shared.pack"]),
        entry("100002", "Beta", false, &["b.pack"]),
        entry("Gamma", "Gamma", true, &["shared.pack"]),
    ];
    let mut ws: StrMap<WsInfo> = StrMap::new();
    ws.insert("100001".to_string(), WsInfo { size: 11, timeupdated: 22, manifest: "m1".to_string() });
    let mut a = App::load("/home/u/moddata".to_string(), pool, &read_moddata_meta(None), ws, None, None);
    for (i, id) in ["100001", "100002", "Gamma"].iter().enumerate() {
        a.slots.push(Slot { id: id.to_string(), idx: Some(i), enabled: true, requires: vec![] });
    }
    a
}

fn file(dir: &str, rel: &str) -> FoundFile {
    FoundFile { rel: rel.to_string(), abs: format!("/mods/{dir}/{rel}"), size: Some(1) }
}

fn found(pin_stored: bool) -> Vec<SlotFiles> {
    vec![
        SlotFiles { files: vec![file("100001", "a.pack"), file("100001", "shared.pack")], pin_stored },
        SlotFiles { files: vec![file("100002", "b.pack")], pin_stored: false },
        SlotFiles { files: vec![file("Gamma", "shared.pack"), file("Gamma", "movie/x.ca_vp8")], pin_stored: false },
    ]
}

fn sources(r: &[ResolvedMod]) -> Vec<&'static str> {
    r.iter().map(|m| m.source.label()).collect()
}

#[test]
fn mods_resolve_to_where_they_are_loaded_from() {
    let a = state();
    let r = a.resolve_load_order(&found(false), "/v");
    assert_eq!(sources(&r), vec!["versioned", "workshop (live)", "local"]);
    assert_eq!(r[0].files[0], ("a.pack".to_string(), "/v/100001/m1/a.pack".to_string()));
    assert_eq!(r[1].files[0].1, "/mods/100002/b.pack");
    assert_eq!(r[2].files[1].1, "/mods/Gamma/movie/x.ca_vp8");
    assert_eq!(r[0].packs, vec!["a.pack", "shared.pack"]);
    assert_eq!(r[0].manifest.as_deref(), Some("m1"));
    assert_eq!(pinned_count(&r), 0);
}

#[test]
fn a_stored_pin_wins_over_what_is_installed() {
    let mut a = state();
    a.pins.insert("100001".to_string(), "m0".to_string());
    assert_eq!(a.pinned_dir(&a.slots[0], "/v").as_deref(), Some("/v/100001/m0"));
    let r = a.resolve_load_order(&found(true), "/v");
    assert_eq!(sources(&r)[0], "versioned (pinned)");
    assert_eq!(r[0].files[0].1, "/v/100001/m0/a.pack");
    assert_eq!(pinned_count(&r), 1);
    assert!(a.stores_for_launch(&r).is_empty());
    let r = a.resolve_load_order(&found(false), "/v");
    assert!(matches!(r[0].source, PackSource::Vault));
    let stores = a.stores_for_launch(&r);
    assert_eq!(stores.len(), 1);
    assert_eq!((stores[0].sid.as_str(), stores[0].manifest.as_str()), ("100001", "m1"));
    assert_eq!((stores[0].timeupdated, stores[0].size), (22, 11));
}

#[test]
fn versions_of_workshop_mods_have_a_source() {
    let mut a = state();
    let source = |a: &App, k: usize, stored: bool| {
        let (manifest, source) = a.workshop_source(&a.slots[k], stored);
        (manifest, source.label())
    };
    assert_eq!(source(&a, 0, true), (Some("m1".to_string()), "versioned"));
    assert_eq!(source(&a, 1, false), (None, "workshop (live)"));
    assert_eq!(source(&a, 2, false), (None, "workshop (live)"));
    a.pins.insert("100001".to_string(), "m0".to_string());
    assert_eq!(source(&a, 0, true), (Some("m0".to_string()), "versioned (pinned)"));
    assert_eq!(source(&a, 0, false), (Some("m1".to_string()), "versioned"));
}

#[test]
fn only_installed_and_enabled_mods_are_launched() {
    let mut a = state();
    a.slots[0].enabled = false;
    a.pool[1].missing = true;
    let r = a.resolve_load_order(&found(false), "/v");
    let names: Vec<&str> = r.iter().map(|m| m.name.as_str()).collect();
    assert_eq!(names, vec!["Gamma"]);
}

#[test]
fn an_unsubscribed_mod_still_plays() {
    let mut a = state();
    a.slots.push(Slot { id: "100009".to_string(), idx: None, enabled: true, requires: vec![] });
    a.slots.push(Slot { id: "100010".to_string(), idx: None, enabled: true, requires: vec![] });
    assert_eq!(a.pinned_dir(&a.slots[3], "/v"), None);
    a.pins.insert("100009".to_string(), "m7".to_string());
    a.pins.insert("100010".to_string(), String::new());
    assert_eq!(a.pinned_dir(&a.slots[3], "/v").as_deref(), Some("/v/100009/m7"));
    assert_eq!(a.pinned_dir(&a.slots[4], "/v"), None);
    let stored = |rel: &str| FoundFile { rel: rel.to_string(), abs: format!("/v/100009/m7/{rel}"), size: None };
    let with = |pin_stored: bool| {
        let mut f = found(false);
        let files = if pin_stored {
            let rels = ["z.pack", ".meta.json", "z.pack.sha256", "movies/x.ca_vp8", "b.pack", ".b.pack.tmp"];
            rels.iter().map(|r| stored(r)).collect()
        } else {
            vec![]
        };
        f.push(SlotFiles { files, pin_stored });
        f.push(SlotFiles { files: vec![], pin_stored: false });
        f
    };
    let r = a.resolve_load_order(&with(true), "/v");
    assert_eq!(r.len(), 4);
    assert_eq!(r[3].name, "100009");
    assert_eq!(r[3].idx, None);
    assert!(matches!(r[3].source, PackSource::Pinned));
    assert_eq!(r[3].manifest.as_deref(), Some("m7"));
    assert_eq!(r[3].packs, vec!["b.pack", "z.pack"]);
    let pair = |rel: &str| (rel.to_string(), format!("/v/100009/m7/{rel}"));
    assert_eq!(r[3].files, vec![pair("z.pack"), pair("movies/x.ca_vp8"), pair("b.pack")]);
    assert_eq!(pinned_count(&r), 1);
    assert_eq!(a.stores_for_launch(&r).len(), 1);
    let there = vec![vec![true, true], vec![true], vec![true, true], vec![false, true, true]];
    assert!(a.staging_entries(&r, &there).contains(&pair("z.pack")));
    let text = a.used_mods_preview(&settings(""), &with(true), "/v");
    assert!(text.contains("  4  100009  [versioned (pinned), 2 packs]\n     (1 missing / not installed — skipped)\n"));
    assert_eq!(a.resolve_load_order(&with(false), "/v").len(), 3);
    let text = a.used_mods_preview(&settings(""), &with(false), "/v");
    assert!(text.contains("(2 missing / not installed — skipped)"));
    a.slots[3].enabled = false;
    assert_eq!(a.resolve_load_order(&with(true), "/v").len(), 3);
}

#[test]
fn later_mods_override_earlier_ones() {
    let a = state();
    let r = a.resolve_load_order(&found(false), "/v");
    let there = vec![vec![true, true], vec![true], vec![true, true]];
    let staged = a.staging_entries(&r, &there);
    let rels: Vec<&str> = staged.iter().map(|e| e.0.as_str()).collect();
    assert_eq!(rels, vec!["a.pack", "b.pack", "shared.pack", "movie/x.ca_vp8"]);
    assert_eq!(staged[2].1, "/mods/Gamma/shared.pack");
    assert_eq!(App::used_mods_lines(&r), vec!["a.pack", "b.pack", "shared.pack"]);
    let gone = vec![vec![false, true], vec![true], vec![true, true]];
    assert_eq!(a.staging_entries(&r, &gone)[0].1, "/mods/100001/a.pack");
}

#[test]
fn both_lists_name_the_same_packs() {
    let packs = vec!["a.pack".to_string(), "b.pack".to_string()];
    assert_eq!(overlay_list(&packs), "mod \"a.pack\";\nmod \"b.pack\";\n");
    assert_eq!(
        used_mods_list("/home/u/staging", &packs),
        "add_working_directory \"Z:/home/u/staging\";\nmod \"a.pack\";\nmod \"b.pack\";\n"
    );
}

#[test]
fn the_dry_run_shows_the_launch() {
    let mut a = state();
    a.slots.push(Slot { id: "gone".to_string(), idx: None, enabled: true, requires: vec![] });
    let s = settings("staging_dir=/stage\n");
    let mut f = found(false);
    f.push(SlotFiles { files: vec![], pin_stored: false });
    let r = a.resolve_load_order(&f, "/v");
    let staging = twwh3_mods::paths::staging_dir(&s);
    let lists = format!(
        "----- used_mods_overlay.txt (packs merged into data/) -----\n{}\n----- used_mods.txt (fallback / overlay off) -----\n{}",
        overlay_list(&App::used_mods_lines(&r)),
        used_mods_list(&staging, &App::used_mods_lines(&r))
    );
    let head = "Load order — 3 mods (3 packs), in launch order:\n  1  Alpha  [versioned, 2 packs]\n  2  Beta  [workshop (live)]\n  3  Gamma  [local]\n     (1 missing / not installed — skipped)\n\n";
    let on = "overlay: on → the game is passed used_mods_overlay.txt when the fuse mount succeeds,\n             otherwise it falls back to used_mods.txt\n\n";
    assert_eq!(a.used_mods_preview(&s, &f, "/v"), format!("{head}{on}{lists}"));
    let off = settings("overlay=off\n");
    assert!(overlay_is_off(&off));
    assert!(!overlay_is_off(&s));
    assert!(a
        .used_mods_preview(&off, &f, "/v")
        .contains("overlay: off → the game is passed used_mods.txt (working-directory loading)\n\n"));
}

#[test]
fn launching_needs_saved_changes_and_reports() {
    let mut a = state();
    a.dirty = true;
    assert!(!a.may_launch());
    assert_eq!(a.status, "Unsaved changes — press s first, then L to launch");
    a.dirty = false;
    assert!(a.may_launch());
    a.preview_mounted = true;
    a.launch(LaunchOutcome::NotWritten("no room".to_string()));
    assert_eq!(a.status, "Launch failed: no room");
    assert!(a.preview_mounted);
    a.launch(LaunchOutcome::NoSteam("not found".to_string()));
    assert_eq!(a.status, "could not run steam: not found");
    assert!(!a.preview_mounted);
    a.launch(LaunchOutcome::Started { mods: 3, pinned: 0, now: None });
    assert_eq!(
        a.status,
        "Launching via Steam: 3 mods — overlay result will appear here when the game starts"
    );
    a.launch(LaunchOutcome::Started { mods: 3, pinned: 2, now: Some(100) });
    assert_eq!(
        a.status,
        "Launching via Steam: 3 mods, 2 pinned versions — overlay result will appear here when the game starts"
    );
    assert_eq!(a.overlay_watch_since, Some(100));
}

#[test]
fn the_overlay_report_is_shown_once_it_is_new_enough() {
    let mut a = state();
    a.status = "before".to_string();
    a.poll_overlay_status(Some("100\tmounted\n"));
    assert_eq!(a.status, "before");
    a.overlay_watch_since = Some(100);
    for text in [None, Some("99\tstale"), Some("100 no tab"), Some("x\tmsg")] {
        a.poll_overlay_status(text);
        assert_eq!(a.status, "before");
    }
    a.poll_overlay_status(Some("100\toverlay mounted\n"));
    assert_eq!(a.status, "overlay mounted");
    assert_eq!(a.overlay_watch_since, None);
}

#[test]
fn fuse_mounts_are_recognised() {
    let mounts = "proc /proc proc rw 0 0\nfuse-overlayfs /g/Total\\040War/data fuse.fuse-overlayfs rw 0 0\n/dev/sda /plain ext4 rw 0 0\n";
    assert!(overlay_mounted(Some(mounts), "/g/Total War/data"));
    assert!(!overlay_mounted(Some(mounts), "/plain"));
    assert!(!overlay_mounted(Some(mounts), "/g/Total War"));
    assert!(!overlay_mounted(None, "/g/Total War/data"));
}

#[test]
fn only_the_games_data_folder_is_mounted() {
    assert_eq!(data_of("/g"), "/g/data");
    let mounts = "x /g/data fuse rw 0 0\n";
    assert!(matches!(overlay_mount(Some("/g"), "/g/data", None), MountPlan::Mount));
    assert!(matches!(overlay_mount(Some("/g"), "/g/data", Some(mounts)), MountPlan::UnmountThenMount));
    assert!(matches!(overlay_mount(Some("/g"), "/etc", Some(mounts)), MountPlan::Refuse));
    assert!(matches!(overlay_mount(None, "/g/data", None), MountPlan::Refuse));
    assert!(matches!(overlay_unmount("/g/data", Some(mounts)), MountPlan::Unmount));
    assert!(matches!(overlay_unmount("/g/data", None), MountPlan::Nothing));
    assert_eq!(lower_dirs("/s", "/g/data"), "lowerdir=/s:/g/data");
    assert_eq!(request_target(" /g/data\n").as_deref(), Some("/g/data"));
    assert_eq!(request_target(" \n"), None);
}

#[test]
fn programs_are_looked_for_on_the_path() {
    assert_eq!(on_path("/bin:/usr/bin", "steam"), vec!["/bin/steam", "/usr/bin/steam"]);
    let script = "#!/bin/sh\nexport PATH=\"/nix/a-fuse-overlayfs-1/bin:/nix/b/bin\" other/fuse-overlayfs\n";
    assert_eq!(find_fuse_overlayfs(script), vec!["/nix/a-fuse-overlayfs-1/bin/fuse-overlayfs"]);
    assert_eq!(launch_options_use_shim(&vec![]), None);
    assert_eq!(launch_options_use_shim(&vec!["x".to_string()]), Some(false));
    assert_eq!(launch_options_use_shim(&vec!["x".to_string(), "a twwh3-run b".to_string()]), Some(true));
}

#[test]
fn folders_are_opened_with_the_chosen_program() {
    assert!(matches!(dir_opener(&settings("")), Opener::Named(n) if n == "xdg-open"));
    assert!(matches!(dir_opener(&settings("open_with=nautilus\n")), Opener::Named(n) if n == "nautilus"));
    assert!(matches!(dir_opener(&settings("open_with=~/bin/fm\n")), Opener::At(p) if p == "/home/u/bin/fm"));
}

#[test]
fn the_request_files_are_in_the_cache() {
    let s = settings("");
    assert!(mount_request_file(&s).ends_with("/twwh3-mount-request"));
    assert!(unmount_request_file(&s).ends_with("/twwh3-unmount-request"));
    assert!(mount_listener_marker(&s).ends_with("/twwh3-mount-listener"));
    assert!(overlay_status_file(&s).ends_with("/twwh3-overlay-status"));
}

fn drive(a: &mut App, answers: &[(DataStep, bool)]) {
    let s = settings("");
    let mut step = a.toggle_data_view(true);
    for (want, yes) in answers {
        assert!(step == *want);
        let result = if *yes { StepResult::Yes } else { StepResult::No };
        step = a.data_view_step(&s, "/home/u/g/data", step, result);
    }
    assert!(step == DataStep::Done);
}

#[test]
fn the_data_view_mounts_a_preview_and_unmounts_it() {
    let mut a = state();
    drive(
        &mut a,
        &[
            (DataStep::Look, false),
            (DataStep::Write, true),
            (DataStep::Find, true),
            (DataStep::Mount, true),
            (DataStep::OpenPreview, true),
        ],
    );
    assert!(a.preview_mounted);
    assert_eq!(a.status, "Mounted merged data/ preview — press o again to unmount before playing");
    drive(&mut a, &[(DataStep::Unmount, true)]);
    assert!(!a.preview_mounted);
    assert_eq!(a.status, "Data preview unmounted");
    a.preview_mounted = true;
    drive(&mut a, &[(DataStep::Unmount, false)]);
    assert_eq!(a.status, "Could not unmount the preview on /home/u/g/data");
}

#[test]
fn the_data_view_falls_back() {
    let hint = "no file manager found — set open_with in ~/.config/twwh3-mods/config";
    let mut a = state();
    assert!(a.toggle_data_view(false) == DataStep::Done);
    assert_eq!(a.status, "Data view: game install dir not found");
    drive(&mut a, &[(DataStep::Look, true), (DataStep::OpenMerged, true)]);
    assert_eq!(
        a.status,
        "Opened merged data/ — overlay already mounted; if the game isn't running, `fusermount3 -u \"~/g/data\"` removes it"
    );
    drive(&mut a, &[(DataStep::Look, true), (DataStep::OpenMerged, false)]);
    assert_eq!(a.status, format!("Data view: {hint}"));
    let to_find = [(DataStep::Look, false), (DataStep::Write, true)];
    let mut steps = to_find.to_vec();
    steps.extend([(DataStep::Find, false), (DataStep::OpenPlain, true)]);
    drive(&mut a, &steps);
    assert_eq!(a.status, "fuse-overlayfs not found — opening plain data/ (no merged preview)");
    let mut steps = to_find.to_vec();
    steps.extend([(DataStep::Find, true), (DataStep::Mount, false), (DataStep::OpenAnyway, false)]);
    drive(&mut a, &steps);
    assert_eq!(a.status, format!("Overlay preview mount failed; {hint}"));
    let s = settings("");
    let failed = a.data_view_step(&s, "/d", DataStep::Write, StepResult::Failed("disk full".to_string()));
    assert!(failed == DataStep::Done);
    assert_eq!(a.status, "Data view failed: disk full");
}

fn facts() -> StatusFacts {
    StatusFacts {
        version: "0.1.0".to_string(),
        config_exists: false,
        launcher_data_exists: true,
        workshop_exists: true,
        game: Some("/home/u/game".to_string()),
        profiles_exist: true,
        versions_exist: true,
        local_exists: true,
        staging_exists: true,
        used_mods_exists: false,
        shim: Some("/usr/bin/twwh3-run".to_string()),
        shim_script: Some("PATH=/nix/fuse-overlayfs/bin".to_string()),
        shim_set_up: Some(true),
        fuse_overlayfs: None,
        fusermount: Some("/usr/bin/fusermount3".to_string()),
        fuse_device: true,
        data_mounted: false,
        opener: None,
        versions: 2,
        version_bytes: 3_000_000,
        images: false,
    }
}

fn value(a: &App, s: &Settings, f: &StatusFacts, label: &str) -> Option<(String, Option<bool>)> {
    a.build_status(s, f)
        .into_iter()
        .filter(|l| l.label == label)
        .last()
        .map(|l| (l.value, l.ok))
}

#[test]
fn the_status_page_tells_what_was_found() {
    let mut a = state();
    let s = settings("");
    let mut f = facts();
    let get = |a: &App, f: &StatusFacts, l: &str| value(a, &s, f, l).unwrap();
    assert_eq!(a.build_status(&s, &f)[0].value, "v0.1.0");
    assert_eq!(get(&a, &f, "launcher data"), ("~/moddata".to_string(), Some(true)));
    assert!(get(&a, &f, "config file").0.ends_with(" (not present — defaults in use)"));
    assert_eq!(get(&a, &f, "game"), ("~/game".to_string(), Some(true)));
    assert_eq!(get(&a, &f, "used_mods.txt").0, "~/game/used_mods.txt (written when you press L)");
    assert_eq!(get(&a, &f, "launch options").0, "twwh3-run is set up in Steam");
    assert_eq!(get(&a, &f, "overlay"), ("on".to_string(), Some(true)));
    assert_eq!(get(&a, &f, "fuse-overlayfs").0, "bundled with twwh3-run");
    assert_eq!(get(&a, &f, "data view").0, "vanilla until launch (o to preview)");
    assert_eq!(get(&a, &f, "o opens with").1, Some(false));
    assert_eq!(get(&a, &f, "load order"), ("3 mods".to_string(), Some(true)));
    assert_eq!(get(&a, &f, "mod pool").0, "3 mods, 2 workshop, 1 local");
    assert_eq!(get(&a, &f, "versioned mods").0, "2 pack versions, 2.9 MiB");
    assert_eq!(get(&a, &f, "thumbnails").0, "auto (inactive)");
    assert!(value(&a, &s, &f, "unsaved changes").is_none());
    a.dirty = true;
    a.preview_mounted = true;
    a.pins.insert("100001".to_string(), "m0".to_string());
    a.slots[1].idx = None;
    f.game = None;
    f.shim_set_up = None;
    assert_eq!(get(&a, &f, "unsaved changes").1, Some(false));
    assert_eq!(get(&a, &f, "game").0, "not found — set game_dir in the config");
    assert!(value(&a, &s, &f, "data view").is_none());
    assert_eq!(
        get(&a, &f, "load order").0,
        "3 mods, 1 missing, 1 updated past their pin (stored version used at launch)"
    );
    assert_eq!(get(&a, &f, "launch options"), ("could not read Steam userdata".to_string(), None));
    let off = settings("overlay=off\n");
    assert!(value(&a, &off, &f, "fuse-overlayfs").is_none());
    assert!(value(&a, &off, &f, "overlay").unwrap().0.starts_with("off"));
}
