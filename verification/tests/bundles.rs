use twwh3_mods::bundle::{
    bundle_checks, bundle_file, bundle_header, bundle_name, bundle_temp_file, classify_member, export_counts,
    export_members, export_source, exported_message, import_bundle, other_packs, unique_profile_name, verify_packs,
    ExtractedPack, ImportError, Member, PackCheck,
};
use twwh3_mods::json::{parse_json, parse_json_bytes, Json};
use twwh3_mods::model::{FoundFile, MlEntry};
use twwh3_mods::store::PackHash;

fn names(v: &[&str]) -> Vec<String> {
    v.iter().map(|s| s.to_string()).collect()
}

fn workshop() -> MlEntry {
    MlEntry {
        id: "100001".to_string(),
        local: false,
        enabled: true,
        requires: vec![],
        steam_id: Some("100001".to_string()),
        manifest: Some("m1".to_string()),
        sha256: Some("aa".to_string()),
    }
}

fn local() -> MlEntry {
    MlEntry {
        id: "My Mod".to_string(),
        local: true,
        enabled: false,
        requires: vec![],
        steam_id: None,
        manifest: None,
        sha256: None,
    }
}

fn file(rel: &str) -> FoundFile {
    FoundFile { rel: rel.to_string(), abs: format!("/x/{rel}"), size: None }
}

#[test]
fn names_get_the_first_free_number() {
    assert_eq!(unique_profile_name(&names(&["b.json"]), "a"), "a");
    assert_eq!(unique_profile_name(&names(&["a.json"]), "a"), "a 2");
    assert_eq!(unique_profile_name(&names(&["a.json", "a 2.json", "a 4.json"]), "a"), "a 3");
}

#[test]
fn the_header_names_the_profile_and_the_pins() {
    let text = bundle_header("main", &vec![workshop(), local()]);
    let doc = parse_json(&text).unwrap();
    assert_eq!(doc.u64_at("schema"), Some(1));
    assert_eq!(doc.str_at("profile").map(|s| s.to_string()).as_deref(), Some("main"));
    assert!(text.contains("\"manifest\": \"m1\""));
    assert!(text.contains("\"steam_id\": null"));
    assert_eq!(bundle_name(None, Some(&doc), "/tmp/x.twwh3bundle.tar"), "main");
}

#[test]
fn bundles_are_written_beside_their_place_first() {
    assert_eq!(bundle_file("/out", "main"), "/out/main.twwh3bundle.tar");
    assert_eq!(bundle_temp_file("/out", "main"), "/out/.main.twwh3bundle.tar.tmp");
}

#[test]
fn exported_files_come_from_the_store_or_the_local_folder() {
    assert_eq!(export_source(&workshop(), "/v", "/l").as_deref(), Some("/v/100001/m1"));
    assert_eq!(export_source(&local(), "/v", "/l").as_deref(), Some("/l/My Mod"));
    let mut unpinned = workshop();
    unpinned.manifest = None;
    assert_eq!(export_source(&unpinned, "/v", "/l"), None);
    let (members, pack) = export_members(&workshop(), &vec![file("a.PACK"), file("sub/a.png")]);
    assert_eq!(members, vec!["packs/100001/m1/a.PACK", "packs/100001/m1/sub/a.png"]);
    assert!(pack);
    let (members, pack) = export_members(&local(), &vec![file("movies/x.ca_vp8")]);
    assert_eq!(members, vec!["local/My Mod/movies/x.ca_vp8"]);
    assert!(!pack);
    assert_eq!(export_counts(&vec![true, false, true]), (2, 1));
    assert_eq!(exported_message("p", "/o", 2, 1), "Exported 'p' → /o (2 packs, 1 without a stored pack)");
    assert_eq!(exported_message("p", "/o", 2, 0), "Exported 'p' → /o (2 packs)");
}

#[test]
fn members_go_back_to_where_they_came_from() {
    for e in [workshop(), local()] {
        let (members, _) = export_members(&e, &vec![file("sub/a.pack")]);
        match classify_member(&members[0], false) {
            Member::Pack(rel) => assert_eq!(rel, "100001/m1/sub/a.pack"),
            Member::Local(rel) => assert_eq!(rel, "My Mod/sub/a.pack"),
            _ => panic!("not a member"),
        }
    }
    assert!(matches!(classify_member("bundle.json", false), Member::Header));
    assert!(matches!(classify_member("profile.json", false), Member::Profile));
    assert!(matches!(classify_member("readme.txt", false), Member::Other));
    assert!(matches!(classify_member("packs", true), Member::Other));
    assert!(matches!(classify_member("packs/1/2", true), Member::Other));
    assert!(matches!(classify_member("packsX/1/2", false), Member::Other));
}

#[test]
fn members_that_leave_their_folder_are_refused() {
    assert!(matches!(classify_member("packs/../../etc/passwd", false), Member::Unsafe));
    assert!(matches!(classify_member("local/a/../b", false), Member::Unsafe));
    assert!(matches!(classify_member("local/a/..", true), Member::Unsafe));
    assert!(matches!(classify_member("packs/1/a..pack", false), Member::Pack(_)));
    assert_eq!(
        ImportError::UnsafePath("packs/../x".to_string()).message(),
        "bundle contains an unsafe path: packs/../x"
    );
}

const PROFILE: &[u8] = br#"{"mods": [
  {"steam_id": "1", "manifest": "m", "sha256": "good"},
  {"steam_id": "2", "manifest": "m"},
  {"id": "local"},
  {"steam_id": "3", "manifest": "n", "sha256": "other"}
]}"#;

#[test]
fn recorded_hashes_are_what_is_checked() {
    let checks = bundle_checks(Some(PROFILE)).ok().unwrap();
    assert_eq!(checks.len(), 2);
    assert_eq!((checks[1].sid.as_str(), checks[1].manifest.as_str()), ("3", "n"));
    assert_eq!(checks[1].sha256, "other");
    assert!(matches!(bundle_checks(None), Err(ImportError::NoProfile)));
    assert!(matches!(bundle_checks(Some(b"{")), Err(ImportError::NotJson(_))));
    assert!(matches!(bundle_checks(Some(b"\xff")), Err(ImportError::NotJson(_))));
    assert!(bundle_checks(Some(b"[]")).ok().unwrap().is_empty());
    match bundle_checks(Some(b"{")) {
        Err(e) => assert_eq!(e.message(), "EOF while parsing an object at line 1 column 1"),
        Ok(_) => panic!("accepted"),
    }
    assert_eq!(ImportError::NoProfile.message(), "not a twwh3 bundle (no profile.json)");
}

fn pack(name: &str, version: Option<usize>, recorded: Option<&str>, actual: Option<&str>) -> ExtractedPack {
    ExtractedPack {
        name: name.to_string(),
        version,
        recorded: recorded.map(|s| s.to_string()),
        actual: actual.map(|s| s.to_string()),
    }
}

fn checks() -> Vec<PackCheck> {
    bundle_checks(Some(PROFILE)).ok().unwrap()
}

fn mismatch(packs: Vec<ExtractedPack>) -> String {
    match verify_packs(&checks(), &packs) {
        Err(e) => e.message(),
        Ok(_) => panic!("accepted"),
    }
}

#[test]
fn packs_are_verified() {
    let both = vec![
        pack("a.pack", Some(0), Some("good"), Some("good")),
        pack("c.pack", Some(1), None, Some("other")),
    ];
    assert_eq!(verify_packs(&checks(), &both).ok(), Some(2));
    assert_eq!(verify_packs(&checks(), &vec![]).ok(), Some(0));
    assert_eq!(verify_packs(&checks(), &vec![pack("a.pack", Some(0), None, None)]).ok(), Some(0));
    assert_eq!(
        mismatch(vec![pack("a.pack", Some(0), None, Some("bad"))]),
        "checksum mismatch for a.pack — bundle may be corrupt"
    );
}

#[test]
fn a_second_pack_that_is_corrupt_is_noticed() {
    let two = |actual: &str| {
        vec![
            pack("a.pack", Some(0), Some("good"), Some("good")),
            pack("b.pack", Some(0), Some("bbb"), Some(actual)),
        ]
    };
    assert_eq!(verify_packs(&checks(), &two("bbb")).ok(), Some(2));
    assert_eq!(mismatch(two("ccc")), "checksum mismatch for b.pack — bundle may be corrupt");
    let other = vec![pack("x.pack", None, Some("x"), Some("y"))];
    assert_eq!(mismatch(other), "checksum mismatch for x.pack — bundle may be corrupt");
}

#[test]
fn a_hash_of_the_profile_is_that_of_one_of_the_packs() {
    let packs = |first: Option<&str>, second: Option<&str>| {
        vec![pack("a.pack", Some(0), None, first), pack("b.pack", Some(0), None, second)]
    };
    assert_eq!(verify_packs(&checks(), &packs(Some("more"), Some("good"))).ok(), Some(1));
    assert_eq!(verify_packs(&checks(), &packs(Some("more"), None)).ok(), Some(0));
    assert_eq!(
        mismatch(packs(Some("more"), Some("bad"))),
        "checksum mismatch for a.pack — bundle may be corrupt"
    );
}

#[test]
fn packs_of_versions_without_a_hash_are_looked_at_too() {
    let rels = names(&["1/m/a.pack", "1/m/a.pack.sha256", "1/m/sub/b.PACK", "2/m/c.pack", "1/mm/d.pack"]);
    assert_eq!(other_packs(&checks(), &rels), names(&["2/m/c.pack", "1/mm/d.pack"]));
    assert_eq!(other_packs(&vec![], &rels).len(), 4);
}

#[test]
fn profiles_are_installed_beside_the_others() {
    let none = vec![];
    let files = names(&["main.json"]);
    let ok = import_bundle(&checks(), &none, " main ", &files).ok().unwrap();
    assert_eq!(ok, ("main 2".to_string(), 0));
    match import_bundle(&checks(), &none, "a/b", &files) {
        Err(e) => assert_eq!(
            e.message(),
            "invalid profile name derived from bundle: 'a/b' (use --as <name>)"
        ),
        Ok(_) => panic!("accepted"),
    }
    let bad = vec![pack("a.pack", Some(0), Some("good"), Some("bad"))];
    assert!(matches!(import_bundle(&checks(), &bad, "a/b", &files), Err(ImportError::Mismatch(_))));
}

#[test]
fn the_name_of_a_bundle() {
    let header = parse_json(r#"{"profile": "inner"}"#).unwrap();
    assert_eq!(bundle_name(Some("given"), Some(&header), "/x/file.tar"), "given");
    assert_eq!(bundle_name(None, Some(&header), "/x/file.tar"), "inner");
    assert_eq!(bundle_name(None, Some(&Json::Null), "/x/file.twwh3bundle.tar"), "file");
    assert_eq!(bundle_name(None, None, "/x/file.tar.tar"), "file");
    assert_eq!(bundle_name(None, None, "/"), "imported");
}

#[test]
fn hashes_are_those_of_all_the_bytes() {
    let mut h = PackHash::new();
    h.feed(b"a");
    h.feed(b"bc");
    assert_eq!(h.pack_sha256(), "ba7816bf8f01cfea414140de5dae2223b00361a396177a9cb410ff61f20015ad");
    assert_eq!(
        PackHash::new().pack_sha256(),
        "e3b0c44298fc1c149afbf4c8996fb92427ae41e4649b934ca495991b7852b855"
    );
}

#[test]
fn bytes_parse_as_their_text_does() {
    assert_eq!(parse_json_bytes(br#"{"a": 7}"#).unwrap().u64_at("a"), Some(7));
    assert!(parse_json_bytes(b"\xc3\x28").is_err());
}
