use twwh3_mods::json::{parse_json, parse_json_bytes, to_string_pretty, Json, JsonNumber};
use twwh3_mods::model::{
    dedup_last, discover_mods, find_png, local_entry, ml_entry_id, packs_in, workshop_entry,
    FoundDir, FoundFile, PackSource,
};
use twwh3_mods::paths::{parse_config, Settings};
use twwh3_mods::steam::{
    game_install_dir, load_game_buildid, load_workshop_info, parse_workshop_acf, read_moddata_meta,
    vdf_str, workshop_acf_path,
};
use twwh3_mods::strmap::StrMap;

const ACF: &str = r#"
"AppWorkshop"
{
	"appid"		"1142710"
	"WorkshopItemsInstalled"
	{
		"2789873420"
		{
			"size"		"1000"
			"timeupdated"		"1650000000"
			"manifest"		"111"
		}
		"2789901456"
		{
			"size"		"77"
		}
	}
	"WorkshopItemDetails"
	{
		"2789873420"
		{
			"manifest"		"222"
			"timeupdated"		"1660000000"
			"timetouched"		"1"
		}
	}
}
"#;

#[test]
fn workshop_items_merge_field_by_field() {
    let m = parse_workshop_acf(ACF);
    let a = m.get("2789873420").unwrap();
    assert_eq!((a.size, a.timeupdated, a.manifest.as_str()), (1000, 1660000000, "222"));
    let b = m.get("2789901456").unwrap();
    assert_eq!((b.size, b.timeupdated, b.manifest.as_str()), (77, 0, ""));
    assert!(m.get("1142710").is_none());
    assert_eq!(m.len(), 2);
    assert!(load_workshop_info(None).get("2789873420").is_none());
    assert!(load_workshop_info(Some(ACF)).get("2789873420").is_some());
}

#[test]
fn later_blocks_keep_what_they_leave_out() {
    let two = "\"123456\"\n{\n\"size\" \"5\"\n}\n\"123456\"\n{\n\"manifest\" \"m\"\n}\n";
    let m = parse_workshop_acf(two);
    let a = m.get("123456").unwrap();
    assert_eq!((a.size, a.manifest.as_str()), (5, "m"));
}

#[test]
fn short_numbers_are_no_items() {
    let m = parse_workshop_acf("\"12345\"\n{\n\"size\" \"5\"\n}\n");
    assert_eq!(m.len(), 0);
}

#[test]
fn unreadable_numbers_count_as_zero() {
    let m = parse_workshop_acf("\"123456\"\n{\n\"size\" \"x\"\n\"timeupdated\" \"-3\"\n}\n");
    let a = m.get("123456").unwrap();
    assert_eq!((a.size, a.timeupdated), (0, 0));
}

#[test]
fn vdf_values_are_found() {
    let text = "\"AppState\"\n{\n\t\"buildid\"\t\t\"15\"\n\t\"installdir\"\t\"Total War\"\n}\n";
    assert_eq!(vdf_str(text, "buildid"), Some("15".to_string()));
    assert_eq!(vdf_str(text, "missing"), None);
    assert_eq!(load_game_buildid(Some(text)), Some("15".to_string()));
    assert_eq!(load_game_buildid(None), None);
    let mut env: StrMap<String> = StrMap::new();
    env.insert("STEAM_ROOT".to_string(), "/s".to_string());
    let s = Settings { env, config: parse_config("") };
    assert_eq!(
        game_install_dir(&s, Some(text)),
        Some("/s/steamapps/common/Total War".to_string())
    );
    assert_eq!(game_install_dir(&s, None), None);
    assert_eq!(workshop_acf_path(&s), "/s/steamapps/workshop/appworkshop_1142710.acf");
    let s = Settings { env: StrMap::new(), config: parse_config("game_dir=/g") };
    assert_eq!(game_install_dir(&s, None), Some("/g".to_string()));
}

const MODDATA: &str = r#"[
 {"game": "warhammer3", "uuid": "Great.PACK", "name": "Great", "category": "units", "short": "[b]Big[/b]\r\nyes", "active": true, "order": 2},
 {"game": "warhammer3", "uuid": "plain.pack", "name": ""},
 {"game": "rome", "uuid": "other.pack"},
 {"game": "warhammer3"}
]"#;

#[test]
fn launcher_records_are_keyed_by_lower_case_pack() {
    let m = read_moddata_meta(Some(MODDATA));
    assert_eq!(m.len(), 2);
    let g = m.get("great.pack").unwrap();
    assert_eq!((g.name.as_str(), g.category.as_str(), g.active, g.order), ("Great", "units", true, 2));
    let p = m.get("plain.pack").unwrap();
    assert_eq!((p.active, p.order), (false, i64::MAX));
    assert!(m.get("other.pack").is_none());
    assert_eq!(read_moddata_meta(Some("{}")).len(), 0);
    assert_eq!(read_moddata_meta(Some("nope")).len(), 0);
    assert_eq!(read_moddata_meta(None).len(), 0);
    let upper = "[{\"game\": \"warhammer3\", \"uuid\": \"ÄÖ.PACK\"}]";
    assert!(read_moddata_meta(Some(upper)).get("äö.pack").is_some());
}

fn dir(path: &str, files: &[&str]) -> FoundDir {
    FoundDir {
        dir: path.to_string(),
        files: files
            .iter()
            .map(|f| FoundFile { rel: f.to_string(), abs: format!("{path}/{f}"), size: Some(10) })
            .collect(),
        png: None,
    }
}

#[test]
fn packs_are_found_and_sorted_by_parts() {
    let d = dir("/m", &["b.pack", "a b/x.PACK", "a/z.pack", "readme.txt"]);
    assert_eq!(packs_in(&d.files), vec!["/m/a/z.pack", "/m/a b/x.PACK", "/m/b.pack"]);
    let mut std: Vec<std::path::PathBuf> =
        ["/m/b.pack", "/m/a b/x.PACK", "/m/a/z.pack"].iter().map(Into::into).collect();
    std.sort();
    let std: Vec<String> = std.iter().map(|p| p.to_str().unwrap().to_string()).collect();
    assert_eq!(packs_in(&d.files), std);
    assert_eq!(
        find_png(&vec!["/m/a.txt".to_string(), "/m/b.PNG".to_string()]),
        Some("/m/b.PNG".to_string())
    );
}

#[test]
fn mods_are_folders_with_packs() {
    let meta = read_moddata_meta(Some(MODDATA));
    let w = workshop_entry(&meta, &dir("/ws/2789873420", &["great.pack", "movies/x.bik"])).unwrap();
    assert_eq!((w.id.as_str(), w.name.as_str(), w.local), ("2789873420", "Great", false));
    assert_eq!(w.steam_id.as_deref(), Some("2789873420"));
    assert_eq!(w.size, Some(10));
    assert_eq!(w.category(), "units");
    assert_eq!(w.description(), "Big\nyes");
    let p = workshop_entry(&meta, &dir("/ws/5555555", &["plain.pack"])).unwrap();
    assert_eq!((p.name.as_str(), p.category()), ("plain", "-"));
    let odd = workshop_entry(&meta, &dir("/ws/abc", &["unknown.pack"])).unwrap();
    assert_eq!((odd.id.as_str(), odd.steam_id.as_deref()), ("abc", None));
    assert!(workshop_entry(&meta, &dir("/ws/1", &["readme.txt"])).is_none());
    let l = local_entry(&dir("/local/My Mod", &["m.pack"])).unwrap();
    assert_eq!((l.id.as_str(), l.name.as_str(), l.local), ("My Mod", "My Mod", true));
}

#[test]
fn the_pool_is_sorted_by_name_whatever_the_case() {
    let meta = read_moddata_meta(None);
    let ws = vec![dir("/ws/111111", &["zeta.pack"]), dir("/ws/222222", &["alpha.pack"])];
    let local = vec![dir("/l/Beta", &["b.pack"]), dir("/l/Äther", &["c.pack"]), dir("/l/äther2", &["c.pack"])];
    let names: Vec<String> =
        discover_mods(&meta, &ws, &local).iter().map(|m| m.name.clone()).collect();
    assert_eq!(names, vec!["alpha", "Beta", "zeta", "Äther", "äther2"]);
}

#[test]
fn records_read_in_a_row_add_up() {
    let a = "\"Installed\"\n{\n\"100001\"\n{\n\"size\" \"5\"\n\"manifest\" \"old\"\n}\n}\n\"777777\"\n";
    let b = "\"Details\"\n{\n\"100001\"\n{\n\"manifest\" \"new\"\n}\n\"100002\"\n{\n\"timeupdated\" \"9\"\n}\n}\n";
    let both = parse_workshop_acf(&format!("{a}{b}"));
    assert_eq!(both.len(), 2);
    let first = both.get("100001").unwrap();
    assert_eq!((first.size, first.timeupdated, first.manifest.as_str()), (5, 0, "new"));
    assert_eq!(both.get("100002").unwrap().timeupdated, 9);
}

#[test]
fn the_launcher_list_keeps_its_order() {
    let m = read_moddata_meta(Some(
        r#"[{"game": "warhammer3", "uuid": "B.pack", "name": "b"},
            {"game": "warhammer3", "uuid": "a.pack", "name": "a"},
            {"game": "warhammer3", "uuid": "b.pack", "name": "later"}]"#,
    ));
    assert_eq!(m.len(), 2);
    assert_eq!((m.key_at(0).as_str(), m.value_at(0).name.as_str()), ("b.pack", "later"));
    assert_eq!(m.key_at(1), "a.pack");
}

#[test]
fn the_last_of_each_key_is_kept_in_order() {
    let v: Vec<(String, u32)> = vec![
        ("a".to_string(), 1),
        ("b".to_string(), 2),
        ("a".to_string(), 3),
        ("c".to_string(), 4),
    ];
    let r = dedup_last(v, |e: &(String, u32)| e.0.clone());
    assert_eq!(r, vec![("b".to_string(), 2), ("a".to_string(), 3), ("c".to_string(), 4)]);
    assert_eq!(dedup_last(vec![5u64, 7, 5, 9], |n: &u64| *n), vec![7, 5, 9]);
}

#[test]
fn sources_have_labels() {
    assert_eq!(PackSource::Vault.label(), "versioned");
    assert_eq!(PackSource::Pinned.label(), "versioned (pinned)");
    assert_eq!(PackSource::Local.label(), "local");
    assert_eq!(PackSource::Workshop.label(), "workshop (live)");
}

#[test]
fn entries_are_named_by_id_or_older_keys() {
    let id = |t: &str| ml_entry_id(&parse_json(t).unwrap());
    assert_eq!(id(r#"{"id": "a", "steam_id": "b"}"#), Some("a".to_string()));
    assert_eq!(id(r#"{"steam_id": "b", "uuid": "c"}"#), Some("b".to_string()));
    assert_eq!(id(r#"{"uuid": "c"}"#), Some("c".to_string()));
    assert_eq!(id(r#"{"id": 5}"#), None);
}

#[test]
fn json_is_read_and_written() {
    let text = r#"{"a": [1, -2, 3.5, "x\n", true, null], "b": {"c": 18446744073709551615}}"#;
    let j = parse_json(text).unwrap();
    let a = j.array_at("a").unwrap();
    assert_eq!(a[0].as_u64(), Some(1));
    assert_eq!(a[1].as_i64(), Some(-2));
    assert_eq!(a[1].as_u64(), None);
    assert_eq!(a[2].as_u64(), None);
    assert_eq!(a[3].as_str(), Some("x\n".to_string()));
    assert_eq!(a[4].as_bool(), Some(true));
    assert!(a[5].as_str().is_none());
    assert_eq!(j.get("b").unwrap().u64_at("c"), Some(u64::MAX));
    assert_eq!(j.get("b").unwrap().i64_at("c"), None);
    assert_eq!(parse_json("{").err().as_deref(), Some("EOF while parsing an object at line 1 column 1"));
    assert_eq!(parse_json("[1 2]").err().as_deref(), Some("expected `,` or `]` at line 1 column 4"));
    assert!(parse_json_bytes(b"[1]").is_ok());
    assert!(parse_json_bytes(&[b'"', 0xff, b'"']).is_err());
    let doc = Json::Object(vec![
        ("n".to_string(), Json::Number(JsonNumber::Negative(-7))),
        ("s".to_string(), Json::Str("\"quoted\" ü".to_string())),
        ("s".to_string(), Json::Str("later".to_string())),
        ("l".to_string(), Json::Array(vec![Json::Null, Json::Bool(false)])),
    ]);
    let back = parse_json(&to_string_pretty(&doc)).unwrap();
    assert_eq!(back.i64_at("n"), Some(-7));
    assert_eq!(back.str_at("s"), Some("later".to_string()));
    assert_eq!(back.array_at("l").unwrap().len(), 2);
}
