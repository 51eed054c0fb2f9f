use std::path::Path;

use twwh3_mods::paths::{
    cache_dir, config_file, current_profile_file, data_dir, expand_path, extension, file_name,
    file_stem, join_path, local_mods_dir, moddata_path, modlists_dir, parse_config, path_setting,
    profile_file, profile_order_file, same_path, setting, staging_dir, steam_root, tilde,
    unix_to_win, versioned_mods_dir, with_file_name, workshop_dir, Settings,
};
use twwh3_mods::strmap::StrMap;
use twwh3_mods::text::{
    contains, eq_ignore_ascii_case, find, is_all_digits, is_white, join, lines, pad, parse_u64,
    same, split, starts_with, strip_prefix, to_decimal, trim, trim_end_matches, words, CharClass,
};

fn settings(env: &[(&str, &str)], config: &str) -> Settings {
    let mut map: StrMap<String> = StrMap::new();
    for (k, v) in env {
        map.insert(k.to_string(), v.to_string());
    }
    Settings { env: map, config: parse_config(config) }
}

#[test]
fn white_space_is_unicode_white_space() {
    for n in 0..=0x10ffffu32 {
        if let Some(c) = char::from_u32(n) {
            assert_eq!(is_white(c), c.is_whitespace(), "{n:x}");
        }
    }
}

#[test]
fn trimming_agrees_with_std() {
    for s in ["", " ", " a b\t\n", "\u{3000}x\u{85}", "no", "\r\nx\r\n"] {
        assert_eq!(trim(s), s.trim());
    }
}

#[test]
fn lines_agree_with_std() {
    for s in ["", "\n", "a", "a\n", "a\r\nb\r\n", "a\r", "\n\nx\n\n", "a\r\n\rb"] {
        let want: Vec<String> = s.lines().map(String::from).collect();
        assert_eq!(lines(s), want, "{s:?}");
    }
}

#[test]
fn words_and_pieces_agree_with_std() {
    for s in ["", " a  b ", "a:b", "::", "x\ty\n"] {
        let want: Vec<String> = s.split_whitespace().map(String::from).collect();
        assert_eq!(words(s, CharClass::White), want);
        let want: Vec<String> = s.split(':').map(String::from).collect();
        assert_eq!(split(s, CharClass::Exactly(':')), want);
    }
    let script = "PATH=\"/nix/a:/nix/b\" run";
    let want: Vec<String> = script
        .split(|c: char| c == '"' || c == ':' || c.is_whitespace())
        .map(String::from)
        .collect();
    assert_eq!(split(script, CharClass::WhiteOr('"', ':')), want);
}

#[test]
fn searching_agrees_with_std() {
    assert_eq!(find("hello", "l"), Some(2));
    assert_eq!(find("hello", "lo"), Some(3));
    assert_eq!(find("hello", "x"), None);
    assert_eq!(find("", ""), Some(0));
    assert!(contains("fuse.fuse-overlayfs", "fuse"));
    assert!(!contains("ext4", "fuse"));
    assert!(starts_with("~/x", "~/"));
    assert_eq!(strip_prefix("~/x", "~/"), Some("x".to_string()));
    assert_eq!(strip_prefix("/x", "~/"), None);
    assert_eq!(trim_end_matches("a.tar.tar", ".tar"), "a");
    assert_eq!(trim_end_matches(".tar", ".tar"), "");
    assert_eq!(join(&vec!["a".to_string(), "b".to_string()], "; "), "a; b");
}

#[test]
fn equality_is_exact_or_ignores_ascii_case() {
    assert!(same("Ärger", "Ärger"));
    assert!(!same("Ärger", "ärger"));
    assert!(!same("a", "ab"));
    assert!(eq_ignore_ascii_case("PACK", "pack"));
    assert!(!eq_ignore_ascii_case("Ä", "ä"));
    assert!(is_all_digits("0123456789"));
    assert!(!is_all_digits("12a"));
}

#[test]
fn numbers_are_written_and_read() {
    for n in [0u64, 7, 10, 99, 1142710, u64::MAX] {
        assert_eq!(to_decimal(n), n.to_string());
        assert_eq!(parse_u64(&n.to_string()), Some(n));
    }
    for s in ["", "+", "+5", "-1", " 1", "18446744073709551616", "1x", "007"] {
        assert_eq!(parse_u64(s), s.parse::<u64>().ok(), "{s:?}");
    }
    assert_eq!(pad("7", 3, ' '), "  7");
    assert_eq!(pad("1234", 3, ' '), "1234");
}

#[test]
fn path_helpers_agree_with_std() {
    let paths = [
        "", "a", "a/b", "/a/b", "/", "a/b/", "./a", "a/./b", "a/..", "..", ".", "x.pack", ".hidden",
        "a/.hidden.png", "a.b.c", "dir.d/file", "a//b", "/a/b/.", "end.",
    ];
    for p in paths {
        let q = Path::new(p);
        let name = q.file_name().map(|s| s.to_str().unwrap().to_string());
        assert_eq!(file_name(p), name, "name of {p:?}");
        let stem = q.file_stem().map(|s| s.to_str().unwrap().to_string());
        assert_eq!(file_stem(p), stem, "stem of {p:?}");
        let ext = q.extension().map(|s| s.to_str().unwrap().to_string());
        assert_eq!(extension(p), ext, "extension of {p:?}");
        for r in ["x", "/x", "", "a/b"] {
            assert_eq!(join_path(p, r), q.join(r).to_str().unwrap(), "{p:?} + {r:?}");
        }
        let sibling = with_file_name(p, "new");
        assert_eq!(Path::new(&sibling), q.with_file_name("new"), "{p:?}");
        for r in paths {
            assert_eq!(same_path(p, r), q == Path::new(r), "{p:?} == {r:?}");
        }
    }
}

#[test]
fn config_lines_are_read() {
    let s = settings(
        &[("HOME", "/home/u")],
        "# comment\n\n steam_root = \"~/Steam\" \nmodlists='/m'\nno value\nimages=off\nimages = auto\n",
    );
    assert_eq!(setting(&s, "X", "steam_root"), Some("~/Steam".to_string()));
    assert_eq!(setting(&s, "X", "modlists"), Some("/m".to_string()));
    assert_eq!(setting(&s, "X", "images"), Some("auto".to_string()));
    assert_eq!(setting(&s, "X", "no value"), None);
    assert_eq!(steam_root(&s), "/home/u/Steam");
    assert_eq!(modlists_dir(&s), "/m");
}

#[test]
fn environment_wins_over_config_and_config_over_default() {
    let config = "data_dir = /conf\n";
    let env = settings(&[("HOME", "/h"), ("TWWH3_DATA", "~/env")], config);
    assert_eq!(data_dir(&env), "/h/env");
    let conf = settings(&[("HOME", "/h")], config);
    assert_eq!(data_dir(&conf), "/conf");
    let none = settings(&[("HOME", "/h")], "");
    assert_eq!(data_dir(&none), "/h/Games/TotalWarWH3");
    assert_eq!(path_setting(&none, "TWWH3_DATA", "data_dir"), None);
}

#[test]
fn default_paths_lie_below_home() {
    let s = settings(&[("HOME", "/home/u")], "");
    assert_eq!(steam_root(&s), "/home/u/.local/share/Steam");
    assert_eq!(
        moddata_path(&s),
        "/home/u/.local/share/Steam/steamapps/compatdata/1142710/pfx/drive_c/users/steamuser/AppData/Roaming/The Creative Assembly/Launcher/20190104-moddata.dat"
    );
    assert_eq!(workshop_dir(&s), "/home/u/.local/share/Steam/steamapps/workshop/content/1142710");
    assert_eq!(modlists_dir(&s), "/home/u/Games/TotalWarWH3/modlists");
    assert_eq!(current_profile_file(&s), "/home/u/Games/TotalWarWH3/modlists/.current");
    assert_eq!(profile_order_file(&s), "/home/u/Games/TotalWarWH3/modlists/.order");
    assert_eq!(profile_file("/m", "my mods"), "/m/my mods.json");
    assert_eq!(staging_dir(&s), "/home/u/Games/TotalWarWH3/staging");
    assert_eq!(cache_dir(&s), "/home/u/.cache");
    assert_eq!(config_file(&s), "/home/u/.config/twwh3-mods/config");
    let s = settings(&[("XDG_CACHE_HOME", "/c"), ("XDG_CONFIG_HOME", "/x")], "");
    assert_eq!(cache_dir(&s), "/c");
    assert_eq!(config_file(&s), "/x/twwh3-mods/config");
    assert_eq!(steam_root(&s), "./.local/share/Steam");
}

#[test]
fn renamed_directories_are_migrated_only_by_default() {
    let s = settings(&[("HOME", "/h")], "");
    let d = versioned_mods_dir(&s);
    assert_eq!(d.dir, "/h/Games/TotalWarWH3/versioned_workshop_mods");
    assert_eq!(d.rename_from(false, true), Some("/h/Games/TotalWarWH3/vault".to_string()));
    assert_eq!(d.rename_from(true, true), None);
    assert_eq!(d.rename_from(false, false), None);
    let l = local_mods_dir(&s);
    assert_eq!(l.dir, "/h/Games/TotalWarWH3/local_mods");
    assert_eq!(l.rename_from(false, true), Some("/h/Games/TotalWarWH3/mods".to_string()));
    let s = settings(&[("TWWH3_LOCAL", "/l")], "");
    assert_eq!(local_mods_dir(&s).rename_from(false, true), None);
}

#[test]
fn paths_for_display_and_for_the_game() {
    let s = settings(&[("HOME", "/home/u")], "");
    assert_eq!(tilde(&s, "/home/u/x"), "~/x");
    assert_eq!(tilde(&s, "/srv/home/u"), "/srv/home/u");
    assert_eq!(tilde(&settings(&[("HOME", "")], ""), "/x"), "/x");
    assert_eq!(unix_to_win("/home/u/staging"), "Z:/home/u/staging");
    assert_eq!(expand_path(&s, "~/a"), "/home/u/a");
    assert_eq!(expand_path(&s, "~a"), "~a");
}
