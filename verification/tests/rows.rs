use twwh3_mods::app::{App, Mode, Pane};
use twwh3_mods::model::{ModEntry, Slot, VersionInfo};
use twwh3_mods::paths::Settings;
use twwh3_mods::screen::{
    centered_rect, popup_height, popup_width, side_panel, side_panel_subject, Area, SidePanelSubject,
};
use twwh3_mods::steam::{read_moddata_meta, WsInfo};
use twwh3_mods::strmap::StrMap;
use twwh3_mods::ui::{
    bottom_line, header_path, header_room, header_spans, help_row, help_rows, path_line, profile_span, replace_once,
    status_row, version_row, StatusLine, Styled, Tone,
};

fn settings() -> Settings {
    let mut env = StrMap::new();
    env.insert("HOME".to_string(), "/home/u".to_string());
    Settings { env, config: StrMap::new() }
}

fn entry(id: &str, name: &str, local: bool, packs: usize) -> ModEntry {
    ModEntry {
        dir: format!("/home/u/{id}"),
        id: id.to_string(),
        name: name.to_string(),
        packs: (0..packs).map(|i| format!("/home/u/{id}/p{i}.pack")).collect(),
        size: if local { None } else { Some(2048) },
        steam_id: if local { None } else { Some(id.to_string()) },
        png: None,
        local,
        category: String::new(),
        short: "[b]Bold[/b] text\r\nsecond".to_string(),
        missing: false,
    }
}

fn state() -> App {
    let pool = vec![entry("100001", "Alpha", false, 1), entry("100002", "Beta", false, 2), entry("Gamma", "Gamma", true, 1)];
    let mut ws: StrMap<WsInfo> = StrMap::new();
    ws.insert("100001".to_string(), WsInfo { size: 1, timeupdated: 2, manifest: "m1".to_string() });
    let mut a = App::load("/home/u/a/moddata".to_string(), pool, &read_moddata_meta(None), ws, None, None);
    a.slots.push(Slot { id: "100001".to_string(), idx: Some(0), enabled: true, requires: vec![] });
    a.slots.push(Slot { id: "gone".to_string(), idx: None, enabled: true, requires: vec![] });
    a
}

fn text(v: &[Styled]) -> Vec<&str> {
    v.iter().map(|s| s.text.as_str()).collect()
}

#[test]
fn available_mods_show_name_and_size() {
    let rows = state().available_rows();
    assert_eq!(text(&rows[0]), vec!["Beta (2 packs)", "    2 KiB"]);
    assert_eq!(text(&rows[1]), vec!["Gamma", "        -"]);
    assert!(matches!(rows[1][0].tone, Tone::Magenta));
}

#[test]
fn load_order_rows_tell_the_state_of_a_slot() {
    let mut a = state();
    a.pins.insert("100001".to_string(), "m0".to_string());
    a.slots[0].requires = vec!["gamma".to_string(), "gone".to_string()];
    let rows = a.load_order_rows();
    assert_eq!(text(&rows[0]), vec!["  1", "Alpha (updated)  ⚠ needs Gamma, gone"]);
    assert!(matches!(rows[0][1].tone, Tone::Red));
    assert_eq!(text(&rows[1]), vec!["  2", "gone (missing)"]);
    a.slots[0].requires.clear();
    assert!(matches!(a.load_order_rows()[0][1].tone, Tone::Yellow));
    a.slots[0].enabled = false;
    let rows = a.load_order_rows();
    assert_eq!(rows[0][1].text, "Alpha (updated)  (off)");
    assert!(matches!(rows[0][0].tone, Tone::Gray));
    assert_eq!(text(&a.load_order_heading()), vec![" Load order — ", "(unsaved)", " (2, 1 off) "]);
    a.slots[0].enabled = true;
    assert_eq!(a.load_order_heading()[2].text, " (2) ");
    assert_eq!(
        a.list_text(),
        "Load order:\n  1  Alpha  (updated)\n  2  gone  (missing)\n\nAvailable:\n     Beta\n     Gamma  (local)\n"
    );
}

#[test]
fn the_side_panel_shows_the_selected_mod() {
    let mut a = state();
    let s = settings();
    a.focus = Pane::Profile;
    a.prof_sel = Some(1);
    assert!(matches!(side_panel_subject(&a), SidePanelSubject::Unknown(id) if id == "gone"));
    let lines = side_panel(&a, &s);
    assert_eq!(lines[1].text.text, "missing — not installed (unsubscribed?)");
    a.prof_sel = None;
    assert!(matches!(side_panel_subject(&a), SidePanelSubject::Nothing));
    assert_eq!(side_panel(&a, &s)[0].text.text, "nothing selected");
    a.prof_sel = Some(0);
    let shown: Vec<String> = side_panel(&a, &s).iter().map(|l| format!("{}{}", l.label, l.text.text)).collect();
    assert_eq!(
        shown,
        vec![
            "Alpha",
            "kind: workshop",
            "category: -",
            "steam id: 100001",
            "folder: ~/100001",
            "packs: 1",
            "  p0.pack",
            "",
            "Bold text",
            "second",
        ]
    );
    a.focus = Pane::Available;
    a.avail_sel = Some(1);
    assert!(matches!(side_panel_subject(&a), SidePanelSubject::Mod(2)));
    assert_eq!(side_panel(&a, &s)[1].text.text, "local mod — a folder mirrored into data/");
}

#[test]
fn pickers_mark_what_is_chosen() {
    let mut a = state();
    a.req_slot = Some(0);
    a.slots[0].requires = vec!["GONE".to_string()];
    assert_eq!(text(&a.requirement_picker_rows()), vec!["[x] gone"]);
    let v = VersionInfo { manifest: "m1".to_string(), timeupdated: 0, size: 0, stored: false, current: true };
    let row = version_row(&v, true);
    assert_eq!(row.text, "unknown           - ·current ·pinned ·not stored");
    assert!(row.bold && matches!(row.tone, Tone::Green));
    a.version_mod = Some(0);
    a.versions = vec![v];
    assert_eq!(a.version_picker_title(), " Versions of Alpha — newest first ");
    assert_eq!(a.version_picker_rows()[0].text, "unknown           - ·current ·not stored");
}

#[test]
fn profiles_are_listed_with_the_current_one_marked() {
    let mut a = state();
    assert_eq!(text(&a.profile_list_rows()), vec!["(none yet — press n)"]);
    a.profiles = vec!["a".to_string(), "b".to_string()];
    a.current_profile = Some("b".to_string());
    assert_eq!(text(&a.profile_list_rows()), vec!["a", "b (current)"]);
    assert_eq!(a.preview_title(), " Mods in profile ");
    assert_eq!(a.name_input_title(), " New profile name ");
    a.rename_from = Some("b".to_string());
    assert_eq!(a.name_input_title(), " Rename 'b' to ");
}

#[test]
fn the_header_shortens_the_path_at_its_head() {
    assert_eq!(header_room(80, 20), Some(58));
    assert_eq!(header_room(34, 20), None);
    let s = settings();
    assert_eq!(header_path(&s, "/home/u/a/moddata", 20), "~/a/moddata ");
    assert_eq!(header_path(&s, "/home/u/a/moddata", 8), "…moddata ");
    assert_eq!(replace_once("aXbX", "X", "-"), "a-bX");
}

#[test]
fn the_header_and_the_bottom_line_follow_the_state() {
    let mut a = state();
    a.status.clear();
    assert_eq!(text(&header_spans(&a)), vec![" twwh3-mods ", "· profile: ", "(unsaved)"]);
    assert_eq!(bottom_line(&a).text, " ? help · q quit");
    a.dirty = true;
    a.current_profile = Some("p".to_string());
    assert_eq!(text(&header_spans(&a))[2..], ["p", "  [modified]"]);
    assert!(profile_span(&a).bold);
    a.mode = Mode::NameInput;
    assert_eq!(bottom_line(&a).text, " enter confirm · esc cancel");
    a.status = "hello".to_string();
    assert_eq!(bottom_line(&a).text, " hello");
}

#[test]
fn rows_of_the_help_and_the_status_page() {
    assert_eq!(help_rows().len(), 28);
    assert_eq!(text(&help_row("g / G", "jump")), vec!["  g / G", "jump"]);
    assert_eq!(text(&help_row("Actions", "")), vec!["Actions"]);
    assert_eq!(text(&status_row(&StatusLine::section("Paths"))), vec!["Paths"]);
    let row = status_row(&StatusLine::new("game", "x".to_string(), Some(false)));
    assert_eq!(text(&row), vec!["  game", "x"]);
    assert!(matches!(row[1].tone, Tone::Red));
    let l = path_line(&settings(), "staging", "/home/u/s", false, "(none)", None);
    assert_eq!((l.value.as_str(), l.ok), ("~/s (none)", None));
    assert_eq!(path_line(&settings(), "staging", "/home/u/s", true, "(none)", None).ok, Some(true));
}

#[test]
fn popups_are_centred_and_fit() {
    let r = centered_rect(10, 100, Area { x: 2, y: 1, width: 21, height: 8 });
    assert_eq!((r.x, r.y, r.width, r.height), (7, 1, 10, 8));
    assert_eq!(popup_width(100, 8, 72), 72);
    assert_eq!(popup_width(50, 8, 72), 42);
    assert_eq!(popup_height(28, 0, 24), 22);
    assert_eq!(popup_height(0, 3, 24), 3);
    assert_eq!(popup_height(5, 3, 24), 7);
}
