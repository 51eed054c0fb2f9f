use twwh3_mods::cli::{command, image_mode, paths_listing, Command, Images};
use twwh3_mods::paths::{parse_config, Settings};
use twwh3_mods::strmap::StrMap;

fn ask(args: &[&str]) -> Command {
    command(&args.iter().map(|s| s.to_string()).collect())
}

fn settings(config: &str) -> Settings {
    let mut env = StrMap::new();
    env.insert("HOME".to_string(), "/h".to_string());
    Settings { env, config: parse_config(config) }
}

#[test]
fn commands_are_told_apart() {
    assert!(matches!(ask(&[]), Command::Manage));
    assert!(matches!(ask(&["-l"]), Command::List));
    assert!(matches!(ask(&["--list", "--launch"]), Command::Launch));
    assert!(matches!(ask(&["--launch", "--paths"]), Command::Paths));
    assert!(matches!(ask(&["export", "p", "-h"]), Command::Help));
    assert!(matches!(ask(&["used-mods", "more"]), Command::UsedMods));
    assert!(matches!(ask(&["--list", "what", "else"]), Command::Unknown(a) if a == "what"));
    assert!(matches!(ask(&["--list", "export"]), Command::Unknown(a) if a == "export"));
}

#[test]
fn bundle_commands_take_their_arguments() {
    match ask(&["export", "p"]) {
        Command::Export { name, dest } => assert_eq!((name.as_deref(), dest), (Some("p"), None)),
        _ => panic!("not an export"),
    }
    match ask(&["import", "b.tar", "--as", "mine"]) {
        Command::Import { file, as_name } => {
            assert_eq!((file.as_deref(), as_name.as_deref()), (Some("b.tar"), Some("mine")))
        }
        _ => panic!("not an import"),
    }
    match ask(&["import", "b.tar", "--as"]) {
        Command::Import { as_name, .. } => assert_eq!(as_name, None),
        _ => panic!("not an import"),
    }
    assert!(matches!(ask(&["import"]), Command::Import { file: None, as_name: None }));
}

#[test]
fn the_paths_are_listed() {
    let s = settings("data_dir = /d\nsteam_root = /s\nimages = off\n");
    assert_eq!(
        paths_listing(&s, false, Some("/g")),
        "config file:  /h/.config/twwh3-mods/config  (not present)\nsteam_root:   /s\ndata_dir:     /d\nmoddata:      /s/steamapps/compatdata/1142710/pfx/drive_c/users/steamuser/AppData/Roaming/The Creative Assembly/Launcher/20190104-moddata.dat\nworkshop:     /s/steamapps/workshop/content/1142710\ngame_dir:     /g\nmodlists:     /d/modlists\nversioned_workshop_mods: /d/versioned_workshop_mods\nlocal_mods:   /d/local_mods\nstaging:      /d/staging\nimages:       off\n"
    );
    assert!(paths_listing(&s, true, None).contains("config\nsteam_root"));
    assert!(paths_listing(&s, true, None).contains("game_dir:     (not found)\n"));
    assert!(image_mode(&s) == Images::Off);
    assert!(image_mode(&settings("images = halfblocks\n")) == Images::Halfblocks);
    assert!(image_mode(&settings("")) == Images::Ask);
}
