//! The command line: what the arguments ask for, and the listing of all paths.

use vstd::prelude::*;
use vstd::string::StringExecFns;

use crate::paths::{
    config_file, config_path, data_dir, local_mods_dir, moddata_path, modlists_dir, setting,
    staging_dir, steam_root, versioned_mods_dir, workshop_dir, Settings,
};
use crate::text::{opt_text, same, texts};

verus! {

/// What the program is asked to do.
pub enum Command {
    /// Show the usage.
    Help,
    /// Export a profile, to a folder if one is given.
    Export { name: Option<String>, dest: Option<String> },
    /// Import a bundle, under a name if one is given.
    Import { file: Option<String>, as_name: Option<String> },
    /// Print what a launch would pass to the game.
    UsedMods,
    /// Refuse an argument that nothing knows.
    Unknown(String),
    /// Print the paths.
    Paths,
    /// Start the game.
    Launch,
    /// Print the load order and the available mods.
    List,
    /// Manage the load order on the screen.
    Manage,
}

/// What a command says.
pub enum CommandView {
    Help,
    Export { name: Option<Seq<char>>, dest: Option<Seq<char>> },
    Import { file: Option<Seq<char>>, as_name: Option<Seq<char>> },
    UsedMods,
    Unknown(Seq<char>),
    Paths,
    Launch,
    List,
    Manage,
}

impl View for Command {
    type V = CommandView;

    open spec fn view(&self) -> CommandView {
        match *self {
            Command::Help => CommandView::Help,
            Command::Export { name, dest } => CommandView::Export {
                name: opt_text(name),
                dest: opt_text(dest),
            },
            Command::Import { file, as_name } => CommandView::Import {
                file: opt_text(file),
                as_name: opt_text(as_name),
            },
            Command::UsedMods => CommandView::UsedMods,
            Command::Unknown(a) => CommandView::Unknown(a@),
            Command::Paths => CommandView::Paths,
            Command::Launch => CommandView::Launch,
            Command::List => CommandView::List,
            Command::Manage => CommandView::Manage,
        }
    }
}

/// The first position of `x` from `from` on.
pub open spec fn first_at(args: Seq<Seq<char>>, x: Seq<char>, from: int) -> Option<int>
    decreases args.len() - from,
{
    if from < 0 || from >= args.len() {
        None
    } else if args[from] == x {
        Some(from)
    } else {
        first_at(args, x, from + 1)
    }
}

/// The argument at a position, if there are so many.
pub open spec fn argument(args: Seq<Seq<char>>, i: int) -> Option<Seq<char>> {
    if 0 <= i < args.len() {
        Some(args[i])
    } else {
        None
    }
}

/// The argument is one of the options that can stand alone.
pub open spec fn is_option(a: Seq<char>) -> bool {
    a == "-l"@ || a == "--list"@ || a == "--launch"@ || a == "--paths"@
}

/// The first argument from `from` on that is no such option.
pub open spec fn first_unknown(args: Seq<Seq<char>>, from: int) -> Option<Seq<char>>
    decreases args.len() - from,
{
    if from < 0 || from >= args.len() {
        None
    } else if !is_option(args[from]) {
        Some(args[from])
    } else {
        first_unknown(args, from + 1)
    }
}

/// What the arguments ask for. Help comes before all else, then the word that
/// begins them; among the options `--paths` comes before `--launch`, and that
/// before the listing.
pub open spec fn asked(args: Seq<Seq<char>>) -> CommandView {
    if args.contains("-h"@) || args.contains("--help"@) {
        CommandView::Help
    } else if argument(args, 0) == Some("export"@) {
        CommandView::Export { name: argument(args, 1), dest: argument(args, 2) }
    } else if argument(args, 0) == Some("import"@) {
        CommandView::Import {
            file: argument(args, 1),
            as_name: match first_at(args, "--as"@, 0) {
                Some(i) => argument(args, i + 1),
                None => None,
            },
        }
    } else if argument(args, 0) == Some("used-mods"@) {
        CommandView::UsedMods
    } else {
        match first_unknown(args, 0) {
            Some(a) => CommandView::Unknown(a),
            None => if args.contains("--paths"@) {
                CommandView::Paths
            } else if args.contains("--launch"@) {
                CommandView::Launch
            } else if args.len() > 0 {
                CommandView::List
            } else {
                CommandView::Manage
            },
        }
    }
}

/// The first position of `x` from `from` on is the only candidate for one.
proof fn lemma_first_at(args: Seq<Seq<char>>, x: Seq<char>, from: int)
    requires
        0 <= from,
    ensures
        match first_at(args, x, from) {
            Some(i) => from <= i < args.len() && args[i] == x,
            None => forall|k: int| from <= k < args.len() ==> args[k] != x,
        },
    decreases args.len() - from,
{
    if from < args.len() && args[from] != x {
        lemma_first_at(args, x, from + 1);
    }
}

/// Where `x` first stands among the arguments.
fn position(args: &Vec<String>, x: &str) -> (r: Option<usize>)
    ensures
        match r {
            Some(i) => i < args@.len() && first_at(texts(args@), x@, 0) == Some(i as int),
            None => first_at(texts(args@), x@, 0) is None,
        },
        r is Some <==> texts(args@).contains(x@),
{
    let ghost all = texts(args@);
    let mut i: usize = 0;
    proof {
        lemma_first_at(all, x@, 0);
    }
    while i < args.len()
        invariant
            i <= args@.len(),
            all == texts(args@),
            first_at(all, x@, 0) == first_at(all, x@, i as int),
        decreases args@.len() - i,
    {
        assert(all[i as int] == args@[i as int]@);
        if same(args[i].as_str(), x) {
            return Some(i);
        }
        i = i + 1;
    }
    None
}

/// The argument at a position, if there are so many.
fn argument_at(args: &Vec<String>, i: usize) -> (r: Option<String>)
    ensures
        opt_text(r) == argument(texts(args@), i as int),
{
    if i < args.len() {
        Some(args[i].clone())
    } else {
        None
    }
}

/// Whether the arguments begin with `word`.
fn begins_with(args: &Vec<String>, word: &str) -> (r: bool)
    ensures
        r == (argument(texts(args@), 0) == Some(word@)),
{
    args.len() > 0 && same(args[0].as_str(), word)
}

/// The first argument that is no option.
fn unknown_argument(args: &Vec<String>) -> (r: Option<String>)
    ensures
        opt_text(r) == first_unknown(texts(args@), 0),
{
    let ghost all = texts(args@);
    let mut i: usize = 0;
    while i < args.len()
        invariant
            i <= args@.len(),
            all == texts(args@),
            first_unknown(all, 0) == first_unknown(all, i as int),
        decreases args@.len() - i,
    {
        assert(all[i as int] == args@[i as int]@);
        let a = args[i].as_str();
        if !(same(a, "-l") || same(a, "--list") || same(a, "--launch") || same(a, "--paths")) {
            return Some(args[i].clone());
        }
        i = i + 1;
    }
    None
}

/// What the arguments ask for.
pub fn command(args: &Vec<String>) -> (r: Command)
    ensures
        r@ == asked(texts(args@)),
{
    let n: usize = args.len();
    if position(args, "-h").is_some() || position(args, "--help").is_some() {
        return Command::Help;
    }
    if begins_with(args, "export") {
        return Command::Export { name: argument_at(args, 1), dest: argument_at(args, 2) };
    }
    if begins_with(args, "import") {
        let as_name = match position(args, "--as") {
            Some(i) => argument_at(args, i + 1),
            None => None,
        };
        return Command::Import { file: argument_at(args, 1), as_name };
    }
    if begins_with(args, "used-mods") {
        return Command::UsedMods;
    }
    match unknown_argument(args) {
        Some(a) => Command::Unknown(a),
        None => if position(args, "--paths").is_some() {
            Command::Paths
        } else if position(args, "--launch").is_some() {
            Command::Launch
        } else if n > 0 {
            Command::List
        } else {
            Command::Manage
        },
    }
}

/// The setting for the thumbnails, as it is shown.
pub open spec fn images_setting(s: Settings) -> Seq<char> {
    match s.value("TWWH3_IMAGES"@, "images"@) {
        Some(v) => v,
        None => "auto"@,
    }
}

/// The listing of all paths, given whether the config file is there and where
/// the game was found.
pub open spec fn paths_text(s: Settings, config_exists: bool, game: Option<Seq<char>>) -> Seq<char> {
    "config file:  "@ + config_path(s) + (if config_exists {
        "\n"@
    } else {
        "  (not present)\n"@
    }) + "steam_root:   "@ + s.steam() + "\n"@ + "data_dir:     "@ + s.data() + "\n"@
        + "moddata:      "@ + s.moddata() + "\n"@ + "workshop:     "@ + s.workshop() + "\n"@
        + "game_dir:     "@ + (match game {
        Some(d) => d,
        None => "(not found)"@,
    }) + "\n"@ + "modlists:     "@ + s.modlists() + "\n"@ + "versioned_workshop_mods: "@
        + s.versioned_mods() + "\n"@ + "local_mods:   "@ + s.local_mods() + "\n"@
        + "staging:      "@ + s.staging() + "\n"@ + "images:       "@ + images_setting(s) + "\n"@
}

/// The listing of all paths.
pub fn paths_listing(s: &Settings, config_exists: bool, game: Option<&str>) -> (r: String)
    ensures
        r@ == paths_text(
            *s,
            config_exists,
            match game {
                Some(d) => Some(d@),
                None => None,
            },
        ),
{
    let images = match setting(s, "TWWH3_IMAGES", "images") {
        Some(v) => v,
        None => "auto".to_owned(),
    };
    "config file:  ".to_owned().concat(config_file(s).as_str()).concat(
        if config_exists {
            "\n"
        } else {
            "  (not present)\n"
        },
    ).concat("steam_root:   ").concat(steam_root(s).as_str()).concat("\n").concat(
        "data_dir:     ",
    ).concat(data_dir(s).as_str()).concat("\n").concat("moddata:      ").concat(
        moddata_path(s).as_str(),
    ).concat("\n").concat("workshop:     ").concat(workshop_dir(s).as_str()).concat("\n").concat(
        "game_dir:     ",
    ).concat(
        match game {
            Some(d) => d,
            None => "(not found)",
        },
    ).concat("\n").concat("modlists:     ").concat(modlists_dir(s).as_str()).concat("\n").concat(
        "versioned_workshop_mods: ",
    ).concat(versioned_mods_dir(s).dir.as_str()).concat("\n").concat("local_mods:   ").concat(
        local_mods_dir(s).dir.as_str(),
    ).concat("\n").concat("staging:      ").concat(staging_dir(s).as_str()).concat("\n").concat(
        "images:       ",
    ).concat(images.as_str()).concat("\n")
}

/// How thumbnails are drawn.
#[derive(Clone, Copy, PartialEq, Eq, Structural)]
pub enum Images {
    /// Not at all.
    Off,
    /// With half blocks.
    Halfblocks,
    /// As the terminal says that it can.
    Ask,
}

/// How thumbnails are to be drawn, given the setting.
pub open spec fn images_of(value: Option<Seq<char>>) -> Images {
    match value {
        Some(v) => if v == "off"@ {
            Images::Off
        } else if v == "halfblocks"@ {
            Images::Halfblocks
        } else {
            Images::Ask
        },
        None => Images::Ask,
    }
}

/// How thumbnails are to be drawn. Only `off` and `halfblocks` keep the program
/// from asking the terminal.
pub fn image_mode(s: &Settings) -> (r: Images)
    ensures
        r == (if s.value("TWWH3_IMAGES"@, "images"@) == Some("off"@) {
            Images::Off
        } else if s.value("TWWH3_IMAGES"@, "images"@) == Some("halfblocks"@) {
            Images::Halfblocks
        } else {
            Images::Ask
        }),
        r == images_of(s.value("TWWH3_IMAGES"@, "images"@)),
{
    match setting(s, "TWWH3_IMAGES", "images") {
        Some(v) => if same(v.as_str(), "off") {
            Images::Off
        } else if same(v.as_str(), "halfblocks") {
            Images::Halfblocks
        } else {
            Images::Ask
        },
        None => Images::Ask,
    }
}

/// The argument at `i` is the first that is none of the options.
pub open spec fn is_first_stranger(args: Seq<Seq<char>>, i: int) -> bool {
    let known = set!["-l"@, "--list"@, "--launch"@, "--paths"@];
    0 <= i < args.len() && !known.contains(args[i]) && forall|j: int|
        0 <= j < i ==> known.contains(#[trigger] args[j])
}

/// The word that begins the arguments, unless they ask for help.
pub open spec fn begins(args: Seq<Seq<char>>, word: Seq<char>) -> bool {
    args.len() > 0 && args[0] == word && !args.contains("-h"@) && !args.contains("--help"@)
}

proof fn lemma_first_unknown(args: Seq<Seq<char>>, from: int)
    requires
        0 <= from,
    ensures
        match first_unknown(args, from) {
            Some(a) => exists|i: int|
                from <= i < args.len() && #[trigger] args[i] == a && !is_option(a) && forall|j: int|
                    from <= j < i ==> is_option(#[trigger] args[j]),
            None => forall|j: int| from <= j < args.len() ==> is_option(#[trigger] args[j]),
        },
    decreases args.len() - from,
{
    if from < args.len() {
        if is_option(args[from]) {
            lemma_first_unknown(args, from + 1);
            match first_unknown(args, from + 1) {
                Some(a) => {
                    let i = choose|i: int|
                        from + 1 <= i < args.len() && #[trigger] args[i] == a && !is_option(a)
                            && forall|j: int| from + 1 <= j < i ==> is_option(#[trigger] args[j]);
                    assert(args[i] == a);
                },
                None => {},
            }
        } else {
            assert(args[from] == args[from]);
        }
    }
}

/// Each command is asked for by its arguments and by no others: help before all
/// else, then the word that begins them, then what nothing knows, and then the
/// options.
pub proof fn arguments_ask_for_commands(args: Seq<Seq<char>>)
    ensures
        ({
            let r = asked(args);
            let worded = begins(args, "export"@) || begins(args, "import"@) || begins(
                args,
                "used-mods"@,
            );
            let help = args.contains("-h"@) || args.contains("--help"@);
            let strange = exists|i: int| is_first_stranger(args, i);
            let plain = !help && !worded && !strange;
            &&& r is Help <==> help
            &&& r is Export <==> begins(args, "export"@)
            &&& r is Import <==> begins(args, "import"@)
            &&& r is UsedMods <==> begins(args, "used-mods"@)
            &&& r is Unknown <==> !help && !worded && strange
            &&& r is Unknown ==> forall|i: int| #[trigger]
                is_first_stranger(args, i) ==> r == CommandView::Unknown(args[i])
            &&& r is Paths <==> plain && args.contains("--paths"@)
            &&& r is Launch <==> plain && args.contains("--launch"@) && !args.contains("--paths"@)
            &&& r is List <==> plain && args.len() > 0 && !args.contains("--launch"@)
                && !args.contains("--paths"@)
            &&& r is Manage <==> args.len() == 0
        }),
{
    lemma_first_unknown(args, 0);
    assert("export"@ != "import"@ && "export"@ != "used-mods"@ && "import"@ != "used-mods"@) by {
        reveal_strlit("export");
        reveal_strlit("import");
        reveal_strlit("used-mods");
        assert("export"@[0] == 'e' && "import"@[0] == 'i' && "used-mods"@[0] == 'u');
    }
    let known = set!["-l"@, "--list"@, "--launch"@, "--paths"@];
    assert forall|a: Seq<char>| is_option(a) == #[trigger] known.contains(a) by {}
    assert forall|i: int| is_first_stranger(args, i) implies first_unknown(args, 0) == Some(args[i])
    by {
        match first_unknown(args, 0) {
            Some(a) => {
                let k = choose|k: int|
                    0 <= k < args.len() && #[trigger] args[k] == a && !is_option(a) && forall|j: int|
                        0 <= j < k ==> is_option(#[trigger] args[j]);
                assert(!known.contains(args[k]));
                if k < i {
                    assert(known.contains(args[k]));
                }
                if i < k {
                    assert(is_option(args[i]));
                }
            },
            None => {
                assert(is_option(args[i]));
            },
        }
    }
    match first_unknown(args, 0) {
        Some(a) => {
            let k = choose|k: int|
                0 <= k < args.len() && #[trigger] args[k] == a && !is_option(a) && forall|j: int|
                    0 <= j < k ==> is_option(#[trigger] args[j]);
            assert forall|j: int| 0 <= j < k implies known.contains(#[trigger] args[j]) by {
                assert(is_option(args[j]));
            }
            assert(is_first_stranger(args, k));
        },
        None => {},
    }
}

/// An export is given its profile and its folder, and an import its file, by
/// their places; the name of an import follows the first `--as`.
pub proof fn commands_take_their_arguments(args: Seq<Seq<char>>)
    ensures
        asked(args) matches CommandView::Export { name, dest } ==> {
            &&& name == if args.len() > 1 {
                Some(args[1])
            } else {
                None
            }
            &&& dest == if args.len() > 2 {
                Some(args[2])
            } else {
                None
            }
        },
        asked(args) matches CommandView::Import { file, as_name } ==> {
            &&& file == if args.len() > 1 {
                Some(args[1])
            } else {
                None
            }
            &&& !args.contains("--as"@) ==> as_name is None
            &&& forall|i: int|
                0 <= i < args.len() && #[trigger] args[i] == "--as"@ && (forall|j: int|
                    0 <= j < i ==> #[trigger] args[j] != "--as"@) ==> as_name == if i + 1
                    < args.len() {
                    Some(args[i + 1])
                } else {
                    None
                }
        },
{
    lemma_first_place(args, "--as"@, 0);
}

proof fn lemma_first_place(args: Seq<Seq<char>>, x: Seq<char>, from: int)
    requires
        0 <= from,
    ensures
        match first_at(args, x, from) {
            Some(i) => from <= i < args.len() && args[i] == x && forall|j: int|
                from <= j < i ==> #[trigger] args[j] != x,
            None => forall|k: int| from <= k < args.len() ==> #[trigger] args[k] != x,
        },
    decreases args.len() - from,
{
    if from < args.len() && args[from] != x {
        lemma_first_place(args, x, from + 1);
    }
}

/// The terminal is asked unless the setting is `off` or `halfblocks`, and no
/// thumbnail is drawn only where it is `off`.
pub proof fn the_terminal_is_asked_by_default(value: Option<Seq<char>>)
    ensures
        images_of(value) == Images::Off <==> value == Some("off"@),
        images_of(value) == Images::Halfblocks <==> value == Some("halfblocks"@),
        images_of(value) == Images::Ask <==> value != Some("off"@) && value != Some(
            "halfblocks"@,
        ),
{
    reveal_strlit("off");
    reveal_strlit("halfblocks");
    assert("off"@.len() == 3 && "halfblocks"@.len() == 10);
}

/// A line of the listing of paths.
pub open spec fn listed_path(label: Seq<char>, value: Seq<char>) -> Seq<char> {
    label + value + "\n"@
}

/// The listing of paths has a line for every path.
pub proof fn every_path_is_listed(s: Settings, game: Seq<char>)
    ensures
        paths_text(s, true, Some(game)) == seq![
            listed_path("config file:  "@, config_path(s)),
            listed_path("steam_root:   "@, s.steam()),
            listed_path("data_dir:     "@, s.data()),
            listed_path("moddata:      "@, s.moddata()),
            listed_path("workshop:     "@, s.workshop()),
            listed_path("game_dir:     "@, game),
            listed_path("modlists:     "@, s.modlists()),
            listed_path("versioned_workshop_mods: "@, s.versioned_mods()),
            listed_path("local_mods:   "@, s.local_mods()),
            listed_path("staging:      "@, s.staging()),
            listed_path("images:       "@, images_setting(s)),
        ].flatten(),
        s.env@.contains_key("TWWH3_IMAGES"@) ==> images_setting(s) == s.env@["TWWH3_IMAGES"@]@,
        !s.env@.contains_key("TWWH3_IMAGES"@) && s.config@.contains_key("images"@)
            ==> images_setting(s) == s.config@["images"@]@,
        !s.env@.contains_key("TWWH3_IMAGES"@) && !s.config@.contains_key("images"@)
            ==> images_setting(s) == "auto"@,
{
    let r0 = Seq::<Seq<char>>::empty();
    let t0 = Seq::<char>::empty();
    assert(r0.flatten() =~= t0);
    let (r1, t1) = lemma_line_added(r0, t0, "config file:  "@, config_path(s));
    let (r2, t2) = lemma_line_added(r1, t1, "steam_root:   "@, s.steam());
    let (r3, t3) = lemma_line_added(r2, t2, "data_dir:     "@, s.data());
    let (r4, t4) = lemma_line_added(r3, t3, "moddata:      "@, s.moddata());
    let (r5, t5) = lemma_line_added(r4, t4, "workshop:     "@, s.workshop());
    let (r6, t6) = lemma_line_added(r5, t5, "game_dir:     "@, game);
    let (r7, t7) = lemma_line_added(r6, t6, "modlists:     "@, s.modlists());
    let (r8, t8) = lemma_line_added(r7, t7, "versioned_workshop_mods: "@, s.versioned_mods());
    let (r9, t9) = lemma_line_added(r8, t8, "local_mods:   "@, s.local_mods());
    let (r10, t10) = lemma_line_added(r9, t9, "staging:      "@, s.staging());
    let (r11, t11) = lemma_line_added(r10, t10, "images:       "@, images_setting(s));
    assert(t1 =~= "config file:  "@ + config_path(s) + "\n"@);
    assert(t11 == paths_text(s, true, Some(game)));
    assert(r11 =~= seq![
        listed_path("config file:  "@, config_path(s)),
        listed_path("steam_root:   "@, s.steam()),
        listed_path("data_dir:     "@, s.data()),
        listed_path("moddata:      "@, s.moddata()),
        listed_path("workshop:     "@, s.workshop()),
        listed_path("game_dir:     "@, game),
        listed_path("modlists:     "@, s.modlists()),
        listed_path("versioned_workshop_mods: "@, s.versioned_mods()),
        listed_path("local_mods:   "@, s.local_mods()),
        listed_path("staging:      "@, s.staging()),
        listed_path("images:       "@, images_setting(s)),
    ]);
}

proof fn lemma_line_added(
    rows: Seq<Seq<char>>,
    text: Seq<char>,
    label: Seq<char>,
    value: Seq<char>,
) -> (r: (Seq<Seq<char>>, Seq<char>))
    requires
        rows.flatten() == text,
    ensures
        r.0 == rows.push(listed_path(label, value)),
        r.1 == text + label + value + "\n"@,
        r.0.flatten() == r.1,
{
    rows.lemma_flatten_push(listed_path(label, value));
    assert(text + listed_path(label, value) =~= text + label + value + "\n"@);
    (rows.push(listed_path(label, value)), text + label + value + "\n"@)
}

} // verus!
