//! Steam metadata: VDF/ACF parsing, and the launcher's mod list, which is only
//! ever read.

use vstd::prelude::*;
use vstd::string::StringExecFns;

use crate::json::{parse_json, parsed_json, Json, JsonView};
use crate::paths::{join_path, path_join, path_setting, steam_root, Settings, APPID};
use crate::strmap::StrMap;
use crate::text::{
    all_digits, decimal, digit, is_all_digits, lines, lines_follow_lines, lines_of, lowercase,
    opt_text, parse_u64, same, split, split_at_separator, split_on, texts, to_chars, to_decimal,
    to_lowercase, trim, trimmed, trimming_keeps_the_middle, u64_of, unsplit_text, white, CharClass,
};

verus! {

/// The game's name in the launcher's mod list.
pub const GAME: &'static str = "warhammer3";

/// What stands between the quotes of a line.
pub open spec fn quoted(line: Seq<char>) -> Seq<Seq<char>> {
    split_on(trimmed(line), CharClass::Exactly('"'))
}

/// The value of a `"key" "value"` line.
pub open spec fn vdf_value(line: Seq<char>, key: Seq<char>) -> Option<Seq<char>> {
    if quoted(line).len() >= 4 && quoted(line)[1] == key {
        Some(quoted(line)[3])
    } else {
        None
    }
}

/// The value on the first line that gives one for `key`.
pub open spec fn first_vdf_value(lines: Seq<Seq<char>>, key: Seq<char>) -> Option<Seq<char>>
    decreases lines.len(),
{
    if lines.len() == 0 {
        None
    } else {
        match vdf_value(lines[0], key) {
            Some(v) => Some(v),
            None => first_vdf_value(lines.drop_first(), key),
        }
    }
}

/// The first `"key" "value"` line anywhere in a VDF document.
pub fn vdf_str(text: &str, key: &str) -> (r: Option<String>)
    ensures
        opt_text(r) == first_vdf_value(lines_of(text@), key@),
{
    let ls = lines(text);
    let ghost all = lines_of(text@);
    let mut i: usize = 0;
    assert(all.skip(0) =~= all);
    while i < ls.len()
        invariant
            i <= ls@.len(),
            texts(ls@) == all,
            first_vdf_value(all, key@) == first_vdf_value(all.skip(i as int), key@),
            all == lines_of(text@),
        decreases ls@.len() - i,
    {
        let p = split(trim(ls[i].as_str()).as_str(), CharClass::Exactly('"'));
        proof {
            assert(all.skip(i as int)[0] == ls@[i as int]@);
            assert(all.skip(i as int).drop_first() =~= all.skip(i + 1));
            assert(texts(p@) == quoted(all[i as int]));
            assert(p@.len() == quoted(all[i as int]).len());
        }
        if p.len() >= 4 {
            assert(quoted(all[i as int])[1] == p@[1]@);
            assert(quoted(all[i as int])[3] == p@[3]@);
            if same(p[1].as_str(), key) {
                return Some(p[3].clone());
            }
        }
        i = i + 1;
    }
    None
}

/// What Steam knows of an installed Workshop item.
pub struct WsInfo {
    pub size: u64,
    pub timeupdated: u64,
    /// Steam's depot manifest id. It changes with every update of the item, so
    /// it identifies an exact version of a mod.
    pub manifest: String,
}

/// What is said of an installed Workshop item.
pub struct WsView {
    pub size: u64,
    pub timeupdated: u64,
    pub manifest: Seq<char>,
}

impl View for WsInfo {
    type V = WsView;

    open spec fn view(&self) -> WsView {
        WsView { size: self.size, timeupdated: self.timeupdated, manifest: self.manifest@ }
    }
}

/// Nothing known of an item.
pub open spec fn ws_unknown() -> WsView {
    WsView { size: 0, timeupdated: 0, manifest: Seq::empty() }
}

impl WsInfo {
    /// Nothing known of an item.
    pub fn unknown() -> (r: WsInfo)
        ensures
            r@ == ws_unknown(),
    {
        let r = WsInfo { size: 0, timeupdated: 0, manifest: String::new() };
        assert(r.manifest@ =~= Seq::<char>::empty());
        r
    }

    /// The same information once more.
    pub fn copy(&self) -> (r: WsInfo)
        ensures
            r@ == self@,
    {
        WsInfo { size: self.size, timeupdated: self.timeupdated, manifest: self.manifest.clone() }
    }
}

/// What the keys of a map are said to be.
pub open spec fn ws_views(m: Map<Seq<char>, WsInfo>) -> Map<Seq<char>, WsView> {
    m.map_values(|w: WsInfo| w@)
}

/// Field by field, what `info` knows replaces what was known: a block that
/// leaves a field out cannot wipe it out.
pub open spec fn ws_merged(known: WsView, info: WsView) -> WsView {
    WsView {
        size: if info.size != 0 {
            info.size
        } else {
            known.size
        },
        timeupdated: if info.timeupdated != 0 {
            info.timeupdated
        } else {
            known.timeupdated
        },
        manifest: if info.manifest.len() > 0 {
            info.manifest
        } else {
            known.manifest
        },
    }
}

/// How far an ACF document has been read: the finished items, an item id that
/// awaits its block, the item whose block is open, and the nesting of blocks.
pub struct AcfState {
    pub items: Map<Seq<char>, WsView>,
    pub pending: Option<Seq<char>>,
    pub open: Option<(Seq<char>, WsView)>,
    pub depth: int,
    pub open_depth: int,
}

/// The number that a field gives, or 0.
pub open spec fn field_number(s: Seq<char>) -> u64 {
    match u64_of(s) {
        Some(n) => n,
        None => 0,
    }
}

/// What a `"field" "value"` line adds to an item.
pub open spec fn ws_with_field(w: WsView, field: Seq<char>, value: Seq<char>) -> WsView {
    if field == "size"@ {
        WsView { size: field_number(value), ..w }
    } else if field == "timeupdated"@ {
        WsView { timeupdated: field_number(value), ..w }
    } else if field == "manifest"@ {
        WsView { manifest: value, ..w }
    } else {
        w
    }
}

/// The items with one more block read for the item `id`.
pub open spec fn ws_entered(
    items: Map<Seq<char>, WsView>,
    id: Seq<char>,
    info: WsView,
) -> Map<Seq<char>, WsView> {
    items.insert(
        id,
        ws_merged(
            if items.contains_key(id) {
                items[id]
            } else {
                ws_unknown()
            },
            info,
        ),
    )
}

/// Read one line of an ACF document. A number of six or more digits names an
/// item; the block that follows it describes the item; each `"field" "value"`
/// line inside adds to it; and the end of the block enters the item.
pub open spec fn acf_line(st: AcfState, raw: Seq<char>) -> AcfState {
    let line = trimmed(raw);
    let p = split_on(line, CharClass::Exactly('"'));
    if line == "{"@ {
        let opens = st.open is None && st.pending is Some;
        AcfState {
            depth: st.depth + 1,
            pending: None,
            open: if opens {
                Some((st.pending->0, ws_unknown()))
            } else {
                st.open
            },
            open_depth: if opens {
                st.depth + 1
            } else {
                st.open_depth
            },
            ..st
        }
    } else if line == "}"@ {
        let closes = st.depth == st.open_depth && st.open is Some;
        AcfState {
            depth: st.depth - 1,
            items: if closes {
                ws_entered(st.items, (st.open->0).0, (st.open->0).1)
            } else {
                st.items
            },
            open: if closes {
                None
            } else {
                st.open
            },
            ..st
        }
    } else if p.len() >= 4 {
        match st.open {
            Some((id, w)) => AcfState { open: Some((id, ws_with_field(w, p[1], p[3]))), ..st },
            None => st,
        }
    } else if p.len() >= 2 && p[1].len() >= 6 && all_digits(p[1]) {
        AcfState { pending: Some(p[1]), ..st }
    } else {
        AcfState { pending: None, ..st }
    }
}

/// Read the lines of an ACF document.
pub open spec fn acf_read(lines: Seq<Seq<char>>) -> AcfState
    decreases lines.len(),
{
    if lines.len() == 0 {
        AcfState {
            items: Map::empty(),
            pending: None,
            open: None,
            depth: 0,
            open_depth: 0,
        }
    } else {
        acf_line(acf_read(lines.drop_last()), lines.last())
    }
}

/// The open item of a reading.
pub open spec fn open_view(o: Option<(String, WsInfo)>) -> Option<(Seq<char>, WsView)> {
    match o {
        Some(p) => Some((p.0@, p.1@)),
        None => None,
    }
}

/// Enter what one block says of an item.
fn enter_item(map: &mut StrMap<WsInfo>, id: String, info: WsInfo)
    ensures
        ws_views(final(map)@) == ws_entered(ws_views(old(map)@), id@, info@),
{
    let mut known = match map.get(id.as_str()) {
        Some(w) => w.copy(),
        None => WsInfo::unknown(),
    };
    if info.size != 0 {
        known.size = info.size;
    }
    if info.timeupdated != 0 {
        known.timeupdated = info.timeupdated;
    }
    if !info.manifest.as_str().is_empty() {
        known.manifest = info.manifest;
    }
    let ghost m0 = map@;
    map.insert(id, known);
    assert(ws_views(map@) =~= ws_views(m0).insert(id@, known@));
}

/// Size, update time and manifest of every item in an `appworkshop` ACF
/// document.
pub fn parse_workshop_acf(text: &str) -> (r: StrMap<WsInfo>)
    ensures
        ws_views(r@) == acf_read(lines_of(text@)).items,
{
    let ls = lines(text);
    let ghost all = lines_of(text@);
    let mut map: StrMap<WsInfo> = StrMap::new();
    let mut pending: Option<String> = None;
    let mut open: Option<(String, WsInfo)> = None;
    let mut depth: i128 = 0;
    let mut open_depth: i128 = 0;
    let mut i: usize = 0;
    assert(all.take(0) =~= Seq::<Seq<char>>::empty());
    assert(ws_views(map@) =~= Map::<Seq<char>, WsView>::empty());
    while i < ls.len()
        invariant
            i <= ls@.len(),
            texts(ls@) == all,
            -i <= depth <= i,
            ws_views(map@) == acf_read(all.take(i as int)).items,
            opt_text(pending) == acf_read(all.take(i as int)).pending,
            open_view(open) == acf_read(all.take(i as int)).open,
            depth == acf_read(all.take(i as int)).depth,
            open_depth == acf_read(all.take(i as int)).open_depth,
        decreases ls@.len() - i,
    {
        let ghost st = acf_read(all.take(i as int));
        proof {
            assert(all.take(i + 1).drop_last() =~= all.take(i as int));
            assert(all.take(i + 1).last() == ls@[i as int]@);
        }
        let line = trim(ls[i].as_str());
        if same(line.as_str(), "{") {
            depth = depth + 1;
            match (open, pending) {
                (None, Some(id)) => {
                    open = Some((id, WsInfo::unknown()));
                    open_depth = depth;
                },
                (o, _) => {
                    open = o;
                },
            }
            pending = None;
        } else if same(line.as_str(), "}") {
            if depth == open_depth {
                match open {
                    Some((id, info)) => {
                        enter_item(&mut map, id, info);
                    },
                    None => {},
                }
                open = None;
            }
            depth = depth - 1;
        } else {
            let p = split(line.as_str(), CharClass::Exactly('"'));
            let ghost ps = split_on(line@, CharClass::Exactly('"'));
            assert(ps.len() == p@.len());
            if p.len() >= 4 {
                assert(ps[1] == p@[1]@ && ps[3] == p@[3]@);
                match open {
                    Some((id, info)) => {
                        let mut w = info;
                        if same(p[1].as_str(), "size") {
                            w.size = match parse_u64(p[3].as_str()) {
                                Some(n) => n,
                                None => 0,
                            };
                        } else if same(p[1].as_str(), "timeupdated") {
                            w.timeupdated = match parse_u64(p[3].as_str()) {
                                Some(n) => n,
                                None => 0,
                            };
                        } else if same(p[1].as_str(), "manifest") {
                            w.manifest = p[3].clone();
                        }
                        open = Some((id, w));
                    },
                    None => {
                        open = None;
                    },
                }
            } else if p.len() >= 2 && to_chars(p[1].as_str()).len() >= 6 && is_all_digits(
                p[1].as_str(),
            ) {
                assert(ps[1] == p@[1]@);
                pending = Some(p[1].clone());
            } else {
                assert(p@.len() >= 2 ==> ps[1] == p@[1]@);
                pending = None;
            }
        }
        i = i + 1;
    }
    assert(all.take(i as int) =~= all);
    map
}

/// The path of Steam's record of the game's Workshop items.
pub fn workshop_acf_path(s: &Settings) -> (r: String)
    ensures
        r@ == path_join(
            s.steam(),
            "steamapps/workshop/appworkshop_"@ + decimal(APPID as nat) + ".acf"@,
        ),
{
    let rel = "steamapps/workshop/appworkshop_".to_owned().concat(
        to_decimal(APPID as u64).as_str(),
    ).concat(".acf");
    join_path(steam_root(s).as_str(), rel.as_str())
}

/// The path of Steam's record of the installed game.
pub fn game_manifest_path(s: &Settings) -> (r: String)
    ensures
        r@ == path_join(
            s.steam(),
            "steamapps/appmanifest_"@ + decimal(APPID as nat) + ".acf"@,
        ),
{
    let rel = "steamapps/appmanifest_".to_owned().concat(to_decimal(APPID as u64).as_str()).concat(
        ".acf",
    );
    join_path(steam_root(s).as_str(), rel.as_str())
}

/// What Steam's record of the Workshop items says; nothing, where there is no
/// record.
pub fn load_workshop_info(acf: Option<&str>) -> (r: StrMap<WsInfo>)
    ensures
        ws_views(r@) == (match acf {
            Some(t) => acf_read(lines_of(t@)).items,
            None => Map::empty(),
        }),
{
    match acf {
        Some(t) => parse_workshop_acf(t),
        None => {
            let m: StrMap<WsInfo> = StrMap::new();
            assert(ws_views(m@) =~= Map::<Seq<char>, WsView>::empty());
            m
        },
    }
}

/// The installed build of the game.
pub fn load_game_buildid(manifest: Option<&str>) -> (r: Option<String>)
    ensures
        opt_text(r) == build_of(
            match manifest {
                Some(t) => Some(t@),
                None => None,
            },
        ),
        opt_text(r) == (match manifest {
            Some(t) => first_vdf_value(lines_of(t@), "buildid"@),
            None => None,
        }),
{
    match manifest {
        Some(t) => vdf_str(t, "buildid"),
        None => None,
    }
}

/// Where the game should be installed: by the settings, or else by Steam's
/// record of the game. It counts only if it is a directory.
pub fn game_install_dir(s: &Settings, manifest: Option<&str>) -> (r: Option<String>)
    ensures
        opt_text(r) == game_dir(
            *s,
            match manifest {
                Some(t) => Some(t@),
                None => None,
            },
        ),
        opt_text(r) == (match s.path("TWWH3_GAME"@, "game_dir"@) {
            Some(p) => Some(p),
            None => match manifest {
                Some(t) => match first_vdf_value(lines_of(t@), "installdir"@) {
                    Some(d) => Some(path_join(path_join(s.steam(), "steamapps/common"@), d)),
                    None => None,
                },
                None => None,
            },
        }),
{
    match path_setting(s, "TWWH3_GAME", "game_dir") {
        Some(p) => Some(p),
        None => match manifest {
            Some(t) => match vdf_str(t, "installdir") {
                Some(d) => {
                    let common = join_path(steam_root(s).as_str(), "steamapps/common");
                    Some(join_path(common.as_str(), d.as_str()))
                },
                None => None,
            },
            None => None,
        },
    }
}

/// What the launcher recorded of a pack. Used for Workshop names and
/// descriptions and to seed the first load order.
pub struct ModMeta {
    pub name: String,
    pub category: String,
    pub short: String,
    pub active: bool,
    pub order: i64,
}

/// What is said of a pack.
pub struct MetaView {
    pub name: Seq<char>,
    pub category: Seq<char>,
    pub short: Seq<char>,
    pub active: bool,
    pub order: i64,
}

impl View for ModMeta {
    type V = MetaView;

    open spec fn view(&self) -> MetaView {
        MetaView {
            name: self.name@,
            category: self.category@,
            short: self.short@,
            active: self.active,
            order: self.order,
        }
    }
}

/// The text of a member, or nothing.
pub open spec fn text_or_empty(j: JsonView, key: Seq<char>) -> Seq<char> {
    match j.text_at(key) {
        Some(s) => s,
        None => Seq::empty(),
    }
}

/// What one item of the launcher's list says, if it belongs to the game: the
/// pack's lower-case name, and the rest.
pub open spec fn meta_item(j: JsonView) -> Option<(Seq<char>, MetaView)> {
    if j.text_at("game"@) == Some(GAME@) {
        match j.text_at("uuid"@) {
            Some(uuid) => Some(
                (
                    lowercase(uuid),
                    MetaView {
                        name: text_or_empty(j, "name"@),
                        category: text_or_empty(j, "category"@),
                        short: text_or_empty(j, "short"@),
                        active: match j.flag_at("active"@) {
                            Some(b) => b,
                            None => false,
                        },
                        order: match j.signed_at("order"@) {
                            Some(n) => n,
                            None => i64::MAX,
                        },
                    },
                ),
            ),
            None => None,
        }
    } else {
        None
    }
}

/// What a launcher's list says of each pack; a later item for a pack replaces
/// an earlier one.
pub open spec fn meta_items(items: Seq<JsonView>) -> Map<Seq<char>, MetaView>
    decreases items.len(),
{
    if items.len() == 0 {
        Map::empty()
    } else {
        match meta_item(items.last()) {
            Some((k, m)) => meta_items(items.drop_last()).insert(k, m),
            None => meta_items(items.drop_last()),
        }
    }
}

/// The packs of a launcher's list in the order in which they first come in it,
/// each with what the list says of it last.
pub open spec fn meta_list(items: Seq<JsonView>) -> Seq<(Seq<char>, MetaView)>
    decreases items.len(),
{
    if items.len() == 0 {
        Seq::empty()
    } else {
        let rest = meta_list(items.drop_last());
        match meta_item(items.last()) {
            Some((k, m)) => if meta_items(items.drop_last()).contains_key(k) {
                rest.map_values(
                    |p: (Seq<char>, MetaView)|
                        if p.0 == k {
                            (k, m)
                        } else {
                            p
                        },
                )
            } else {
                rest.push((k, m))
            },
            None => rest,
        }
    }
}

/// The packs of a launcher's document, in its order.
pub open spec fn meta_order(root: JsonView) -> Seq<(Seq<char>, MetaView)> {
    match root.items() {
        Some(a) => meta_list(a),
        None => Seq::empty(),
    }
}

/// What the entries of a map are said to be.
pub open spec fn meta_pairs(items: Seq<(Seq<char>, ModMeta)>) -> Seq<(Seq<char>, MetaView)> {
    items.map_values(|p: (Seq<char>, ModMeta)| (p.0, p.1@))
}

/// What a launcher's document says of each pack. A document that is no list
/// says nothing.
pub open spec fn meta_doc(root: JsonView) -> Map<Seq<char>, MetaView> {
    match root.items() {
        Some(a) => meta_items(a),
        None => Map::empty(),
    }
}

/// What the keys of a map are said to be.
pub open spec fn meta_views(m: Map<Seq<char>, ModMeta>) -> Map<Seq<char>, MetaView> {
    m.map_values(|w: ModMeta| w@)
}

/// The text of a member, or nothing.
fn str_or_empty(j: &Json, key: &str) -> (r: String)
    ensures
        r@ == text_or_empty(j@, key@),
{
    match j.str_at(key) {
        Some(s) => s,
        None => {
            let s = String::new();
            assert(s@ =~= Seq::<char>::empty());
            s
        },
    }
}

/// What one item of the launcher's list says.
fn read_meta_item(j: &Json) -> (r: Option<(String, ModMeta)>)
    ensures
        match r {
            Some(p) => meta_item(j@) == Some((p.0@, p.1@)),
            None => meta_item(j@) is None,
        },
{
    match j.str_at("game") {
        Some(g) => if !same(g.as_str(), GAME) {
            return None;
        },
        None => {
            return None;
        },
    }
    match j.str_at("uuid") {
        Some(uuid) => {
            let meta = ModMeta {
                name: str_or_empty(j, "name"),
                category: str_or_empty(j, "category"),
                short: str_or_empty(j, "short"),
                active: match j.bool_at("active") {
                    Some(b) => b,
                    None => false,
                },
                order: match j.i64_at("order") {
                    Some(n) => n,
                    None => i64::MAX,
                },
            };
            Some((to_lowercase(uuid.as_str()), meta))
        },
        None => None,
    }
}

/// What a launcher's document says of each pack, in its order.
pub fn moddata_meta(root: &Json) -> (r: StrMap<ModMeta>)
    ensures
        meta_views(r@) == meta_doc(root@),
        meta_pairs(r.items()) == meta_order(root@),
{
    let mut map: StrMap<ModMeta> = StrMap::new();
    assert(meta_views(map@) =~= Map::<Seq<char>, MetaView>::empty());
    assert(meta_pairs(map.items()) =~= Seq::<(Seq<char>, MetaView)>::empty());
    match root.as_array() {
        Some(a) => {
            let ghost items = a@.map_values(|j: Json| j@);
            let mut i: usize = 0;
            assert(items.take(0) =~= Seq::<JsonView>::empty());
            while i < a.len()
                invariant
                    i <= a@.len(),
                    items == a@.map_values(|j: Json| j@),
                    meta_views(map@) == meta_items(items.take(i as int)),
                    meta_pairs(map.items()) == meta_list(items.take(i as int)),
                decreases a@.len() - i,
            {
                proof {
                    assert(items.take(i + 1).drop_last() =~= items.take(i as int));
                    assert(items.take(i + 1).last() == a@[i as int]@);
                }
                match read_meta_item(&a[i]) {
                    Some((k, m)) => {
                        let ghost m0 = map@;
                        let ghost i0 = map.items();
                        map.insert(k, m);
                        proof {
                            assert(meta_views(map@) =~= meta_views(m0).insert(k@, m@));
                            assert(meta_views(m0).contains_key(k@) == m0.contains_key(k@));
                            if m0.contains_key(k@) {
                                assert(meta_pairs(map.items()) =~= meta_pairs(i0).map_values(
                                    |p: (Seq<char>, MetaView)|
                                        if p.0 == k@ {
                                            (k@, m@)
                                        } else {
                                            p
                                        },
                                ));
                            } else {
                                assert(meta_pairs(map.items()) =~= meta_pairs(i0).push((k@, m@)));
                            }
                        }
                    },
                    None => {},
                }
                i = i + 1;
            }
            assert(items.take(i as int) =~= items);
        },
        None => {},
    }
    map
}

/// Read the launcher's list of mods. A list that is missing or unreadable says
/// nothing.
pub fn read_moddata_meta(text: Option<&str>) -> (r: StrMap<ModMeta>)
    ensures
        meta_views(r@) == (match text {
            Some(t) => match parsed_json(t@) {
                Some(root) => meta_doc(root),
                None => Map::empty(),
            },
            None => Map::empty(),
        }),
        meta_pairs(r.items()) == (match text {
            Some(t) => match parsed_json(t@) {
                Some(root) => meta_order(root),
                None => Seq::empty(),
            },
            None => Seq::empty(),
        }),
{
    match text {
        Some(t) => match parse_json(t) {
            Ok(root) => {
                return moddata_meta(&root);
            },
            Err(_) => {},
        },
        None => {},
    }
    let map: StrMap<ModMeta> = StrMap::new();
    assert(meta_views(map@) =~= Map::<Seq<char>, MetaView>::empty());
    assert(meta_pairs(map.items()) =~= Seq::<(Seq<char>, MetaView)>::empty());
    map
}

/// Reading on never wipes out what is known: a later block for an item that
/// leaves a field out keeps the field.
pub proof fn known_fields_stay_known(lines: Seq<Seq<char>>, more: Seq<Seq<char>>, id: Seq<char>)
    requires
        acf_read(lines).items.contains_key(id),
    ensures
        ({
            let was = acf_read(lines).items[id];
            let now = acf_read(lines + more).items;
            &&& now.contains_key(id)
            &&& was.size != 0 ==> now[id].size != 0
            &&& was.timeupdated != 0 ==> now[id].timeupdated != 0
            &&& was.manifest.len() > 0 ==> now[id].manifest.len() > 0
        }),
    decreases more.len(),
{
    if more.len() == 0 {
        assert(lines + more =~= lines);
    } else {
        known_fields_stay_known(lines, more.drop_last(), id);
        assert((lines + more).drop_last() =~= lines + more.drop_last());
    }
}

/// The blocks of a document are balanced: all are closed at its end, and none is
/// closed that was not opened.
pub open spec fn blocks_balance(lines: Seq<Seq<char>>) -> bool {
    &&& acf_read(lines).depth == 0
    &&& forall|n: int| 0 <= n <= lines.len() ==> (#[trigger] acf_read(lines.take(n))).depth >= 0
}

/// The line is a lone name: it neither opens nor closes a block, and it gives no
/// value.
pub open spec fn is_lone_name(raw: Seq<char>) -> bool {
    &&& trimmed(raw) != "{"@
    &&& trimmed(raw) != "}"@
    &&& split_on(trimmed(raw), CharClass::Exactly('"')).len() < 4
}

/// The items of two readings together: field by field, what the second knows
/// counts, and else what the first knows.
pub open spec fn ws_union(
    first: Map<Seq<char>, WsView>,
    second: Map<Seq<char>, WsView>,
) -> Map<Seq<char>, WsView> {
    first.union_prefer_right(
        second.map_entries(
            |id: Seq<char>, w: WsView|
                ws_merged(
                    if first.contains_key(id) {
                        first[id]
                    } else {
                        ws_unknown()
                    },
                    w,
                ),
        ),
    )
}

/// Reading one record after another gives the items of both: an item has what
/// the second record knows of it and else what the first one knows, field by
/// field. The first record ends with a line and has balanced blocks, the second
/// one starts with a lone name.
pub proof fn records_in_a_row_add_up(a: Seq<char>, b: Seq<char>)
    requires
        a.len() > 0 ==> a.last() == '\n',
        blocks_balance(lines_of(a)),
        lines_of(b).len() > 0,
        is_lone_name(lines_of(b)[0]),
    ensures
        ({
            let first = acf_read(lines_of(a)).items;
            let second = acf_read(lines_of(b)).items;
            let both = acf_read(lines_of(a + b)).items;
            &&& both == ws_union(first, second)
            &&& forall|id: Seq<char>| #[trigger]
                both.contains_key(id) <==> first.contains_key(id) || second.contains_key(id)
            &&& forall|id: Seq<char>| #[trigger]
                both.contains_key(id) ==> {
                    let was = if first.contains_key(id) {
                        first[id]
                    } else {
                        ws_unknown()
                    };
                    let now = if second.contains_key(id) {
                        second[id]
                    } else {
                        ws_unknown()
                    };
                    both[id] == ws_merged(was, now)
                }
        }),
{
    let (x, y) = (lines_of(a), lines_of(b));
    lines_follow_lines(a, b);
    lemma_open_block_is_inside(x, x.len() as int);
    assert(x.take(x.len() as int) =~= x);
    lemma_readings_agree(x, y, y.len() as int);
    assert(y.take(y.len() as int) =~= y);
    let first = acf_read(x).items;
    let second = acf_read(y).items;
    let both = acf_read(x + y).items;
    assert forall|id: Seq<char>| #[trigger] both.contains_key(id) implies both[id] == ws_merged(
        if first.contains_key(id) {
            first[id]
        } else {
            ws_unknown()
        },
        if second.contains_key(id) {
            second[id]
        } else {
            ws_unknown()
        },
    ) by {}
}

/// An item's block that is open was opened no deeper than the blocks go.
proof fn lemma_open_block_is_inside(lines: Seq<Seq<char>>, n: int)
    requires
        0 <= n <= lines.len(),
        forall|k: int| 0 <= k <= lines.len() ==> (#[trigger] acf_read(lines.take(k))).depth >= 0,
    ensures
        acf_read(lines.take(n)).open is Some ==> 1 <= acf_read(lines.take(n)).open_depth
            <= acf_read(lines.take(n)).depth,
    decreases n,
{
    if n > 0 {
        lemma_open_block_is_inside(lines, n - 1);
        assert(lines.take(n).drop_last() =~= lines.take(n - 1));
        assert(acf_read(lines.take(n - 1)).depth >= 0);
        assert(acf_read(lines.take(n)).depth >= 0);
    }
}

/// Reading the first `n` lines of `y` after `x` goes as reading them alone.
proof fn lemma_readings_agree(x: Seq<Seq<char>>, y: Seq<Seq<char>>, n: int)
    requires
        1 <= n <= y.len(),
        acf_read(x).depth == 0,
        acf_read(x).open is None,
        is_lone_name(y[0]),
    ensures
        ({
            let s = acf_read(x + y.take(n));
            let t = acf_read(y.take(n));
            &&& s.pending == t.pending
            &&& s.open == t.open
            &&& s.depth == t.depth
            &&& s.open is Some ==> s.open_depth == t.open_depth
            &&& s.items == ws_union(acf_read(x).items, t.items)
        }),
    decreases n,
{
    let first = acf_read(x).items;
    let z = y.take(n);
    assert((x + z).drop_last() =~= x + z.drop_last());
    assert((x + z).last() == y[n - 1]);
    assert(z.last() == y[n - 1]);
    assert(z.drop_last() =~= y.take(n - 1));
    if n == 1 {
        assert(x + y.take(0) =~= x);
        assert(y.take(0) =~= Seq::<Seq<char>>::empty());
        assert(ws_union(first, Map::<Seq<char>, WsView>::empty()) =~= first);
    } else {
        lemma_readings_agree(x, y, n - 1);
        let s = acf_read(x + y.take(n - 1));
        let t = acf_read(y.take(n - 1));
        if t.open is Some {
            let (id, w) = t.open->0;
            assert(ws_entered(ws_union(first, t.items), id, w) =~= ws_union(
                first,
                ws_entered(t.items, id, w),
            ));
        }
    }
}

/// The line of a document that gives `value` for `key`.
pub open spec fn value_line(key: Seq<char>, gap: Seq<char>, value: Seq<char>) -> Seq<char> {
    seq!['"'] + key + seq!['"'] + gap + seq!['"'] + value + seq!['"']
}

proof fn lemma_value_line(key: Seq<char>, gap: Seq<char>, value: Seq<char>)
    requires
        !key.contains('"'),
        !gap.contains('"'),
        !value.contains('"'),
    ensures
        trimmed(value_line(key, gap, value)) == value_line(key, gap, value),
        quoted(value_line(key, gap, value)) == seq![Seq::<char>::empty(), key, gap, value, Seq::<
            char,
        >::empty()],
{
    let l = value_line(key, gap, value);
    let none = Seq::<char>::empty();
    assert(!white('"'));
    assert(l[0] == '"' && l.last() == '"');
    trimming_keeps_the_middle(none, l, none);
    assert(none + l + none =~= l);
    unsplit_text(none, '"');
    unsplit_text(key, '"');
    unsplit_text(gap, '"');
    unsplit_text(value, '"');
    let l4 = none;
    let l3 = value.push('"') + l4;
    let l2 = gap.push('"') + l3;
    let l1 = key.push('"') + l2;
    split_at_separator(value, l4, '"');
    split_at_separator(gap, l3, '"');
    split_at_separator(key, l2, '"');
    split_at_separator(none, l1, '"');
    assert(l =~= none.push('"') + l1);
    assert(seq![none] + (seq![key] + (seq![gap] + (seq![value] + seq![none]))) =~= seq![
        none,
        key,
        gap,
        value,
        none,
    ]);
}

/// A line with two quoted texts gives the second as the value of the first, and
/// of no other key.
pub proof fn quoted_lines_give_values(
    key: Seq<char>,
    gap: Seq<char>,
    value: Seq<char>,
    other: Seq<char>,
)
    requires
        !key.contains('"'),
        !gap.contains('"'),
        !value.contains('"'),
    ensures
        vdf_value(value_line(key, gap, value), key) == Some(value),
        other != key ==> vdf_value(value_line(key, gap, value), other) is None,
{
    lemma_value_line(key, gap, value);
}

/// The value of a key is that of the first line that gives one.
#[verifier::spinoff_prover]
pub proof fn the_first_value_counts(lines: Seq<Seq<char>>, key: Seq<char>)
    ensures
        first_vdf_value(lines, key) is None <==> forall|i: int|
            0 <= i < lines.len() ==> vdf_value(#[trigger] lines[i], key) is None,
        forall|i: int|
            0 <= i < lines.len() && vdf_value(#[trigger] lines[i], key) is Some && (forall|j: int|
                0 <= j < i ==> vdf_value(#[trigger] lines[j], key) is None) ==> first_vdf_value(
                lines,
                key,
            ) == vdf_value(lines[i], key),
    decreases lines.len(),
{
    if lines.len() > 0 {
        let t = lines.drop_first();
        the_first_value_counts(t, key);
        if vdf_value(lines[0], key) is None {
            assert forall|i: int|
                0 <= i < lines.len() && vdf_value(#[trigger] lines[i], key) is Some && (forall|
                    j: int,
                |
                    0 <= j < i ==> vdf_value(#[trigger] lines[j], key) is None) implies
                first_vdf_value(lines, key) == vdf_value(lines[i], key) by {
                assert(t[i - 1] == lines[i]);
                assert forall|j: int| 0 <= j < i - 1 implies vdf_value(
                    #[trigger] t[j],
                    key,
                ) is None by {
                    assert(t[j] == lines[j + 1]);
                }
            }
            if first_vdf_value(lines, key) is None {
                assert forall|i: int| 0 <= i < lines.len() implies vdf_value(
                    #[trigger] lines[i],
                    key,
                ) is None by {
                    if i > 0 {
                        assert(t[i - 1] == lines[i]);
                    }
                }
            }
            if forall|i: int| 0 <= i < lines.len() ==> vdf_value(#[trigger] lines[i], key) is None {
                assert forall|i: int| 0 <= i < t.len() implies vdf_value(#[trigger] t[i], key) is None
                by {
                    assert(t[i] == lines[i + 1]);
                }
            }
        }
    }
}

/// The line gives `value` for `field`.
pub open spec fn gives(raw: Seq<char>, field: Seq<char>, value: Seq<char>) -> bool {
    exists|gap: Seq<char>|
        !field.contains('"') && !value.contains('"') && !gap.contains('"') && trimmed(raw)
            == #[trigger] value_line(field, gap, value)
}

/// The last value that the fields give for a name.
pub open spec fn last_given(fields: Seq<(Seq<char>, Seq<char>)>, name: Seq<char>) -> Option<
    Seq<char>,
>
    decreases fields.len(),
{
    if fields.len() == 0 {
        None
    } else if fields.last().0 == name {
        Some(fields.last().1)
    } else {
        last_given(fields.drop_last(), name)
    }
}

/// A number that is given, and not 0, or else what was known.
pub open spec fn number_or(given: Option<Seq<char>>, known: u64) -> u64 {
    if given is Some && u64_of(given->0) is Some && u64_of(given->0)->0 != 0 {
        u64_of(given->0)->0
    } else {
        known
    }
}

proof fn lemma_fields_read(
    before: Seq<Seq<char>>,
    lines: Seq<Seq<char>>,
    fields: Seq<(Seq<char>, Seq<char>)>,
    id: Seq<char>,
)
    requires
        acf_read(before).open == Some((id, ws_unknown())),
        lines.len() == fields.len(),
        forall|k: int|
            0 <= k < lines.len() ==> gives(#[trigger] lines[k], fields[k].0, fields[k].1),
    ensures
        ({
            let st = acf_read(before);
            let r = acf_read(before + lines);
            let w = (r.open->0).1;
            &&& r == (AcfState { open: r.open, ..st })
            &&& r.open is Some && (r.open->0).0 == id
            &&& number_or(last_given(fields, "size"@), 0) == w.size
            &&& number_or(last_given(fields, "timeupdated"@), 0) == w.timeupdated
            &&& last_given(fields, "manifest"@) is Some ==> w.manifest == last_given(
                fields,
                "manifest"@,
            )->0
            &&& last_given(fields, "manifest"@) is None ==> w.manifest.len() == 0
        }),
    decreases lines.len(),
{
    if lines.len() == 0 {
        assert(before + lines =~= before);
    } else {
        let n = lines.len() - 1;
        let (l, f) = (lines.drop_last(), fields.drop_last());
        assert forall|k: int| 0 <= k < l.len() implies gives(#[trigger] l[k], f[k].0, f[k].1) by {
            assert(l[k] == lines[k]);
        }
        lemma_fields_read(before, l, f, id);
        assert((before + lines).drop_last() =~= before + l);
        assert(gives(lines[n], fields[n].0, fields[n].1));
        let (field, value) = fields[n];
        let gap = choose|gap: Seq<char>|
            !field.contains('"') && !value.contains('"') && !gap.contains('"') && trimmed(lines[n])
                == #[trigger] value_line(field, gap, value);
        lemma_value_line(field, gap, value);
        let line = value_line(field, gap, value);
        lemma_no_brace(line);
        lemma_field_names_differ();
    }
}

proof fn lemma_no_brace(line: Seq<char>)
    requires
        line.len() > 0,
        line[0] == '"',
    ensures
        line != "{"@,
        line != "}"@,
{
    reveal_strlit("{");
    reveal_strlit("}");
}

proof fn lemma_field_names_differ()
    ensures
        "size"@ != "timeupdated"@,
        "size"@ != "manifest"@,
        "timeupdated"@ != "manifest"@,
{
    reveal_strlit("size");
    reveal_strlit("timeupdated");
    reveal_strlit("manifest");
    assert("size"@.len() == 4 && "timeupdated"@.len() == 11 && "manifest"@.len() == 8);
}

/// The block of an item says its size, when it was updated and its version: what
/// its last field of that name gives, and else what was known before. Nothing
/// that is known of another item changes.
pub proof fn blocks_describe_their_item(
    before: Seq<Seq<char>>,
    id: Seq<char>,
    fields: Seq<(Seq<char>, Seq<char>)>,
    lines: Seq<Seq<char>>,
)
    requires
        acf_read(before).open is None,
        id.len() >= 6,
        all_digits(id),
        lines.len() == fields.len() + 3,
        trimmed(lines[0]) == seq!['"'] + id + seq!['"'],
        trimmed(lines[1]) == "{"@,
        trimmed(lines.last()) == "}"@,
        forall|k: int|
            0 <= k < fields.len() ==> gives(#[trigger] lines[k + 2], fields[k].0, fields[k].1),
    ensures
        ({
            let was = acf_read(before).items;
            let now = acf_read(before + lines).items;
            let known = if was.contains_key(id) {
                was[id]
            } else {
                WsView { size: 0, timeupdated: 0, manifest: Seq::empty() }
            };
            let version = last_given(fields, "manifest"@);
            &&& now.contains_key(id)
            &&& now[id].size == number_or(last_given(fields, "size"@), known.size)
            &&& now[id].timeupdated == number_or(
                last_given(fields, "timeupdated"@),
                known.timeupdated,
            )
            &&& now[id].manifest == if version is Some && version->0.len() > 0 {
                version->0
            } else {
                known.manifest
            }
            &&& forall|other: Seq<char>|
                other != id ==> (#[trigger] now.contains_key(other) <==> was.contains_key(other))
            &&& forall|other: Seq<char>|
                other != id && was.contains_key(other) ==> #[trigger] now[other] == was[other]
        }),
{
    let st = acf_read(before);
    let none = Seq::<char>::empty();
    let named = before.push(lines[0]);
    assert(named.drop_last() =~= before);
    let l0 = seq!['"'] + id + seq!['"'];
    lemma_no_brace(l0);
    assert(!id.contains('"')) by {
        if id.contains('"') {
            let i = choose|i: int| 0 <= i < id.len() && id[i] == '"';
            assert(digit(id[i]));
        }
    }
    unsplit_text(none, '"');
    unsplit_text(id, '"');
    split_at_separator(id, none, '"');
    split_at_separator(none, id.push('"') + none, '"');
    assert(l0 =~= none.push('"') + (id.push('"') + none));
    assert(seq![none] + (seq![id] + seq![none]) =~= seq![none, id, none]);
    assert(acf_read(named).pending == Some(id));
    let opened = named.push(lines[1]);
    assert(opened.drop_last() =~= named);
    assert(acf_read(opened).open == Some((id, ws_unknown())));
    let inner = lines.subrange(2, lines.len() - 1);
    assert forall|k: int| 0 <= k < inner.len() implies gives(
        #[trigger] inner[k],
        fields[k].0,
        fields[k].1,
    ) by {
        assert(inner[k] == lines[k + 2]);
    }
    lemma_fields_read(opened, inner, fields, id);
    let whole = before + lines;
    assert(whole.drop_last() =~= opened + inner);
    reveal_strlit("{");
    reveal_strlit("}");
    assert("{"@[0] == '{' && "}"@[0] == '}');
    assert(trimmed(whole.last()) == "}"@);
}

/// The item at `i` is the last of the launcher's list that is for the pack.
pub open spec fn says_last(items: Seq<JsonView>, key: Seq<char>, i: int) -> bool {
    0 <= i < items.len() && meta_item(items[i]) is Some && (meta_item(items[i])->0).0 == key
        && forall|j: int|
        i < j < items.len() ==> #[trigger] meta_item(items[j]) is None || (meta_item(
            items[j],
        )->0).0 != key
}

/// The launcher's list says of a pack what its last item for it says.
pub proof fn the_last_item_for_a_pack_counts(items: Seq<JsonView>, key: Seq<char>)
    ensures
        meta_items(items).contains_key(key) <==> exists|i: int| says_last(items, key, i),
        forall|i: int| #[trigger]
            says_last(items, key, i) ==> meta_items(items)[key] == (meta_item(items[i])->0).1,
    decreases items.len(),
{
    if items.len() > 0 {
        let rest = items.drop_last();
        let n = items.len() - 1;
        the_last_item_for_a_pack_counts(rest, key);
        let here = meta_item(items[n]) is Some && (meta_item(items[n])->0).0 == key;
        if here {
            assert(says_last(items, key, n));
        }
        assert forall|i: int| #[trigger] says_last(items, key, i) implies meta_items(items)[key] == (
        meta_item(items[i])->0).1 by {
            if i < n {
                assert(meta_item(items[n]) is None || (meta_item(items[n])->0).0 != key);
                assert forall|j: int| i < j < rest.len() implies #[trigger] meta_item(
                    rest[j],
                ) is None || (meta_item(rest[j])->0).0 != key by {
                    assert(rest[j] == items[j]);
                }
                assert(says_last(rest, key, i));
            }
        }
        if !here {
            if meta_items(items).contains_key(key) {
                let i = choose|i: int| says_last(rest, key, i);
                assert forall|j: int| i < j < items.len() implies #[trigger] meta_item(
                    items[j],
                ) is None || (meta_item(items[j])->0).0 != key by {
                    if j < n {
                        assert(meta_item(rest[j]) is None || (meta_item(rest[j])->0).0 != key);
                    }
                }
                assert(says_last(items, key, i));
            }
            if exists|i: int| says_last(items, key, i) {
                let i = choose|i: int| says_last(items, key, i);
                assert forall|j: int| i < j < rest.len() implies #[trigger] meta_item(
                    rest[j],
                ) is None || (meta_item(rest[j])->0).0 != key by {
                    assert(meta_item(items[j]) is None || (meta_item(items[j])->0).0 != key);
                }
                assert(says_last(rest, key, i));
            }
        }
    }
}

/// The launcher's packs are listed each once, with what is said of them, and a
/// later item never moves an earlier pack.
pub proof fn packs_are_listed_once(items: Seq<JsonView>)
    ensures
        forall|i: int|
            0 <= i < meta_list(items).len() ==> meta_items(items).contains_key(
                (#[trigger] meta_list(items)[i]).0,
            ) && meta_items(items)[meta_list(items)[i].0] == meta_list(items)[i].1,
        forall|key: Seq<char>| #[trigger]
            meta_items(items).contains_key(key) ==> exists|i: int|
                0 <= i < meta_list(items).len() && (#[trigger] meta_list(items)[i]).0 == key,
        forall|i: int, j: int|
            0 <= i < j < meta_list(items).len() ==> (#[trigger] meta_list(items)[i]).0 != (
            #[trigger] meta_list(items)[j]).0,
        items.len() > 0 ==> meta_list(items.drop_last()).len() <= meta_list(items).len(),
        items.len() > 0 ==> forall|i: int|
            0 <= i < meta_list(items.drop_last()).len() ==> (#[trigger] meta_list(items)[i]).0
                == meta_list(items.drop_last())[i].0,
    decreases items.len(),
{
    if items.len() > 0 {
        let d = items.drop_last();
        packs_are_listed_once(d);
        let (old_list, list) = (meta_list(d), meta_list(items));
        assert forall|key: Seq<char>| #[trigger] meta_items(items).contains_key(key) implies exists|
            i: int,
        |
            0 <= i < list.len() && (#[trigger] list[i]).0 == key by {
            if meta_items(d).contains_key(key) {
                let i = choose|i: int| 0 <= i < old_list.len() && (#[trigger] old_list[i]).0 == key;
                assert(list[i].0 == key);
            } else {
                assert(list[list.len() - 1].0 == key);
            }
        }
        assert forall|i: int| 0 <= i < list.len() implies meta_items(items).contains_key(
            (#[trigger] list[i]).0,
        ) && meta_items(items)[list[i].0] == list[i].1 by {
            if i < old_list.len() {
                assert(meta_items(d).contains_key(old_list[i].0));
                assert(list[i].0 == old_list[i].0);
            }
        }
        assert forall|i: int, j: int| 0 <= i < j < list.len() implies (#[trigger] list[i]).0 != (
        #[trigger] list[j]).0 by {
            if j < old_list.len() {
                assert(old_list[i].0 != old_list[j].0);
            } else {
                assert(meta_items(d).contains_key(old_list[i].0));
            }
        }
    }
}

/// An item of the launcher's list counts if it is of the game and names a pack;
/// a pack without a word on it is inactive and comes last.
pub proof fn items_of_the_game_count(j: JsonView)
    ensures
        meta_item(j) is Some <==> j.text_at("game"@) == Some("warhammer3"@) && j.text_at(
            "uuid"@,
        ) is Some,
        meta_item(j) matches Some((key, m)) ==> {
            &&& key == lowercase(j.text_at("uuid"@)->0)
            &&& j.text_at("name"@) is Some ==> m.name == j.text_at("name"@)->0
            &&& j.text_at("name"@) is None ==> m.name.len() == 0
            &&& j.text_at("category"@) is Some ==> m.category == j.text_at("category"@)->0
            &&& j.text_at("category"@) is None ==> m.category.len() == 0
            &&& j.text_at("short"@) is Some ==> m.short == j.text_at("short"@)->0
            &&& j.text_at("short"@) is None ==> m.short.len() == 0
            &&& m.active <==> j.flag_at("active"@) == Some(true)
            &&& j.signed_at("order"@) is Some ==> m.order == j.signed_at("order"@)->0
            &&& j.signed_at("order"@) is None ==> m.order == 0x7fff_ffff_ffff_ffffi64
        },
{
}

/// The folder of the game, given its manifest.
pub open spec fn game_dir(s: Settings, manifest: Option<Seq<char>>) -> Option<Seq<char>> {
    match (s.path("TWWH3_GAME"@, "game_dir"@), manifest) {
        (Some(p), _) => Some(p),
        (None, Some(t)) => match first_vdf_value(lines_of(t), "installdir"@) {
            Some(d) => Some(path_join(path_join(s.steam(), "steamapps/common"@), d)),
            None => None,
        },
        (None, None) => None,
    }
}

/// The build of the game, given its manifest.
pub open spec fn build_of(manifest: Option<Seq<char>>) -> Option<Seq<char>> {
    match manifest {
        Some(t) => first_vdf_value(lines_of(t), "buildid"@),
        None => None,
    }
}

/// The game lies where it is set to lie, and else where its manifest says, below
/// the games of the Steam library; the manifest also says its build.
pub proof fn the_game_is_found_by_setting_or_manifest(
    s: Settings,
    before: Seq<Seq<char>>,
    gap: Seq<char>,
    value: Seq<char>,
    text: Seq<char>,
)
    requires
        !gap.contains('"') && !value.contains('"'),
    ensures
        s.env@.contains_key("TWWH3_GAME"@) ==> forall|m: Option<Seq<char>>| #[trigger]
            game_dir(s, m) == Some(s.expanded(s.env@["TWWH3_GAME"@]@)),
        !s.env@.contains_key("TWWH3_GAME"@) && s.config@.contains_key("game_dir"@) ==> forall|
            m: Option<Seq<char>>,
        | #[trigger] game_dir(s, m) == Some(s.expanded(s.config@["game_dir"@]@)),
        !s.env@.contains_key("TWWH3_GAME"@) && !s.config@.contains_key("game_dir"@) ==> game_dir(
            s,
            None,
        ) is None,
        !s.env@.contains_key("TWWH3_GAME"@) && !s.config@.contains_key("game_dir"@) && lines_of(text)
            == before.push(value_line("installdir"@, gap, value)) && (forall|i: int|
            0 <= i < before.len() ==> vdf_value(#[trigger] before[i], "installdir"@) is None)
            ==> game_dir(s, Some(text)) == Some(
            path_join(path_join(s.steam(), "steamapps/common"@), value),
        ),
        lines_of(text) == before.push(value_line("buildid"@, gap, value)) && (forall|i: int|
            0 <= i < before.len() ==> vdf_value(#[trigger] before[i], "buildid"@) is None)
            ==> build_of(Some(text)) == Some(value),
        build_of(None) is None,
{
    let n = before.len() as int;
    assert(!"installdir"@.contains('"')) by {
        reveal_strlit("installdir");
        let k = "installdir"@;
        assert forall|i: int| 0 <= i < k.len() implies k[i] != '"' by {}
    }
    assert(!"buildid"@.contains('"')) by {
        reveal_strlit("buildid");
        let k = "buildid"@;
        assert forall|i: int| 0 <= i < k.len() implies k[i] != '"' by {}
    }
    quoted_lines_give_values("installdir"@, gap, value, "installdir"@);
    quoted_lines_give_values("buildid"@, gap, value, "buildid"@);
    let a = before.push(value_line("installdir"@, gap, value));
    let b = before.push(value_line("buildid"@, gap, value));
    the_first_value_counts(a, "installdir"@);
    the_first_value_counts(b, "buildid"@);
    if forall|i: int| 0 <= i < n ==> vdf_value(#[trigger] before[i], "installdir"@) is None {
        assert forall|j: int| 0 <= j < n implies vdf_value(#[trigger] a[j], "installdir"@) is None by {
            assert(a[j] == before[j]);
        }
        assert(vdf_value(a[n], "installdir"@) is Some);
    }
    if forall|i: int| 0 <= i < n ==> vdf_value(#[trigger] before[i], "buildid"@) is None {
        assert forall|j: int| 0 <= j < n implies vdf_value(#[trigger] b[j], "buildid"@) is None by {
            assert(b[j] == before[j]);
        }
        assert(vdf_value(b[n], "buildid"@) is Some);
    }
}

/// A block inside the block of an item does not end the item.
pub proof fn inner_blocks_belong_to_the_item(
    before: Seq<Seq<char>>,
    start: Seq<char>,
    end: Seq<char>,
)
    requires
        acf_read(before).open is Some,
        acf_read(before).open_depth <= acf_read(before).depth,
        trimmed(start) == "{"@,
        trimmed(end) == "}"@,
    ensures
        acf_read(before.push(start).push(end)).open == acf_read(before).open,
        acf_read(before.push(start).push(end)).items == acf_read(before).items,
        acf_read(before.push(start).push(end)).depth == acf_read(before).depth,
        acf_read(before.push(start).push(end)).open_depth == acf_read(before).open_depth,
{
    let (a, b) = (before.push(start), before.push(start).push(end));
    assert(a.drop_last() =~= before);
    assert(b.drop_last() =~= a);
    reveal_strlit("{");
    reveal_strlit("}");
    assert("{"@[0] == '{' && "}"@[0] == '}');
    assert(acf_read(a) == acf_line(acf_read(before), start));
    assert(acf_read(b) == acf_line(acf_read(a), end));
}

/// A name that is no number of at least six digits names no item.
pub proof fn other_names_name_no_item(
    before: Seq<Seq<char>>,
    name: Seq<char>,
    line: Seq<char>,
    start: Seq<char>,
)
    requires
        acf_read(before).open is None,
        !name.contains('"'),
        name.len() < 6 || !all_digits(name),
        trimmed(line) == seq!['"'] + name + seq!['"'],
        trimmed(start) == "{"@,
    ensures
        acf_read(before.push(line).push(start)).open is None,
        acf_read(before.push(line).push(start)).items == acf_read(before).items,
{
    let none = Seq::<char>::empty();
    let l = seq!['"'] + name + seq!['"'];
    lemma_no_brace(l);
    unsplit_text(none, '"');
    unsplit_text(name, '"');
    split_at_separator(name, none, '"');
    split_at_separator(none, name.push('"') + none, '"');
    assert(l =~= none.push('"') + (name.push('"') + none));
    assert(seq![none] + (seq![name] + seq![none]) =~= seq![none, name, none]);
    let (a, b) = (before.push(line), before.push(line).push(start));
    assert(a.drop_last() =~= before);
    assert(b.drop_last() =~= a);
    assert(acf_read(a) == acf_line(acf_read(before), line));
    assert(acf_read(a).pending is None);
    assert(acf_read(b) == acf_line(acf_read(a), start));
}

} // verus!
