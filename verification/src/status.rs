//! The status page: resolved paths, what a launch needs, and the state of the
//! mods.

use vstd::prelude::*;
use vstd::string::StringExecFns;

use crate::app::{slots_fit, App, AppView};
use crate::launch::{overlay_is_off, overlay_off};
use crate::model::{ModView, SlotView};
use crate::overlay::OPENER_HINT;
use crate::paths::{
    config_file, config_path, join_path, local_mods_dir, modlists_dir, path_join, setting,
    staging_dir, tilde, versioned_mods_dir, with_tilde, workshop_dir, Settings,
};
use crate::profiles::slots_are_counted;
use crate::store::{human_size, size_text};
use crate::text::{contains, decimal, has_text, to_decimal};
use crate::ui::{line_views, path_line, path_row, row_view, section_view, LineView, StatusLine};

verus! {

/// What was found on the system for the status page.
pub struct StatusFacts {
    /// This program's version.
    pub version: String,
    pub config_exists: bool,
    pub launcher_data_exists: bool,
    pub workshop_exists: bool,
    /// The game's folder.
    pub game: Option<String>,
    pub profiles_exist: bool,
    pub versions_exist: bool,
    pub local_exists: bool,
    pub staging_exists: bool,
    pub used_mods_exists: bool,
    /// Where the launch shim is.
    pub shim: Option<String>,
    /// What the launch shim holds, if it is a readable script.
    pub shim_script: Option<String>,
    /// The launch shim is set up in Steam, as far as known.
    pub shim_set_up: Option<bool>,
    pub fuse_overlayfs: Option<String>,
    pub fusermount: Option<String>,
    pub fuse_device: bool,
    /// Something is mounted on the game's `data/`.
    pub data_mounted: bool,
    /// What folders are opened with.
    pub opener: Option<String>,
    pub versions: usize,
    pub version_bytes: u64,
    /// Images can be shown.
    pub images: bool,
}

/// The row for a program that may be found.
pub open spec fn program_row(
    s: Settings,
    label: Seq<char>,
    place: Option<String>,
    missing: Seq<char>,
) -> LineView {
    match place {
        Some(p) => row_view(label, with_tilde(s, p@), Some(true)),
        None => row_view(label, missing, Some(false)),
    }
}

/// The row for a program that may be found.
fn program_line(s: &Settings, label: &str, place: &Option<String>, missing: &str) -> (r: StatusLine)
    ensures
        r@ == program_row(*s, label@, *place, missing@),
{
    match place {
        Some(p) => StatusLine::new(label, tilde(s, p.as_str()), Some(true)),
        None => StatusLine::new(label, missing.to_owned(), Some(false)),
    }
}

/// The rows on paths.
pub open spec fn path_rows(v: AppView, s: Settings, f: StatusFacts) -> Seq<LineView> {
    let rows = seq![
        row_view("twwh3-mods"@, "v"@ + f.version@, None),
        section_view("Paths"@),
        path_row(
            s,
            "config file"@,
            config_path(s),
            f.config_exists,
            "(not present — defaults in use)"@,
            None,
        ),
        path_row(
            s,
            "launcher data"@,
            v.path,
            f.launcher_data_exists,
            "(missing — run the game once)"@,
            Some(false),
        ),
        path_row(
            s,
            "workshop"@,
            s.workshop(),
            f.workshop_exists,
            "(missing — no Workshop mods downloaded?)"@,
            Some(false),
        ),
        program_row(s, "game"@, f.game, "not found — set game_dir in the config"@),
        path_row(
            s,
            "profiles"@,
            s.modlists(),
            f.profiles_exist,
            "(created on first save)"@,
            None,
        ),
        path_row(
            s,
            "versioned mods"@,
            s.versioned_mods(),
            f.versions_exist,
            "(created on first save)"@,
            None,
        ),
        path_row(
            s,
            "local mods"@,
            s.local_mods(),
            f.local_exists,
            "(one subfolder per mod)"@,
            None,
        ),
        path_row(
            s,
            "staging"@,
            s.staging(),
            f.staging_exists,
            "(created on first launch)"@,
            None,
        ),
    ];
    match f.game {
        Some(g) => rows.push(
            path_row(
                s,
                "used_mods.txt"@,
                path_join(g@, "used_mods.txt"@),
                f.used_mods_exists,
                "(written when you press L)"@,
                None,
            ),
        ),
        None => rows,
    }
}

/// The rows on what the overlay needs.
pub open spec fn overlay_rows(v: AppView, s: Settings, f: StatusFacts) -> Seq<LineView> {
    if overlay_off(s) {
        seq![
            row_view(
                "overlay"@,
                "off — working-directory loading (movie packs won't load)"@,
                None,
            ),
        ]
    } else {
        let bundled = f.shim_script matches Some(t) && has_text(t@, "fuse-overlayfs"@);
        let rows = seq![
            row_view("overlay"@, "on"@, Some(true)),
            if f.fuse_overlayfs is None && bundled {
                row_view("fuse-overlayfs"@, "bundled with twwh3-run"@, Some(true))
            } else {
                program_row(
                    s,
                    "fuse-overlayfs"@,
                    f.fuse_overlayfs,
                    "not found — mods still load, movie packs won't (install fuse-overlayfs)"@,
                )
            },
            program_row(s, "fusermount3"@, f.fusermount, "not found (install fuse3)"@),
            if f.fuse_device {
                row_view("/dev/fuse"@, "present"@, Some(true))
            } else {
                row_view("/dev/fuse"@, "missing — kernel FUSE unavailable"@, Some(false))
            },
        ];
        match f.game {
            Some(_) => rows.push(
                row_view(
                    "data view"@,
                    if v.preview_mounted {
                        "merged — preview mounted (o to unmount)"@
                    } else if f.data_mounted {
                        "merged — overlay mounted now"@
                    } else {
                        "vanilla until launch (o to preview)"@
                    },
                    None,
                ),
            ),
            None => rows,
        }
    }
}

/// The rows on launching.
pub open spec fn launch_rows(v: AppView, s: Settings, f: StatusFacts) -> Seq<LineView> {
    let first = seq![
        section_view("Launch"@),
        program_row(s, "twwh3-run"@, f.shim, "not found on PATH"@),
        match f.shim_set_up {
            Some(true) => row_view("launch options"@, "twwh3-run is set up in Steam"@, Some(true)),
            Some(false) => row_view(
                "launch options"@,
                "twwh3-run not set — Steam opens the CA launcher (no pinning/overlay)"@,
                Some(false),
            ),
            None => row_view("launch options"@, "could not read Steam userdata"@, None),
        },
    ];
    (first + overlay_rows(v, s, f)).push(program_row(s, "o opens with"@, f.opener, OPENER_HINT@))
}

/// How many of the mods are local.
pub open spec fn local_among(pool: Seq<ModView>) -> nat
    decreases pool.len(),
{
    if pool.len() == 0 {
        0
    } else {
        local_among(pool.drop_last()) + if pool.last().local {
            1nat
        } else {
            0
        }
    }
}

/// The load order in numbers.
pub open spec fn load_order_text(v: AppView) -> Seq<char> {
    let missing = v.missing_among(v.slots);
    let updated = v.updated_among(v.slots);
    decimal(v.slots.len()) + " mods"@ + if missing > 0 {
        ", "@ + decimal(missing) + " missing"@
    } else {
        Seq::empty()
    } + if updated > 0 {
        ", "@ + decimal(updated) + " updated past their pin (stored version used at launch)"@
    } else {
        Seq::empty()
    }
}

/// The pool in numbers.
pub open spec fn pool_text(pool: Seq<ModView>) -> Seq<char> {
    let local = local_among(pool);
    let workshop = (pool.len() - local) as nat;
    decimal(pool.len()) + " mods"@ + if workshop > 0 {
        ", "@ + decimal(workshop) + " workshop"@
    } else {
        Seq::empty()
    } + if local > 0 {
        ", "@ + decimal(local) + " local"@
    } else {
        Seq::empty()
    }
}

/// The rows on the mods.
pub open spec fn mods_rows(v: AppView, s: Settings, f: StatusFacts) -> Seq<LineView> {
    let first = seq![
        section_view("Mods"@),
        row_view(
            "game build"@,
            match v.game_buildid {
                Some(b) => b,
                None => "unknown"@,
            },
            None,
        ),
        row_view(
            "profile"@,
            match v.current_profile {
                Some(p) => p,
                None => "(unsaved)"@,
            },
            None,
        ),
        row_view("load order"@, load_order_text(v), Some(v.missing_among(v.slots) == 0)),
    ];
    let unsaved = if v.dirty {
        seq![row_view("unsaved changes"@, "yes — press s to save"@, Some(false))]
    } else {
        Seq::empty()
    };
    let images = match s.value("TWWH3_IMAGES"@, "images"@) {
        Some(x) => x,
        None => "auto"@,
    };
    let last = seq![
        row_view("mod pool"@, pool_text(v.pool), None),
        row_view(
            "versioned mods"@,
            decimal(f.versions as nat) + " pack versions, "@ + size_text(f.version_bytes as nat),
            None,
        ),
        row_view(
            "thumbnails"@,
            images + if f.images {
                Seq::empty()
            } else {
                " (inactive)"@
            },
            None,
        ),
    ];
    first + unsaved + last
}

/// The rows of the status page.
pub open spec fn status_rows(v: AppView, s: Settings, f: StatusFacts) -> Seq<LineView> {
    path_rows(v, s, f) + launch_rows(v, s, f) + mods_rows(v, s, f)
}

impl App {
    fn path_lines(&self, s: &Settings, f: &StatusFacts) -> (r: Vec<StatusLine>)
        ensures
            line_views(r@) == path_rows(self@, *s, *f),
    {
        let mut v: Vec<StatusLine> = Vec::new();
        v.push(
            StatusLine::new("twwh3-mods", "v".to_owned().concat(f.version.as_str()), None),
        );
        v.push(StatusLine::section("Paths"));
        v.push(
            path_line(
                s,
                "config file",
                config_file(s).as_str(),
                f.config_exists,
                "(not present — defaults in use)",
                None,
            ),
        );
        v.push(
            path_line(
                s,
                "launcher data",
                self.path.as_str(),
                f.launcher_data_exists,
                "(missing — run the game once)",
                Some(false),
            ),
        );
        v.push(
            path_line(
                s,
                "workshop",
                workshop_dir(s).as_str(),
                f.workshop_exists,
                "(missing — no Workshop mods downloaded?)",
                Some(false),
            ),
        );
        v.push(program_line(s, "game", &f.game, "not found — set game_dir in the config"));
        v.push(
            path_line(
                s,
                "profiles",
                modlists_dir(s).as_str(),
                f.profiles_exist,
                "(created on first save)",
                None,
            ),
        );
        v.push(
            path_line(
                s,
                "versioned mods",
                versioned_mods_dir(s).dir.as_str(),
                f.versions_exist,
                "(created on first save)",
                None,
            ),
        );
        v.push(
            path_line(
                s,
                "local mods",
                local_mods_dir(s).dir.as_str(),
                f.local_exists,
                "(one subfolder per mod)",
                None,
            ),
        );
        v.push(
            path_line(
                s,
                "staging",
                staging_dir(s).as_str(),
                f.staging_exists,
                "(created on first launch)",
                None,
            ),
        );
        match &f.game {
            Some(g) => {
                v.push(
                    path_line(
                        s,
                        "used_mods.txt",
                        join_path(g.as_str(), "used_mods.txt").as_str(),
                        f.used_mods_exists,
                        "(written when you press L)",
                        None,
                    ),
                );
            },
            None => {},
        }
        assert(line_views(v@) =~= path_rows(self@, *s, *f));
        v
    }

    fn overlay_lines(&self, s: &Settings, f: &StatusFacts) -> (r: Vec<StatusLine>)
        ensures
            line_views(r@) == overlay_rows(self@, *s, *f),
    {
        let mut v: Vec<StatusLine> = Vec::new();
        if overlay_is_off(s) {
            v.push(
                StatusLine::new(
                    "overlay",
                    "off — working-directory loading (movie packs won't load)".to_owned(),
                    None,
                ),
            );
            assert(line_views(v@) =~= overlay_rows(self@, *s, *f));
            return v;
        }
        v.push(StatusLine::new("overlay", "on".to_owned(), Some(true)));
        let bundled = match &f.shim_script {
            Some(t) => contains(t.as_str(), "fuse-overlayfs"),
            None => false,
        };
        v.push(
            if f.fuse_overlayfs.is_none() && bundled {
                StatusLine::new("fuse-overlayfs", "bundled with twwh3-run".to_owned(), Some(true))
            } else {
                program_line(
                    s,
                    "fuse-overlayfs",
                    &f.fuse_overlayfs,
                    "not found — mods still load, movie packs won't (install fuse-overlayfs)",
                )
            },
        );
        v.push(program_line(s, "fusermount3", &f.fusermount, "not found (install fuse3)"));
        v.push(
            if f.fuse_device {
                StatusLine::new("/dev/fuse", "present".to_owned(), Some(true))
            } else {
                StatusLine::new(
                    "/dev/fuse",
                    "missing — kernel FUSE unavailable".to_owned(),
                    Some(false),
                )
            },
        );
        if f.game.is_some() {
            let text = if self.preview_mounted {
                "merged — preview mounted (o to unmount)"
            } else if f.data_mounted {
                "merged — overlay mounted now"
            } else {
                "vanilla until launch (o to preview)"
            };
            v.push(StatusLine::new("data view", text.to_owned(), None));
        }
        assert(line_views(v@) =~= overlay_rows(self@, *s, *f));
        v
    }

    fn launch_lines(&self, s: &Settings, f: &StatusFacts) -> (r: Vec<StatusLine>)
        ensures
            line_views(r@) == launch_rows(self@, *s, *f),
    {
        let mut v: Vec<StatusLine> = Vec::new();
        v.push(StatusLine::section("Launch"));
        v.push(program_line(s, "twwh3-run", &f.shim, "not found on PATH"));
        v.push(
            match f.shim_set_up {
                Some(true) => StatusLine::new(
                    "launch options",
                    "twwh3-run is set up in Steam".to_owned(),
                    Some(true),
                ),
                Some(false) => StatusLine::new(
                    "launch options",
                    "twwh3-run not set — Steam opens the CA launcher (no pinning/overlay)".to_owned(),
                    Some(false),
                ),
                None => StatusLine::new(
                    "launch options",
                    "could not read Steam userdata".to_owned(),
                    None,
                ),
            },
        );
        let mut o = self.overlay_lines(s, f);
        let ghost v0 = v@;
        let ghost o0 = o@;
        v.append(&mut o);
        let ghost v1 = v@;
        assert(line_views(v1) =~= line_views(v0) + line_views(o0));
        v.push(program_line(s, "o opens with", &f.opener, OPENER_HINT));
        assert(line_views(v@) =~= launch_rows(self@, *s, *f));
        v
    }

    /// The load order in numbers.
    fn load_order_report(&self) -> (r: String)
        requires
            slots_fit(self@.slots, self@.pool.len()),
        ensures
            r@ == load_order_text(self@),
    {
        let missing = self.missing_count();
        let updated = self.updated_count();
        let m = if missing > 0 {
            ", ".to_owned().concat(to_decimal(missing as u64).as_str()).concat(" missing")
        } else {
            String::new()
        };
        assert(missing == 0 ==> m@ =~= Seq::<char>::empty());
        let u = if updated > 0 {
            ", ".to_owned().concat(to_decimal(updated as u64).as_str()).concat(
                " updated past their pin (stored version used at launch)",
            )
        } else {
            String::new()
        };
        assert(updated == 0 ==> u@ =~= Seq::<char>::empty());
        to_decimal(self.slots.len() as u64).concat(" mods").concat(m.as_str()).concat(u.as_str())
    }

    /// How many of the mods are local.
    fn local_count(&self) -> (r: usize)
        ensures
            r == local_among(self@.pool),
            r <= self.pool@.len(),
    {
        let ghost all = self@.pool;
        let mut n: usize = 0;
        let mut i: usize = 0;
        assert(all.take(0) =~= Seq::<ModView>::empty());
        while i < self.pool.len()
            invariant
                i <= self.pool@.len(),
                all == self@.pool,
                n <= i,
                n == local_among(all.take(i as int)),
            decreases self.pool@.len() - i,
        {
            assert(all.take(i + 1).drop_last() =~= all.take(i as int));
            assert(all[i as int] == self.pool@[i as int]@);
            if self.pool[i].local {
                n = n + 1;
            }
            i = i + 1;
        }
        assert(all.take(i as int) =~= all);
        n
    }

    /// The pool in numbers.
    fn pool_report(&self) -> (r: String)
        ensures
            r@ == pool_text(self@.pool),
    {
        let local = self.local_count();
        let workshop: usize = self.pool.len() - local;
        let w = if workshop > 0 {
            ", ".to_owned().concat(to_decimal(workshop as u64).as_str()).concat(" workshop")
        } else {
            String::new()
        };
        assert(workshop == 0 ==> w@ =~= Seq::<char>::empty());
        let l = if local > 0 {
            ", ".to_owned().concat(to_decimal(local as u64).as_str()).concat(" local")
        } else {
            String::new()
        };
        assert(local == 0 ==> l@ =~= Seq::<char>::empty());
        to_decimal(self.pool.len() as u64).concat(" mods").concat(w.as_str()).concat(l.as_str())
    }

    fn mods_lines(&self, s: &Settings, f: &StatusFacts) -> (r: Vec<StatusLine>)
        requires
            slots_fit(self@.slots, self@.pool.len()),
        ensures
            line_views(r@) == mods_rows(self@, *s, *f),
    {
        let mut v: Vec<StatusLine> = Vec::new();
        v.push(StatusLine::section("Mods"));
        let build = match &self.game_buildid {
            Some(b) => b.clone(),
            None => "unknown".to_owned(),
        };
        v.push(StatusLine::new("game build", build, None));
        let profile = match &self.current_profile {
            Some(p) => p.clone(),
            None => "(unsaved)".to_owned(),
        };
        v.push(StatusLine::new("profile", profile, None));
        let missing = self.missing_count();
        v.push(StatusLine::new("load order", self.load_order_report(), Some(missing == 0)));
        if self.dirty {
            v.push(
                StatusLine::new(
                    "unsaved changes",
                    "yes — press s to save".to_owned(),
                    Some(false),
                ),
            );
        }
        v.push(StatusLine::new("mod pool", self.pool_report(), None));
        let versions = to_decimal(f.versions as u64).concat(" pack versions, ").concat(
            human_size(f.version_bytes).as_str(),
        );
        v.push(StatusLine::new("versioned mods", versions, None));
        let images = match setting(s, "TWWH3_IMAGES", "images") {
            Some(x) => x,
            None => "auto".to_owned(),
        };
        let shown = if f.images {
            images
        } else {
            images.concat(" (inactive)")
        };
        assert(shown@ =~= images@ + if f.images {
            Seq::empty()
        } else {
            " (inactive)"@
        });
        v.push(StatusLine::new("thumbnails", shown, None));
        assert(line_views(v@) =~= mods_rows(self@, *s, *f));
        v
    }

    /// The rows of the status page: resolved paths, what a launch needs, and
    /// the state of the mods and the profile.
    pub fn build_status(&self, s: &Settings, f: &StatusFacts) -> (r: Vec<StatusLine>)
        requires
            slots_fit(self@.slots, self@.pool.len()),
        ensures
            line_views(r@) == status_rows(self@, *s, *f),
    {
        let mut v = self.path_lines(s, f);
        let mut l = self.launch_lines(s, f);
        let mut m = self.mods_lines(s, f);
        let ghost v0 = v@;
        let ghost l0 = l@;
        let ghost m0 = m@;
        v.append(&mut l);
        v.append(&mut m);
        assert(line_views(v@) =~= line_views(v0) + line_views(l0) + line_views(m0));
        v
    }
}

proof fn lemma_local_counted(pool: Seq<ModView>)
    ensures
        local_among(pool) == pool.filter(|m: ModView| m.local).len(),
        local_among(pool) <= pool.len(),
    decreases pool.len(),
{
    reveal(Seq::filter);
    if pool.len() > 0 {
        lemma_local_counted(pool.drop_last());
    }
}

proof fn lemma_not_local_counted(pool: Seq<ModView>)
    ensures
        pool.filter(|m: ModView| m.local).len() + pool.filter(|m: ModView| !m.local).len()
            == pool.len(),
    decreases pool.len(),
{
    reveal(Seq::filter);
    if pool.len() > 0 {
        lemma_not_local_counted(pool.drop_last());
    }
}

/// The pool is told in numbers: all mods, and those of each kind that there are.
pub proof fn the_pool_is_counted(pool: Seq<ModView>)
    ensures
        ({
            let local = pool.filter(|m: ModView| m.local).len();
            let workshop = pool.filter(|m: ModView| !m.local).len();
            pool_text(pool) == decimal(pool.len()) + " mods"@ + if workshop > 0 {
                ", "@ + decimal(workshop) + " workshop"@
            } else {
                Seq::empty()
            } + if local > 0 {
                ", "@ + decimal(local) + " local"@
            } else {
                Seq::empty()
            }
        }),
{
    lemma_local_counted(pool);
    lemma_not_local_counted(pool);
}

/// The load order is told in numbers: all slots, those whose mod is missing, and
/// those whose mod is past its pin; it is well if nothing is missing.
pub proof fn the_load_order_is_counted(v: AppView, s: Settings, f: StatusFacts)
    ensures
        ({
            let missing = v.slots.filter(
                |s: SlotView|
                    match s.idx {
                        Some(i) => v.pool[i as int].missing,
                        None => true,
                    },
            ).len();
            let updated = v.slots.filter(|s: SlotView| v.updated(s)).len();
            let row = mods_rows(v, s, f)[3];
            &&& load_order_text(v) == decimal(v.slots.len()) + " mods"@ + if missing > 0 {
                ", "@ + decimal(missing) + " missing"@
            } else {
                Seq::empty()
            } + if updated > 0 {
                ", "@ + decimal(updated)
                    + " updated past their pin (stored version used at launch)"@
            } else {
                Seq::empty()
            }
            &&& row.label == "load order"@
            &&& row.value == load_order_text(v)
            &&& row.ok == Some(missing == 0)
        }),
{
    slots_are_counted(v, v.slots);
}

/// The row tells of a path: the path itself, and that it is well if it is there.
pub open spec fn tells_path(
    s: Settings,
    row: LineView,
    label: Seq<char>,
    p: Seq<char>,
    there: bool,
) -> bool {
    &&& row.label == label
    &&& with_tilde(s, p).is_prefix_of(row.value)
    &&& there ==> row.value == with_tilde(s, p)
    &&& row.ok == Some(true) <==> there
}

proof fn lemma_tells_path(
    s: Settings,
    label: Seq<char>,
    p: Seq<char>,
    there: bool,
    note: Seq<char>,
    otherwise: Option<bool>,
)
    requires
        otherwise != Some(true),
    ensures
        tells_path(s, path_row(s, label, p, there, note, otherwise), label, p, there),
{
    let w = with_tilde(s, p);
    let v = path_row(s, label, p, there, note, otherwise).value;
    assert(w =~= v.subrange(0, w.len() as int));
}

/// The status page tells every path, and whether it is there.
pub proof fn the_status_page_tells_every_path(v: AppView, s: Settings, f: StatusFacts)
    ensures
        ({
            let r = path_rows(v, s, f);
            &&& r.len() == if f.game is Some {
                11int
            } else {
                10
            }
            &&& r[0].value == "v"@ + f.version@
            &&& tells_path(s, r[2], "config file"@, config_path(s), f.config_exists)
            &&& tells_path(s, r[3], "launcher data"@, v.path, f.launcher_data_exists)
            &&& tells_path(s, r[4], "workshop"@, s.workshop(), f.workshop_exists)
            &&& f.game is Some ==> tells_path(s, r[5], "game"@, f.game->0@, true)
            &&& f.game is None ==> r[5].ok == Some(false)
            &&& tells_path(s, r[6], "profiles"@, s.modlists(), f.profiles_exist)
            &&& tells_path(s, r[7], "versioned mods"@, s.versioned_mods(), f.versions_exist)
            &&& tells_path(s, r[8], "local mods"@, s.local_mods(), f.local_exists)
            &&& tells_path(s, r[9], "staging"@, s.staging(), f.staging_exists)
            &&& f.game is Some ==> tells_path(
                s,
                r[10],
                "used_mods.txt"@,
                path_join(f.game->0@, "used_mods.txt"@),
                f.used_mods_exists,
            )
        }),
{
    lemma_tells_path(
        s,
        "config file"@,
        config_path(s),
        f.config_exists,
        "(not present — defaults in use)"@,
        None,
    );
    lemma_tells_path(
        s,
        "launcher data"@,
        v.path,
        f.launcher_data_exists,
        "(missing — run the game once)"@,
        Some(false),
    );
    lemma_tells_path(
        s,
        "workshop"@,
        s.workshop(),
        f.workshop_exists,
        "(missing — no Workshop mods downloaded?)"@,
        Some(false),
    );
    lemma_tells_path(
        s,
        "profiles"@,
        s.modlists(),
        f.profiles_exist,
        "(created on first save)"@,
        None,
    );
    lemma_tells_path(
        s,
        "versioned mods"@,
        s.versioned_mods(),
        f.versions_exist,
        "(created on first save)"@,
        None,
    );
    lemma_tells_path(
        s,
        "local mods"@,
        s.local_mods(),
        f.local_exists,
        "(one subfolder per mod)"@,
        None,
    );
    lemma_tells_path(
        s,
        "staging"@,
        s.staging(),
        f.staging_exists,
        "(created on first launch)"@,
        None,
    );
    match f.game {
        Some(g) => {
            lemma_tells_path(
                s,
                "used_mods.txt"@,
                path_join(g@, "used_mods.txt"@),
                f.used_mods_exists,
                "(written when you press L)"@,
                None,
            );
            let w = with_tilde(s, g@);
            assert(w =~= w.subrange(0, w.len() as int));
        },
        None => {},
    }
}

/// A program that a launch needs is well if it was found, and the launch options
/// if they are known to be set up; what is not known is neither.
pub proof fn the_status_page_tells_what_a_launch_needs(v: AppView, s: Settings, f: StatusFacts)
    ensures
        ({
            let r = launch_rows(v, s, f);
            let last = r[r.len() - 1];
            &&& r[1].label == "twwh3-run"@
            &&& r[1].ok == Some(f.shim is Some)
            &&& f.shim is Some ==> r[1].value == with_tilde(s, f.shim->0@)
            &&& r[2].label == "launch options"@
            &&& r[2].ok == f.shim_set_up
            &&& last.label == "o opens with"@
            &&& last.ok == Some(f.opener is Some)
            &&& r.len() == if overlay_off(s) {
                5int
            } else if f.game is Some {
                9
            } else {
                8
            }
        }),
        !overlay_off(s) ==> {
            let r = overlay_rows(v, s, f);
            let bundled = f.shim_script is Some && has_text(
                f.shim_script->0@,
                "fuse-overlayfs"@,
            );
            &&& r[0].ok == Some(true)
            &&& r[1].label == "fuse-overlayfs"@
            &&& r[1].ok == Some(f.fuse_overlayfs is Some || bundled)
            &&& r[2].label == "fusermount3"@
            &&& r[2].ok == Some(f.fusermount is Some)
            &&& r[3].label == "/dev/fuse"@
            &&& r[3].ok == Some(f.fuse_device)
            &&& f.game is Some ==> r[4].value == if v.preview_mounted {
                "merged — preview mounted (o to unmount)"@
            } else if f.data_mounted {
                "merged — overlay mounted now"@
            } else {
                "vanilla until launch (o to preview)"@
            }
        },
{
}

/// The status page tells the build of the game, the profile, whether there is
/// something to save, and the store in numbers.
pub proof fn the_status_page_tells_the_mods(v: AppView, s: Settings, f: StatusFacts)
    ensures
        ({
            let r = mods_rows(v, s, f);
            let n = if v.dirty {
                5int
            } else {
                4
            };
            &&& r.len() == n + 3
            &&& v.game_buildid is Some ==> r[1].value == v.game_buildid->0
            &&& v.current_profile is Some ==> r[2].value == v.current_profile->0
            &&& v.current_profile is None ==> r[2].value == "(unsaved)"@
            &&& v.dirty ==> r[4].label == "unsaved changes"@ && r[4].ok == Some(false)
            &&& r[n].label == "mod pool"@ && r[n].value == pool_text(v.pool)
            &&& r[n + 1].value == decimal(f.versions as nat) + " pack versions, "@ + size_text(
                f.version_bytes as nat,
            )
        }),
        status_rows(v, s, f) == path_rows(v, s, f) + launch_rows(v, s, f) + mods_rows(v, s, f),
{
}

} // verus!
