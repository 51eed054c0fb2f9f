//! Opening the game's `data/` folder as the game sees it: one step at a time,
//! each answered by what came of it.

use vstd::prelude::*;
use vstd::string::StringExecFns;

use crate::app::{App, AppView};
use crate::overlay::OPENER_HINT;
use crate::paths::{tilde, with_tilde, Settings};

verus! {

/// What is to be done next.
#[derive(Clone, Copy, PartialEq, Eq, Structural)]
pub enum DataStep {
    /// Nothing more.
    Done,
    /// Unmount the preview. It went well if nothing is mounted any more.
    Unmount,
    /// Look whether something is mounted on `data/`.
    Look,
    /// Open `data/`, on which the overlay is mounted.
    OpenMerged,
    /// Write the staging folder and both lists, as for a launch.
    Write,
    /// Find `fuse-overlayfs`.
    Find,
    /// Open `data/` as it is.
    OpenPlain,
    /// Mount the staging folder over `data/`.
    Mount,
    /// Open the preview that was mounted.
    OpenPreview,
    /// Open `data/`, on which nothing could be mounted.
    OpenAnyway,
}

/// What came of a step.
pub enum StepResult {
    Yes,
    No,
    Failed(String),
}

/// What the result of a step says.
pub enum ResultView {
    Yes,
    No,
    Failed(Seq<char>),
}

impl View for StepResult {
    type V = ResultView;

    open spec fn view(&self) -> ResultView {
        match *self {
            StepResult::Yes => ResultView::Yes,
            StepResult::No => ResultView::No,
            StepResult::Failed(e) => ResultView::Failed(e@),
        }
    }
}

impl DataStep {
    /// How many steps may still come.
    pub open spec fn left(self) -> nat {
        match self {
            DataStep::Done => 0,
            DataStep::Unmount | DataStep::OpenMerged | DataStep::OpenPlain | DataStep::OpenPreview
            | DataStep::OpenAnyway => 1,
            DataStep::Mount => 2,
            DataStep::Find => 3,
            DataStep::Write => 4,
            DataStep::Look => 5,
        }
    }
}

impl AppView {
    /// The first step: a preview that this program mounted is unmounted, else
    /// the folder is opened.
    pub open spec fn data_view_begun(self, game_found: bool) -> (AppView, DataStep) {
        if !game_found {
            (self.with_status("Data view: game install dir not found"@), DataStep::Done)
        } else if self.preview_mounted {
            (self, DataStep::Unmount)
        } else {
            (self, DataStep::Look)
        }
    }

    /// What a step's result leads to.
    pub open spec fn data_view_next(
        self,
        s: Settings,
        data: Seq<char>,
        step: DataStep,
        result: ResultView,
    ) -> (AppView, DataStep) {
        let yes = result is Yes;
        let done = DataStep::Done;
        match step {
            DataStep::Done => (self, done),
            DataStep::Unmount => (
                AppView {
                    preview_mounted: false,
                    status: if yes {
                        "Data preview unmounted"@
                    } else {
                        "Could not unmount the preview on "@ + data
                    },
                    ..self
                },
                done,
            ),
            DataStep::Look => (
                self,
                if yes {
                    DataStep::OpenMerged
                } else {
                    DataStep::Write
                },
            ),
            DataStep::OpenMerged => (
                self.with_status(
                    if yes {
                        "Opened merged data/ — overlay already mounted; if the game isn't running, `fusermount3 -u \""@
                            + with_tilde(s, data) + "\"` removes it"@
                    } else {
                        "Data view: "@ + OPENER_HINT@
                    },
                ),
                done,
            ),
            DataStep::Write => match result {
                ResultView::Failed(e) => (self.with_status("Data view failed: "@ + e), done),
                _ => (self, DataStep::Find),
            },
            DataStep::Find => (
                self,
                if yes {
                    DataStep::Mount
                } else {
                    DataStep::OpenPlain
                },
            ),
            DataStep::OpenPlain => (
                self.with_status(
                    if yes {
                        "fuse-overlayfs not found — opening plain data/ (no merged preview)"@
                    } else {
                        "Data view: "@ + OPENER_HINT@
                    },
                ),
                done,
            ),
            DataStep::Mount => if yes {
                (AppView { preview_mounted: true, ..self }, DataStep::OpenPreview)
            } else {
                (self, DataStep::OpenAnyway)
            },
            DataStep::OpenPreview => (
                self.with_status(
                    if yes {
                        "Mounted merged data/ preview — press o again to unmount before playing"@
                    } else {
                        "Preview mounted ("@ + OPENER_HINT@ + "); press o again to unmount"@
                    },
                ),
                done,
            ),
            DataStep::OpenAnyway => (
                self.with_status(
                    if yes {
                        "Overlay preview mount failed — opening plain data/"@
                    } else {
                        "Overlay preview mount failed; "@ + OPENER_HINT@
                    },
                ),
                done,
            ),
        }
    }
}

/// Opening the folder comes to an end, whatever the results; a preview counts as
/// mounted only from the step that mounted it, and not once it was unmounted.
pub proof fn data_view_ends(
    v: AppView,
    s: Settings,
    data: Seq<char>,
    step: DataStep,
    result: ResultView,
)
    requires
        step != DataStep::Done,
    ensures
        v.data_view_next(s, data, step, result).1.left() < step.left(),
        v.data_view_next(s, data, step, result).0.preview_mounted == (if step == DataStep::Unmount {
            false
        } else if step == DataStep::Mount && result is Yes {
            true
        } else {
            v.preview_mounted
        }),
        v.data_view_next(s, data, step, result).0.slots == v.slots,
{
}

impl App {
    /// Open the game's `data/` folder as the game will see it, or unmount the
    /// preview that was mounted for that. Returns what is to be done first.
    pub fn toggle_data_view(&mut self, game_found: bool) -> (r: DataStep)
        ensures
            (final(self)@, r) == old(self)@.data_view_begun(game_found),
    {
        if !game_found {
            self.status = "Data view: game install dir not found".to_owned();
            DataStep::Done
        } else if self.preview_mounted {
            DataStep::Unmount
        } else {
            DataStep::Look
        }
    }

    /// What to do after a step, given what came of it.
    pub fn data_view_step(
        &mut self,
        s: &Settings,
        data: &str,
        step: DataStep,
        result: StepResult,
    ) -> (r: DataStep)
        ensures
            (final(self)@, r) == old(self)@.data_view_next(*s, data@, step, result@),
    {
        let yes = match &result {
            StepResult::Yes => true,
            _ => false,
        };
        match step {
            DataStep::Done => {},
            DataStep::Unmount => {
                self.preview_mounted = false;
                self.status = if yes {
                    "Data preview unmounted".to_owned()
                } else {
                    "Could not unmount the preview on ".to_owned().concat(data)
                };
            },
            DataStep::Look => {
                return if yes {
                    DataStep::OpenMerged
                } else {
                    DataStep::Write
                };
            },
            DataStep::OpenMerged => {
                self.status = if yes {
                    "Opened merged data/ — overlay already mounted; if the game isn't running, `fusermount3 -u \"".to_owned().concat(
                        tilde(s, data).as_str(),
                    ).concat("\"` removes it")
                } else {
                    "Data view: ".to_owned().concat(OPENER_HINT)
                };
            },
            DataStep::Write => match result {
                StepResult::Failed(e) => {
                    self.status = "Data view failed: ".to_owned().concat(e.as_str());
                },
                _ => {
                    return DataStep::Find;
                },
            },
            DataStep::Find => {
                return if yes {
                    DataStep::Mount
                } else {
                    DataStep::OpenPlain
                };
            },
            DataStep::OpenPlain => {
                self.status = if yes {
                    "fuse-overlayfs not found — opening plain data/ (no merged preview)".to_owned()
                } else {
                    "Data view: ".to_owned().concat(OPENER_HINT)
                };
            },
            DataStep::Mount => {
                if yes {
                    self.preview_mounted = true;
                    return DataStep::OpenPreview;
                }
                return DataStep::OpenAnyway;
            },
            DataStep::OpenPreview => {
                self.status = if yes {
                    "Mounted merged data/ preview — press o again to unmount before playing".to_owned()
                } else {
                    "Preview mounted (".to_owned().concat(OPENER_HINT).concat(
                        "); press o again to unmount",
                    )
                };
            },
            DataStep::OpenAnyway => {
                self.status = if yes {
                    "Overlay preview mount failed — opening plain data/".to_owned()
                } else {
                    "Overlay preview mount failed; ".to_owned().concat(OPENER_HINT)
                };
            },
        }
        DataStep::Done
    }
}

/// Opening the folder changes nothing but the message and whether a preview is
/// mounted.
pub proof fn opening_the_folder_changes_nothing_else(
    v: AppView,
    s: Settings,
    data: Seq<char>,
    step: DataStep,
    result: ResultView,
    found: bool,
)
    ensures
        ({
            let r = v.data_view_next(s, data, step, result).0;
            r == (AppView { preview_mounted: r.preview_mounted, status: r.status, ..v })
        }),
        ({
            let r = v.data_view_begun(found).0;
            r == (AppView { status: r.status, ..v })
        }),
{
}

/// The steps of opening the folder. A preview of this program is unmounted, and
/// that is all; a folder that is merged already is opened as it is. Else the
/// links are written, the mount program is looked for, and the preview is mounted
/// and opened; where that is not possible, the plain folder is opened.
pub proof fn the_folder_is_opened_in_steps(
    v: AppView,
    s: Settings,
    data: Seq<char>,
    result: ResultView,
    found: bool,
)
    ensures
        v.data_view_begun(found).1 == if !found {
            DataStep::Done
        } else if v.preview_mounted {
            DataStep::Unmount
        } else {
            DataStep::Look
        },
        v.data_view_next(s, data, DataStep::Look, result).1 == if result is Yes {
            DataStep::OpenMerged
        } else {
            DataStep::Write
        },
        v.data_view_next(s, data, DataStep::Write, result).1 == if result is Failed {
            DataStep::Done
        } else {
            DataStep::Find
        },
        v.data_view_next(s, data, DataStep::Find, result).1 == if result is Yes {
            DataStep::Mount
        } else {
            DataStep::OpenPlain
        },
        v.data_view_next(s, data, DataStep::Mount, result).1 == if result is Yes {
            DataStep::OpenPreview
        } else {
            DataStep::OpenAnyway
        },
        forall|step: DataStep|
            step == DataStep::Unmount || step == DataStep::OpenMerged || step
                == DataStep::OpenPlain || step == DataStep::OpenPreview || step
                == DataStep::OpenAnyway ==> (#[trigger] v.data_view_next(s, data, step, result)).1
                == DataStep::Done,
{
}

} // verus!
