//! The job engine's vocabulary: what a job is asked to do, how far it has come,
//! the questions it asks and the answers it takes, and how it ended.
//!
//! The engine runs on its own task and asks a person when something needs a
//! decision ("the file exists, overwrite?", "permission denied, retry?"). The
//! decisions it takes on the way are in [`worker`].
//!
//! Safety rules the engine follows:
//! - A file is first written to a temporary `.name.part` file next to its
//!   destination and only renamed into place once complete. Cancelling or
//!   crashing mid-copy never leaves a half-written file where the real one was.
//! - A move only deletes the source after everything in it was copied.
//! - Folders are never copied into themselves.
use vstd::prelude::*;

use crate::text::{decimal, decimal_chars, push_chars, push_str};
use crate::vpath::{spec_display, spec_file_name, PathV, VPath};

pub mod worker;

verus! {

pub type JobId = u64;

/// What to do.
#[derive(Debug, Clone, PartialEq, Eq)]
pub enum JobSpec {
    /// Copy `sources` to `dest`. If `dest` is an existing folder, the sources go
    /// inside it. If it doesn't exist and there is one source, that's the new
    /// name. If it doesn't exist and there are several sources, it is created.
    Copy { sources: Vec<VPath>, dest: VPath },
    /// Same rules as `Copy`, but the sources are removed afterwards.
    Move { sources: Vec<VPath>, dest: VPath },
    /// Moves `targets` to the trash, or deletes them for good if `permanent`.
    Delete { targets: Vec<VPath>, permanent: bool },
}

/// What a [`JobSpec`] asks for.
pub enum JobSpecV {
    Copy { sources: Seq<PathV>, dest: PathV },
    Move { sources: Seq<PathV>, dest: PathV },
    Delete { targets: Seq<PathV>, permanent: bool },
}

pub open spec fn path_views(v: Seq<VPath>) -> Seq<PathV> {
    v.map_values(|p: VPath| p@)
}

impl View for JobSpec {
    type V = JobSpecV;

    open spec fn view(&self) -> JobSpecV {
        match self {
            JobSpec::Copy { sources, dest } => JobSpecV::Copy { sources: path_views(sources@), dest: dest@ },
            JobSpec::Move { sources, dest } => JobSpecV::Move { sources: path_views(sources@), dest: dest@ },
            JobSpec::Delete { targets, permanent } => JobSpecV::Delete {
                targets: path_views(targets@),
                permanent: *permanent,
            },
        }
    }
}

/// The name of the first path, or nothing.
pub open spec fn single_name(paths: Seq<PathV>) -> Seq<char> {
    if paths.len() == 0 {
        Seq::empty()
    } else {
        match spec_file_name(paths[0]) {
            Some(n) => n,
            None => Seq::empty(),
        }
    }
}

/// `one` for a single item, `N items` otherwise.
pub open spec fn count_text(n: nat, one: Seq<char>) -> Seq<char> {
    if n == 1 {
        one
    } else {
        decimal(n) + seq![' ', 'i', 't', 'e', 'm', 's']
    }
}

pub open spec fn arrow_text() -> Seq<char> {
    seq![' ', '\u{2192}', ' ']
}

/// A short description such as `Copy 3 items → /tmp`.
pub open spec fn title_spec(j: JobSpecV) -> Seq<char> {
    match j {
        JobSpecV::Copy { sources, dest } => seq!['C', 'o', 'p', 'y', ' '] + count_text(
            sources.len(),
            single_name(sources),
        ) + arrow_text() + spec_display(dest),
        JobSpecV::Move { sources, dest } => seq!['M', 'o', 'v', 'e', ' '] + count_text(
            sources.len(),
            single_name(sources),
        ) + arrow_text() + spec_display(dest),
        JobSpecV::Delete { targets, permanent } => (if permanent {
            seq!['D', 'e', 'l', 'e', 't', 'e']
        } else {
            seq!['T', 'r', 'a', 's', 'h']
        }) + seq![' '] + count_text(targets.len(), single_name(targets)),
    }
}

/// Appends `one` for a single item, `N items` otherwise, where `one` is the name of
/// the first path.
fn push_count(out: &mut String, paths: &Vec<VPath>)
    ensures
        final(out)@ == old(out)@ + count_text(paths@.len(), single_name(path_views(paths@))),
{
    if paths.len() == 1 {
        match paths[0].file_name() {
            Some(n) => push_str(out, n.as_str()),
            None => {},
        }
    } else {
        let digits = decimal_chars(paths.len() as u64);
        push_chars(out, &digits);
        proof {
            reveal_strlit(" items");
        }
        push_str(out, " items");
    }
}

impl JobSpec {
    /// A short description such as `Copy 3 items → /tmp`.
    pub fn title(&self) -> (r: String)
        ensures
            r@ == title_spec(self@),
    {
        let mut out = String::new();
        proof {
            reveal_strlit("Copy ");
            reveal_strlit("Move ");
            reveal_strlit(" \u{2192} ");
            reveal_strlit("Delete ");
            reveal_strlit("Trash ");
        }
        match self {
            JobSpec::Copy { sources, dest } => {
                push_str(&mut out, "Copy ");
                push_count(&mut out, sources);
                push_str(&mut out, " \u{2192} ");
                let d = dest.to_string();
                push_str(&mut out, d.as_str());
            },
            JobSpec::Move { sources, dest } => {
                push_str(&mut out, "Move ");
                push_count(&mut out, sources);
                push_str(&mut out, " \u{2192} ");
                let d = dest.to_string();
                push_str(&mut out, d.as_str());
            },
            JobSpec::Delete { targets, permanent } => {
                if *permanent {
                    push_str(&mut out, "Delete ");
                } else {
                    push_str(&mut out, "Trash ");
                }
                push_count(&mut out, targets);
            },
        }
        out
    }
}

#[derive(Debug, Clone, Copy, PartialEq, Eq, Structural, Default)]
pub enum Phase {
    /// Counting files and bytes so progress can be shown as a percentage.
    #[default]
    Scanning,
    Working,
    Done,
}

/// A snapshot of how far a job has come. Times are nanoseconds.
#[derive(Debug, Clone, PartialEq)]
pub struct Progress {
    pub phase: Phase,
    pub total_bytes: u64,
    pub done_bytes: u64,
    /// Files, folders and links.
    pub total_items: u64,
    pub done_items: u64,
    /// What's being worked on right now.
    pub current: Option<VPath>,
    /// Time spent actually working (pauses and waiting for answers don't count).
    pub elapsed: u64,
    pub paused: bool,
}

impl Default for Progress {
    fn default() -> (r: Self)
        ensures
            r.phase == Phase::Scanning,
            r.total_bytes == 0 && r.done_bytes == 0 && r.total_items == 0 && r.done_items == 0,
            r.current is None,
            r.elapsed == 0,
            !r.paused,
    {
        Progress {
            phase: Phase::Scanning,
            total_bytes: 0,
            done_bytes: 0,
            total_items: 0,
            done_items: 0,
            current: None,
            elapsed: 0,
            paused: false,
        }
    }
}

#[derive(Debug, Clone, Copy, PartialEq, Eq, Structural)]
pub enum ConflictAction {
    Overwrite,
    /// Overwrite only if the existing file is older than the one we bring.
    OverwriteOlder,
    Skip,
    /// Keep both: the new one becomes `name (2).ext`.
    Rename,
    /// Cancel the whole job.
    Cancel,
}

#[derive(Debug, Clone, Copy, PartialEq, Eq, Structural)]
pub struct ConflictAnswer {
    pub action: ConflictAction,
    /// Use the same action for every later conflict in this job without asking.
    pub apply_to_all: bool,
}

#[derive(Debug, Clone, Copy, PartialEq, Eq, Structural)]
pub enum ErrorAnswer {
    Retry,
    Skip,
    /// Skip this and every later error in this job without asking.
    SkipAll,
    Cancel,
}

#[derive(Debug, Clone, Copy, PartialEq, Eq, Structural)]
pub enum Outcome {
    Completed,
    Cancelled,
}

/// Sent once when a job ends, however it ends. `elapsed` is in nanoseconds.
#[derive(Debug, Clone, PartialEq)]
pub struct JobReport {
    pub job: JobId,
    pub title: String,
    pub outcome: Outcome,
    /// Files, folders and links copied/moved/deleted.
    pub items: u64,
    pub bytes: u64,
    /// Items left alone because of a Skip answer.
    pub skipped: u64,
    pub elapsed: u64,
}

/// What the UI's remote control tells a running job.
#[derive(Debug, Clone, Copy, PartialEq, Eq, Structural)]
pub enum Control {
    Run,
    Pause,
    Cancel,
}

/// Whether asking for `wanted` changes a job that is at `current`. Cancelling is
/// final: nothing changes a cancelled job.
pub open spec fn control_changes(current: Control, wanted: Control) -> bool {
    current != wanted && current != Control::Cancel
}

/// What the control becomes when `wanted` is asked for, and whether it changed.
pub fn next_control(current: Control, wanted: Control) -> (r: (Control, bool))
    ensures
        r.1 == control_changes(current, wanted),
        r.0 == (if r.1 {
            wanted
        } else {
            current
        }),
{
    let change = current != wanted && current != Control::Cancel;
    if change {
        (wanted, true)
    } else {
        (current, false)
    }
}

/// Once a job is cancelled, no request moves it anywhere else.
pub proof fn lemma_cancelling_is_final(wanted: Control)
    ensures
        !control_changes(Control::Cancel, wanted),
{
}

} // verus!
