//! The decisions a running job takes between its reads and writes.
//!
//! The job itself stats, lists, reads and writes, and waits for a person's
//! answer; each time it has what it needs to decide something, it asks one of
//! these functions what to do.
use vstd::prelude::*;

use crate::entry::{Entry, EntryKind, EntryV};
use crate::error::{Error, Result};
use crate::jobs::{ConflictAction, ConflictAnswer, ErrorAnswer};
use crate::text::{chars_of, decimal, decimal_chars, push_chars, push_str, string_of};
use crate::vpath::{spec_display, spec_file_name, spec_join, spec_parent, spec_starts_with, valid_name, same_path, PathV, VPath};
use crate::entry::{rfind, rfind_char, lemma_rfind};

verus! {

/// What `dest` turned out to be when a copy or move was planned.
#[derive(Debug, Clone, Copy, PartialEq, Eq, Structural)]
pub enum DestState {
    /// An existing folder (or a link to one).
    Folder,
    /// Something else that exists.
    Other,
    /// Nothing is there.
    Missing,
}

/// Where a copy or move sends its sources, by the `JobSpec::Copy` rules.
#[derive(Debug, Clone, Copy, PartialEq, Eq, Structural)]
pub enum PlanStep {
    /// Into the existing folder, each under its own name.
    Into,
    /// `dest` is the new name of the single source (or there is nothing to copy).
    AsName,
    /// Create the folder `dest` first, then put the sources into it.
    CreateFolder,
    /// Several sources can't all become one existing file.
    NotAFolder,
}

pub open spec fn plan_step_spec(state: DestState, sources: nat) -> PlanStep {
    match state {
        DestState::Folder => PlanStep::Into,
        DestState::Other => if sources == 1 {
            PlanStep::AsName
        } else {
            PlanStep::NotAFolder
        },
        DestState::Missing => if sources <= 1 {
            PlanStep::AsName
        } else {
            PlanStep::CreateFolder
        },
    }
}

/// Applies the `JobSpec::Copy` rules about what `dest` means: an existing folder
/// takes the sources inside it; an existing file is fine as the new name of a
/// single source; a missing `dest` is the new name of a single source, or is
/// created as the folder for several.
pub fn plan_step(state: DestState, sources: usize) -> (r: PlanStep)
    ensures
        r == plan_step_spec(state, sources as nat),
{
    match state {
        DestState::Folder => PlanStep::Into,
        DestState::Other => if sources == 1 {
            PlanStep::AsName
        } else {
            PlanStep::NotAFolder
        },
        DestState::Missing => if sources <= 1 {
            PlanStep::AsName
        } else {
            PlanStep::CreateFolder
        },
    }
}

/// What happens to an item whose destination is already taken.
#[derive(Debug, Clone, Copy, PartialEq, Eq, Structural)]
pub enum ConflictStep {
    /// It is the item itself: refuse.
    OntoItself,
    /// Two folders: combine them, no question asked.
    Merge,
    /// Ask what to do (or use the answer given for all).
    Ask,
}

pub open spec fn conflict_step_spec(src: EntryV, existing: EntryV) -> ConflictStep {
    if existing.path == src.path {
        ConflictStep::OntoItself
    } else if src.kind == EntryKind::Dir && existing.kind.spec_is_dir_like() {
        ConflictStep::Merge
    } else {
        ConflictStep::Ask
    }
}

/// Decides what an existing destination means before anyone is asked.
pub fn conflict_step(src: &Entry, existing: &Entry) -> (r: ConflictStep)
    ensures
        r == conflict_step_spec(src@, existing@),
{
    if same_path(&existing.path, &src.path) {
        return ConflictStep::OntoItself;
    }
    let src_dir = match src.kind {
        EntryKind::Dir => true,
        _ => false,
    };
    if src_dir && existing.kind.is_dir_like() {
        ConflictStep::Merge
    } else {
        ConflictStep::Ask
    }
}

/// What meeting an existing destination means: the entry itself is refused;
/// two folders are merged, and only two folders (a file never merges into a
/// folder, nor a folder onto a file); anything else is a question for the user.
pub proof fn lemma_what_a_destination_means(src: EntryV, existing: EntryV)
    ensures
        (conflict_step_spec(src, existing) == ConflictStep::OntoItself) == (existing.path == src.path),
        (conflict_step_spec(src, existing) == ConflictStep::Merge) == (existing.path != src.path && src.kind
            == EntryKind::Dir && existing.kind.spec_is_dir_like()),
        conflict_step_spec(src, existing) == ConflictStep::Merge ==> src.kind == EntryKind::Dir,
        existing.path != src.path && src.kind != EntryKind::Dir ==> conflict_step_spec(src, existing)
            == ConflictStep::Ask,
        existing.path != src.path && !existing.kind.spec_is_dir_like() ==> conflict_step_spec(src, existing)
            == ConflictStep::Ask,
{
}

/// What a conflict answer comes to.
#[derive(Debug, Clone, Copy, PartialEq, Eq, Structural)]
pub enum Resolution {
    /// Stop the whole job.
    Cancel,
    /// Leave this item alone.
    Skip,
    /// Write under the first free `name (n).ext` instead.
    Rename,
    /// Replace what is there.
    Replace,
    /// Overwriting was asked for, but what is there is a folder.
    FolderInTheWay,
}

pub open spec fn resolve_spec(src: EntryV, existing: EntryV, action: ConflictAction) -> Resolution {
    let overwrite = match action {
        ConflictAction::Overwrite => true,
        ConflictAction::OverwriteOlder => match (existing.modified, src.modified) {
            (Some(old), Some(new)) => old < new,
            _ => false,
        },
        _ => false,
    };
    match action {
        ConflictAction::Cancel => Resolution::Cancel,
        ConflictAction::Rename => Resolution::Rename,
        _ => if !overwrite {
            Resolution::Skip
        } else if existing.kind == EntryKind::Dir {
            Resolution::FolderInTheWay
        } else {
            Resolution::Replace
        },
    }
}

/// Turns the answer to "the destination exists" into what to do. "Overwrite if
/// older" overwrites only when both dates are known and what is there is older:
/// unknown dates count as "not older", so nothing is lost by guessing.
pub fn resolve(src: &Entry, existing: &Entry, action: ConflictAction) -> (r: Resolution)
    ensures
        r == resolve_spec(src@, existing@, action),
{
    let overwrite = match action {
        ConflictAction::Cancel => return Resolution::Cancel,
        ConflictAction::Rename => return Resolution::Rename,
        ConflictAction::Skip => false,
        ConflictAction::Overwrite => true,
        ConflictAction::OverwriteOlder => match (existing.modified, src.modified) {
            (Some(old), Some(new)) => old < new,
            _ => false,
        },
    };
    if !overwrite {
        return Resolution::Skip;
    }
    match existing.kind {
        EntryKind::Dir => Resolution::FolderInTheWay,
        _ => Resolution::Replace,
    }
}

/// What an error answer comes to.
#[derive(Debug, Clone, Copy, PartialEq, Eq, Structural)]
pub enum ErrorStep {
    Retry,
    Skip,
    Cancel,
}

/// What the job does after an error, given whether every error is being skipped
/// and, if not, the answer: the step, and whether every later error is skipped.
pub open spec fn error_step_spec(skip_all: bool, answer: ErrorAnswer) -> (ErrorStep, bool) {
    if skip_all {
        (ErrorStep::Skip, true)
    } else {
        match answer {
            ErrorAnswer::Retry => (ErrorStep::Retry, false),
            ErrorAnswer::Cancel => (ErrorStep::Cancel, false),
            ErrorAnswer::Skip => (ErrorStep::Skip, false),
            ErrorAnswer::SkipAll => (ErrorStep::Skip, true),
        }
    }
}

/// Decides what an error leads to. Once "skip all" was answered, every later
/// error is skipped without asking.
pub fn error_step(skip_all: bool, answer: ErrorAnswer) -> (r: (ErrorStep, bool))
    ensures
        r == error_step_spec(skip_all, answer),
{
    if skip_all {
        return (ErrorStep::Skip, true);
    }
    match answer {
        ErrorAnswer::Retry => (ErrorStep::Retry, false),
        ErrorAnswer::Cancel => (ErrorStep::Cancel, false),
        ErrorAnswer::Skip => (ErrorStep::Skip, false),
        ErrorAnswer::SkipAll => (ErrorStep::Skip, true),
    }
}

/// "Skip all" is for good: whatever is answered afterwards, errors are skipped.
pub proof fn lemma_skip_all_sticks(answer: ErrorAnswer, later: ErrorAnswer)
    ensures
        error_step_spec(error_step_spec(true, answer).1, later) == (ErrorStep::Skip, true),
        error_step_spec(false, ErrorAnswer::SkipAll).1,
{
}

/// Where a copied or moved item goes, after checking what's already there.
#[derive(Debug, Clone, Copy, PartialEq, Eq, Structural)]
pub enum TargetKind {
    /// Nothing there yet.
    New,
    /// A folder is already there and we're bringing a folder: combine them.
    Merge,
    /// Something is there and the user said to overwrite it.
    Replace,
}

/// Whether a move can be a plain rename, instant and copying nothing: to a new
/// name, or over something replaced unless a folder is moving; never a merge.
pub fn can_rename(target: TargetKind, src: &Entry) -> (r: bool)
    ensures
        r == match target {
            TargetKind::New => true,
            TargetKind::Replace => src.kind != EntryKind::Dir,
            TargetKind::Merge => false,
        },
{
    match target {
        TargetKind::New => true,
        TargetKind::Replace => match src.kind {
            EntryKind::Dir => false,
            _ => true,
        },
        TargetKind::Merge => false,
    }
}

/// The name of `p`, or nothing.
pub open spec fn name_or_empty(p: PathV) -> Seq<char> {
    match spec_file_name(p) {
        Some(n) => n,
        None => Seq::empty(),
    }
}

/// `…/photo.jpg` → `…/.photo.jpg.part`: where a file is written before it is
/// renamed into place.
pub open spec fn temp_name(p: PathV) -> Seq<char> {
    seq!['.'] + name_or_empty(p) + seq!['.', 'p', 'a', 'r', 't']
}

/// The name of `dest`, or nothing.
fn name_of(dest: &VPath) -> (r: String)
    ensures
        r@ == name_or_empty(dest@),
{
    match dest.file_name() {
        Some(n) => n,
        None => {
            let r = String::new();
            r
        },
    }
}

/// `…/photo.jpg` → `…/.photo.jpg.part`
pub fn temp_path(dest: &VPath) -> (r: Result<VPath>)
    ensures
        spec_parent(dest@) is None ==> (r matches Err(e) && e is InvalidOperation),
        spec_parent(dest@) matches Some(par) ==> {
            &&& r is Ok <==> valid_name(temp_name(dest@))
            &&& r matches Ok(p) ==> p@ == spec_join(par, temp_name(dest@))
        },
{
    let name = name_of(dest);
    let parent = match dest.parent() {
        Some(p) => p,
        None => {
            let mut m = String::new();
            proof {
                reveal_strlit("can't write to ");
            }
            push_str(&mut m, "can't write to ");
            push_str(&mut m, dest.to_string().as_str());
            return Err(Error::InvalidOperation(m));
        },
    };
    let mut t = String::new();
    proof {
        reveal_strlit(".");
        reveal_strlit(".part");
    }
    push_str(&mut t, ".");
    push_str(&mut t, name.as_str());
    push_str(&mut t, ".part");
    assert(t@ =~= temp_name(dest@));
    parent.join(t.as_str())
}

/// Where the stem of `name` ends: at its last dot, unless that is the first
/// character or there is none.
pub open spec fn stem_end(name: Seq<char>) -> int {
    match rfind(name, '.') {
        Some(d) => if d > 0 {
            d
        } else {
            name.len() as int
        },
        None => name.len() as int,
    }
}

/// `photo.jpg` with `n` → `photo (n).jpg`.
pub open spec fn numbered_name(name: Seq<char>, n: nat) -> Seq<char> {
    let k = stem_end(name);
    name.take(k) + seq![' ', '('] + decimal(n) + seq![')'] + name.skip(k)
}

/// The `n`-th candidate for keeping both: `photo.jpg` → `photo (n).jpg` beside it.
pub fn numbered_candidate(dest: &VPath, n: u64) -> (r: Result<VPath>)
    ensures
        ({
            let par = match spec_parent(dest@) {
                Some(p) => p,
                None => dest@,
            };
            let name = numbered_name(name_or_empty(dest@), n as nat);
            &&& r is Ok <==> valid_name(name)
            &&& r matches Ok(p) ==> p@ == spec_join(par, name)
        }),
{
    let name = name_of(dest);
    let chars = chars_of(name.as_str());
    proof {
        lemma_rfind(chars@, '.');
    }
    let k: usize = match rfind_char(&chars, '.') {
        Some(d) => if d > 0 {
            d
        } else {
            chars.len()
        },
        None => chars.len(),
    };
    let parent = match dest.parent() {
        Some(p) => p,
        None => dest.clone(),
    };
    let mut stem: Vec<char> = Vec::new();
    let mut i: usize = 0;
    while i < k
        invariant
            k <= chars@.len(),
            i <= k,
            stem@ == chars@.take(i as int),
        decreases k - i,
    {
        stem.push(chars[i]);
        i += 1;
        assert(stem@ =~= chars@.take(i as int));
    }
    let mut ext: Vec<char> = Vec::new();
    let mut j: usize = k;
    while j < chars.len()
        invariant
            k <= j <= chars@.len(),
            ext@ == chars@.subrange(k as int, j as int),
        decreases chars@.len() - j,
    {
        ext.push(chars[j]);
        j += 1;
        assert(ext@ =~= chars@.subrange(k as int, j as int));
    }
    let mut t = String::new();
    push_chars(&mut t, &stem);
    proof {
        reveal_strlit(" (");
        reveal_strlit(")");
    }
    push_str(&mut t, " (");
    let digits = decimal_chars(n);
    push_chars(&mut t, &digits);
    push_str(&mut t, ")");
    push_chars(&mut t, &ext);
    assert(chars@.subrange(k as int, chars@.len() as int) =~= chars@.skip(k as int));
    assert(t@ =~= numbered_name(name_or_empty(dest@), n as nat));
    parent.join(t.as_str())
}

/// The message for a folder that would be copied into itself.
pub fn inside_itself_message(src: &VPath) -> (r: String)
    ensures
        r@ == "can't put "@ + spec_display(src@) + " inside itself"@,
{
    let mut m = String::new();
    push_str(&mut m, "can't put ");
    push_str(&mut m, src.to_string().as_str());
    push_str(&mut m, " inside itself");
    m
}

/// Whether copying or moving `src` to `dest` would put a folder inside itself,
/// which would never end.
pub fn into_itself(src: &Entry, dest: &VPath) -> (r: bool)
    ensures
        r == (src@.kind == EntryKind::Dir && spec_starts_with(dest@, src@.path)),
{
    match src.kind {
        EntryKind::Dir => dest.starts_with(&src.path),
        _ => false,
    }
}

} // verus!

verus! {

/// Whether a folder whose children have been dealt with is removed: only by a
/// move (a delete counts as one) and only when every child came through, so
/// nothing that was skipped is lost with its folder.
pub fn removes_source_dir(is_move: bool, children_done: &Vec<bool>) -> (r: bool)
    ensures
        r <==> (is_move && forall|i: int| 0 <= i < children_done@.len() ==> children_done@[i]),
{
    if !is_move {
        return false;
    }
    let mut i: usize = 0;
    while i < children_done.len()
        invariant
            i <= children_done@.len(),
            forall|j: int| 0 <= j < i ==> children_done@[j],
        decreases children_done@.len() - i,
    {
        if !children_done[i] {
            return false;
        }
        i += 1;
    }
    true
}

/// The action for a conflict, and the one to use for later conflicts in the job
/// without asking: once an answer is given for all, it is never asked again.
pub fn conflict_answer(remembered: Option<ConflictAction>, answer: ConflictAnswer) -> (r: (
    ConflictAction,
    Option<ConflictAction>,
))
    ensures
        r == (match remembered {
            Some(a) => (a, Some(a)),
            None => (answer.action, if answer.apply_to_all {
                Some(answer.action)
            } else {
                None
            }),
        }),
{
    match remembered {
        Some(a) => (a, Some(a)),
        None => (answer.action, if answer.apply_to_all {
            Some(answer.action)
        } else {
            None
        }),
    }
}

/// The message for an entry that would be copied onto itself.
pub fn onto_itself_message(src: &VPath) -> (r: String)
    ensures
        r@ == spec_display(src@) + " can't be copied onto itself"@,
{
    let mut m = src.to_string();
    push_str(&mut m, " can't be copied onto itself");
    m
}

/// The message for a file that would replace a folder.
pub fn folder_in_the_way_message(existing: &VPath) -> (r: String)
    ensures
        r@ == "can't replace the folder "@ + spec_display(existing@) + " with a file"@,
{
    let mut m = String::new();
    push_str(&mut m, "can't replace the folder ");
    push_str(&mut m, existing.to_string().as_str());
    push_str(&mut m, " with a file");
    m
}

} // verus!
