//! Walking a folder tree looking for files: what is looked for, what is
//! reported, and what each entry met on the way means.
//!
//! The walk itself reads folders and files, so whoever drives it asks
//! [`consider`] about each entry: whether to go into it, and whether it is a
//! match, or one only if its contents hold the text.
use vstd::prelude::*;

use crate::entry::{Entry, EntryKind, EntryV};
use crate::search::content::{Needle, NeedleV};
use crate::search::masks::{matches_spec, Masks, MasksV};
use crate::vpath::VPath;

verus! {

/// What to look for.
#[derive(Debug, Clone, PartialEq, Eq)]
pub struct SearchSpec {
    /// The folder to start from. Everything below it is searched.
    pub root: VPath,
    pub masks: Masks,
    /// Text that has to appear inside the file, if any.
    pub needle: Option<Needle>,
    /// Whether hidden files and folders are searched at all.
    pub include_hidden: bool,
}

/// Something the search wants to tell the UI.
#[derive(Debug)]
pub enum SearchEvent {
    /// A file or folder that matches.
    Found(Box<Entry>),
    Finished(SearchReport),
}

#[derive(Debug, Clone, Copy, PartialEq, Eq, Structural)]
pub struct SearchReport {
    pub found: u64,
    pub scanned: u64,
    /// Folders that couldn't be read, usually for want of permission.
    pub unreadable: u64,
    pub cancelled: bool,
}

/// Whether an entry is a match.
#[derive(Debug, Clone, Copy, PartialEq, Eq, Structural)]
pub enum Candidate {
    No,
    Yes,
    /// Only if the file holds the text.
    IfContains,
}

/// What the walk does with one entry.
#[derive(Debug, Clone, Copy, PartialEq, Eq, Structural)]
pub struct SearchVerdict {
    /// Go into it: it is a real folder. Links to folders are not followed, since
    /// following them can go round in circles for ever.
    pub descend: bool,
    pub candidate: Candidate,
}

/// What [`consider`] decides for an entry.
pub open spec fn consider_spec(masks: MasksV, needle: Option<NeedleV>, include_hidden: bool, e: EntryV) -> SearchVerdict {
    if e.hidden && !include_hidden {
        SearchVerdict { descend: false, candidate: Candidate::No }
    } else {
        SearchVerdict {
            descend: e.kind == EntryKind::Dir,
            candidate: if !matches_spec(masks, e.name) {
                Candidate::No
            } else {
                match needle {
                    None => Candidate::Yes,
                    // A folder has no contents to search.
                    Some(_) => if e.kind.spec_is_dir_like() {
                        Candidate::No
                    } else {
                        Candidate::IfContains
                    },
                }
            },
        }
    }
}

pub open spec fn needle_view(n: Option<Needle>) -> Option<NeedleV> {
    match n {
        Some(x) => Some(x@),
        None => None,
    }
}

/// Decides what the walk does with `entry`: hidden entries are passed over unless
/// asked for, real folders are gone into, and an entry matches when its name fits
/// the masks and, with text to look for, it is a file that holds it.
pub fn consider(spec: &SearchSpec, entry: &Entry) -> (r: SearchVerdict)
    ensures
        r == consider_spec(spec.masks@, needle_view(spec.needle), spec.include_hidden, entry@),
{
    if entry.hidden && !spec.include_hidden {
        return SearchVerdict { descend: false, candidate: Candidate::No };
    }
    let descend = match entry.kind {
        EntryKind::Dir => true,
        _ => false,
    };
    let candidate = if !spec.masks.matches(entry.name.as_str()) {
        Candidate::No
    } else {
        match &spec.needle {
            None => Candidate::Yes,
            Some(_) => if entry.kind.is_dir_like() {
                Candidate::No
            } else {
                Candidate::IfContains
            },
        }
    };
    SearchVerdict { descend, candidate }
}

/// What a search reports, from the entry and the search alone: never a hidden
/// entry unless hidden ones are asked for, never a name the masks leave out,
/// and never a folder when text inside files is looked for. A visible entry
/// whose name the masks take is reported as it is when no text is looked for,
/// and a visible file is reported if it holds the text. The walk goes into
/// visible real folders, and into nothing else.
pub proof fn lemma_what_a_search_reports(masks: MasksV, needle: Option<NeedleV>, include_hidden: bool, e: EntryV)
    ensures
        ({
            let v = consider_spec(masks, needle, include_hidden, e);
            let visible = !e.hidden || include_hidden;
            &&& !visible ==> v.candidate == Candidate::No
            &&& !matches_spec(masks, e.name) ==> v.candidate == Candidate::No
            &&& needle is Some && e.kind.spec_is_dir_like() ==> v.candidate == Candidate::No
            &&& visible && matches_spec(masks, e.name) && needle is None ==> v.candidate == Candidate::Yes
            &&& visible && matches_spec(masks, e.name) && needle is Some && !e.kind.spec_is_dir_like()
                ==> v.candidate == Candidate::IfContains
            &&& v.descend == (visible && e.kind == EntryKind::Dir)
        }),
{
}

} // verus!
