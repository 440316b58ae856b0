//! Walking two folder trees side by side: what is compared, what is reported,
//! and what each pair met on the way means.
//!
//! Recursion stops the moment a name is only on one side: that entry is
//! reported as a single difference (a whole missing file or folder) rather
//! than opened up, which is what lets a sync copy it with one ordinary copy job.
use vstd::prelude::*;

use crate::compare::diff::{newer_spec, newer_of, DiffEntry, DiffEntryV, DiffStatus};
use crate::compare::hash::same_hash;
use crate::duplicates::group::clone_entries;
use crate::entry::{Entry, EntryKind, EntryV};
use crate::sort::entry_views;
use crate::vpath::VPath;

verus! {

/// What to compare.
#[derive(Debug, Clone, PartialEq, Eq)]
pub struct CompareSpec {
    pub left: VPath,
    pub right: VPath,
    /// Hash both sides of an equal-sized file rather than trusting the
    /// modified time. Slower — it means reading every same-sized file on
    /// both sides in full — but certain.
    pub by_content: bool,
    pub include_hidden: bool,
}

#[derive(Debug)]
pub enum CompareEvent {
    Found(Box<DiffEntry>),
    Finished(CompareReport),
}

#[derive(Debug, Clone, Copy, PartialEq, Eq, Structural)]
pub struct CompareReport {
    pub differences: u64,
    pub scanned: u64,
    /// Folders that couldn't be listed on one or both sides.
    pub unreadable: u64,
    pub cancelled: bool,
}

/// The entries that take part: hidden ones only when asked for.
pub open spec fn visible_spec(s: Seq<EntryV>, include_hidden: bool) -> Seq<EntryV> {
    s.filter(|e: EntryV| include_hidden || !e.hidden)
}

/// The entries of a listing that take part in the comparison.
pub fn visible(entries: &Vec<Entry>, include_hidden: bool) -> (r: Vec<Entry>)
    ensures
        entry_views(r@) == visible_spec(entry_views(entries@), include_hidden),
{
    let ghost all = entry_views(entries@);
    let mut out: Vec<Entry> = Vec::new();
    let mut i: usize = 0;
    assert(all.take(0) =~= Seq::<EntryV>::empty());
    while i < entries.len()
        invariant
            all == entry_views(entries@),
            i <= entries@.len(),
            entry_views(out@) == visible_spec(all.take(i as int), include_hidden),
        decreases entries@.len() - i,
    {
        let ghost before = entry_views(out@);
        proof {
            assert(all.take(i + 1) =~= all.take(i as int).push(entries@[i as int]@));
            all.take(i as int).lemma_filter_push(entries@[i as int]@, |e: EntryV| include_hidden || !e.hidden);
        }
        if include_hidden || !entries[i].hidden {
            out.push(entries[i].clone());
            assert(entry_views(out@) =~= before.push(entries@[i as int]@));
        }
        i += 1;
    }
    assert(all.take(entries@.len() as int) =~= all);
    out
}

/// What the walk does next with one pair from a level.
#[derive(Debug, Clone, Copy, PartialEq, Eq, Structural)]
pub enum PairStep {
    /// Two folders that matched: go a level deeper instead of reporting them.
    Descend,
    /// Two files of equal size, and asked to compare contents: hash both, then
    /// settle. Links and special files keep the size and time guess.
    Hash,
    /// A difference to report.
    Report,
    /// Nothing to report.
    Pass,
}

pub open spec fn pair_step_spec(d: DiffEntryV, by_content: bool) -> PairStep {
    if d.status == DiffStatus::Same && (d.left matches Some(l) && l.kind == EntryKind::Dir) {
        PairStep::Descend
    } else if by_content && (d.left matches Some(l) && (d.right matches Some(r) && l.size == r.size
        && l.kind == EntryKind::File && r.kind == EntryKind::File)) {
        PairStep::Hash
    } else if d.status == DiffStatus::Same {
        PairStep::Pass
    } else {
        PairStep::Report
    }
}

/// Decides what happens to a pair: matching folders are gone into; a pair the
/// sizes agree on is hashed when contents are compared (a size mismatch is certain
/// to differ, so hashing would only confirm it); then anything not the same is
/// reported.
pub fn pair_step(entry: &DiffEntry, by_content: bool) -> (r: PairStep)
    ensures
        r == pair_step_spec(entry@, by_content),
{
    let left_dir = match &entry.left {
        Some(l) => match l.kind {
            EntryKind::Dir => true,
            _ => false,
        },
        None => false,
    };
    if entry.status == DiffStatus::Same && left_dir {
        return PairStep::Descend;
    }
    let same_size = match (&entry.left, &entry.right) {
        (Some(l), Some(r)) => l.size == r.size && match (l.kind, r.kind) {
            (EntryKind::File, EntryKind::File) => true,
            _ => false,
        },
        _ => false,
    };
    if by_content && same_size {
        PairStep::Hash
    } else if entry.status == DiffStatus::Same {
        PairStep::Pass
    } else {
        PairStep::Report
    }
}

/// The pair after its contents were hashed: both hashes decide `Same` or `Differs`,
/// overriding the metadata guess; links and special files, or a side that failed
/// to read, leave the guess standing.
pub open spec fn settle_spec(d: DiffEntryV, left_hash: Option<Seq<u8>>, right_hash: Option<Seq<u8>>) -> DiffEntryV {
    match (d.left, d.right) {
        (Some(l), Some(r)) => if l.kind != EntryKind::File || r.kind != EntryKind::File {
            d
        } else {
            match (left_hash, right_hash) {
                (Some(a), Some(b)) => if a == b {
                    DiffEntryV { status: DiffStatus::Same, newer: None, ..d }
                } else {
                    DiffEntryV { status: DiffStatus::Differs, newer: newer_spec(l, r), ..d }
                },
                _ => d,
            }
        },
        _ => d,
    }
}

pub open spec fn hash_view(h: Option<[u8; 32]>) -> Option<Seq<u8>> {
    match h {
        Some(x) => Some(x@),
        None => None,
    }
}

/// Settles an equal-sized pair by the hashes of its two sides (`None` for a side
/// that could not be read).
pub fn settle_by_content(entry: &mut DiffEntry, left_hash: Option<[u8; 32]>, right_hash: Option<[u8; 32]>)
    ensures
        final(entry)@ == settle_spec(old(entry)@, hash_view(left_hash), hash_view(right_hash)),
{
    let (status, newer) = match (&entry.left, &entry.right) {
        (Some(l), Some(r)) => {
            let both_files = match (l.kind, r.kind) {
                (EntryKind::File, EntryKind::File) => true,
                _ => false,
            };
            if !both_files {
                return;
            }
            match (&left_hash, &right_hash) {
                (Some(a), Some(b)) => if same_hash(a, b) {
                    (DiffStatus::Same, None)
                } else {
                    (DiffStatus::Differs, newer_of(l, r))
                },
                _ => return,
            }
        },
        _ => return,
    };
    entry.status = status;
    entry.newer = newer;
}

} // verus!
