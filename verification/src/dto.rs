//! What crosses the boundary to a graphical frontend: plain, JSON-friendly
//! shapes of the library's values.
//!
//! Every `VPath` becomes its `to_uri()` string: the frontend never parses or
//! builds a path itself, only ever passes one back exactly as it received it.
//! Times become milliseconds since the Unix epoch, the form JavaScript's `Date`
//! takes directly.
use vstd::prelude::*;

use crate::compare::diff::{DiffEntry, DiffStatus, Side};
use crate::compare::run::CompareReport;
use crate::duplicates::run::{DuplicateGroup, DuplicateReport};
use crate::entry::{Entry, EntryKind, EntryV};
use crate::error::{error_text, Error};
use crate::jobs::{JobId, JobReport, Outcome};
use crate::search::run::SearchReport;
use crate::text::{push_str, strings};
use crate::vpath::{spec_parent, spec_to_uri, VPath};

verus! {

#[derive(Debug, Clone, Copy, PartialEq, Eq, Structural)]
pub enum KindDto {
    File,
    Dir,
    Symlink,
    Other,
}

#[derive(Debug, Clone, PartialEq)]
pub struct EntryDto {
    pub name: String,
    /// The address to send back for "open this" or "list this again" — a
    /// `VPath`'s `to_uri()`, opaque to the frontend.
    pub path: String,
    pub kind: KindDto,
    /// Whether this is something a folder-like Enter can open: a real
    /// folder, or a symlink that points at one.
    pub is_dir_like: bool,
    pub size: u64,
    /// Milliseconds since the Unix epoch, `None` when unknown.
    pub modified_ms: Option<i64>,
    pub hidden: bool,
}

pub struct EntryDtoV {
    pub name: Seq<char>,
    pub path: Seq<char>,
    pub kind: KindDto,
    pub is_dir_like: bool,
    pub size: u64,
    pub modified_ms: Option<i64>,
    pub hidden: bool,
}

impl View for EntryDto {
    type V = EntryDtoV;

    open spec fn view(&self) -> EntryDtoV {
        EntryDtoV {
            name: self.name@,
            path: self.path@,
            kind: self.kind,
            is_dir_like: self.is_dir_like,
            size: self.size,
            modified_ms: self.modified_ms,
            hidden: self.hidden,
        }
    }
}

pub open spec fn kind_dto(k: EntryKind) -> KindDto {
    match k {
        EntryKind::File => KindDto::File,
        EntryKind::Dir => KindDto::Dir,
        EntryKind::Symlink { .. } => KindDto::Symlink,
        EntryKind::Other => KindDto::Other,
    }
}

/// Whole milliseconds since the epoch of a time in nanoseconds, when it is not
/// before the epoch and fits.
pub open spec fn millis_spec(nanos: i128) -> Option<i64> {
    if nanos < 0 || nanos / 1_000_000 > i64::MAX {
        None
    } else {
        Some((nanos / 1_000_000) as i64)
    }
}

pub open spec fn modified_ms_spec(t: Option<i128>) -> Option<i64> {
    match t {
        Some(n) => millis_spec(n),
        None => None,
    }
}

pub open spec fn entry_dto_spec(e: EntryV) -> EntryDtoV {
    EntryDtoV {
        name: e.name,
        path: spec_to_uri(e.path),
        kind: kind_dto(e.kind),
        is_dir_like: e.kind.spec_is_dir_like(),
        size: e.size,
        modified_ms: modified_ms_spec(e.modified),
        hidden: e.hidden,
    }
}

/// Milliseconds since the epoch, `None` before it or when it doesn't fit.
pub fn to_millis(nanos: i128) -> (r: Option<i64>)
    ensures
        r == millis_spec(nanos),
{
    if nanos < 0 {
        return None;
    }
    let ms = nanos / 1_000_000;
    if ms > i64::MAX as i128 {
        None
    } else {
        Some(ms as i64)
    }
}

impl EntryDto {
    pub fn from_entry(entry: &Entry) -> (r: EntryDto)
        ensures
            r@ == entry_dto_spec(entry@),
    {
        EntryDto {
            name: entry.name.clone(),
            path: entry.path.to_uri(),
            kind: match entry.kind {
                EntryKind::File => KindDto::File,
                EntryKind::Dir => KindDto::Dir,
                EntryKind::Symlink { .. } => KindDto::Symlink,
                EntryKind::Other => KindDto::Other,
            },
            is_dir_like: entry.kind.is_dir_like(),
            size: entry.size,
            modified_ms: match entry.modified {
                Some(n) => to_millis(n),
                None => None,
            },
            hidden: entry.hidden,
        }
    }
}

pub open spec fn dto_views(v: Seq<EntryDto>) -> Seq<EntryDtoV> {
    v.map_values(|d: EntryDto| d@)
}

pub open spec fn entry_views(v: Seq<Entry>) -> Seq<EntryV> {
    v.map_values(|e: Entry| e@)
}

/// The frontend's shapes of a list of entries.
fn dtos_of(entries: &[Entry]) -> (r: Vec<EntryDto>)
    ensures
        dto_views(r@) == entry_views(entries@).map_values(|e: EntryV| entry_dto_spec(e)),
{
    let mut out: Vec<EntryDto> = Vec::new();
    let mut i: usize = 0;
    while i < entries.len()
        invariant
            i <= entries@.len(),
            dto_views(out@) == entry_views(entries@).take(i as int).map_values(|e: EntryV| entry_dto_spec(e)),
        decreases entries@.len() - i,
    {
        let ghost before = dto_views(out@);
        let d = EntryDto::from_entry(&entries[i]);
        out.push(d);
        i += 1;
        proof {
            assert(dto_views(out@) =~= before.push(d@));
            assert(entry_views(entries@).take(i as int) =~= entry_views(entries@).take(i - 1).push(entries@[i - 1]@));
            assert(dto_views(out@) =~= entry_views(entries@).take(i as int).map_values(|e: EntryV| entry_dto_spec(e)));
        }
    }
    assert(entry_views(entries@).take(entries@.len() as int) =~= entry_views(entries@));
    out
}

/// Sent once when a job ends, however it ends.
#[derive(Debug, Clone, PartialEq)]
pub struct JobReportDto {
    pub id: u64,
    pub title: String,
    /// `"completed"` or `"cancelled"`.
    pub outcome: &'static str,
    pub items: u64,
    pub bytes: u64,
    pub skipped: u64,
    pub elapsed_ms: u64,
}

pub open spec fn outcome_text(o: Outcome) -> Seq<char> {
    match o {
        Outcome::Completed => "completed"@,
        Outcome::Cancelled => "cancelled"@,
    }
}

impl JobReportDto {
    pub fn from_report(report: &JobReport) -> (r: JobReportDto)
        ensures
            r.id == report.job,
            r.title@ == report.title@,
            r.outcome@ == outcome_text(report.outcome),
            r.items == report.items,
            r.bytes == report.bytes,
            r.skipped == report.skipped,
            r.elapsed_ms == report.elapsed / 1_000_000,
    {
        JobReportDto {
            id: report.job,
            title: report.title.clone(),
            outcome: match report.outcome {
                Outcome::Completed => "completed",
                Outcome::Cancelled => "cancelled",
            },
            items: report.items,
            bytes: report.bytes,
            skipped: report.skipped,
            elapsed_ms: report.elapsed / 1_000_000,
        }
    }
}

/// "The destination already has something in its way."
#[derive(Debug, Clone, PartialEq)]
pub struct ConflictQuestionDto {
    pub job: u64,
    /// What we're copying or moving.
    pub source: EntryDto,
    /// What's already at the destination.
    pub existing: EntryDto,
}

impl ConflictQuestionDto {
    pub fn new(job: JobId, source: &Entry, existing: &Entry) -> (r: ConflictQuestionDto)
        ensures
            r.job == job,
            r.source@ == entry_dto_spec(source@),
            r.existing@ == entry_dto_spec(existing@),
    {
        ConflictQuestionDto { job, source: EntryDto::from_entry(source), existing: EntryDto::from_entry(existing) }
    }
}

/// "Something failed."
#[derive(Debug, Clone, PartialEq)]
pub struct ErrorQuestionDto {
    pub job: u64,
    pub message: String,
}

impl ErrorQuestionDto {
    pub fn new(job: JobId, error: &Error) -> (r: ErrorQuestionDto)
        ensures
            r.job == job,
            r.message@ == error_text(*error),
    {
        ErrorQuestionDto { job, message: error.to_string() }
    }
}

/// Sent once when a search ends, however it ends.
#[derive(Debug, Clone, Copy, PartialEq, Eq, Structural)]
pub struct SearchReportDto {
    pub found: u64,
    pub scanned: u64,
    /// Folders that couldn't be read, usually for want of permission.
    pub unreadable: u64,
    pub cancelled: bool,
}

impl SearchReportDto {
    pub fn from_report(report: &SearchReport) -> (r: SearchReportDto)
        ensures
            r == (SearchReportDto {
                found: report.found,
                scanned: report.scanned,
                unreadable: report.unreadable,
                cancelled: report.cancelled,
            }),
    {
        SearchReportDto {
            found: report.found,
            scanned: report.scanned,
            unreadable: report.unreadable,
            cancelled: report.cancelled,
        }
    }
}

/// One group of files with identical content. The hash that proved it isn't
/// included — it's an internal grouping key, never shown to a person.
#[derive(Debug, Clone, PartialEq)]
pub struct DuplicateGroupDto {
    /// How many bytes each copy wastes.
    pub size: u64,
    pub files: Vec<EntryDto>,
}

impl DuplicateGroupDto {
    pub fn from_group(group: &DuplicateGroup) -> (r: DuplicateGroupDto)
        ensures
            r.size == group.size,
            dto_views(r.files@) == entry_views(group.files@).map_values(|e: EntryV| entry_dto_spec(e)),
    {
        DuplicateGroupDto { size: group.size, files: dtos_of(group.files.as_slice()) }
    }
}

/// Sent once when a duplicate search ends, however it ends.
#[derive(Debug, Clone, Copy, PartialEq, Eq, Structural)]
pub struct DuplicateReportDto {
    pub groups: u64,
    /// Copies that could be removed, keeping one of each group.
    pub extra_files: u64,
    pub scanned: u64,
    pub unreadable: u64,
    pub cancelled: bool,
}

impl DuplicateReportDto {
    pub fn from_report(report: &DuplicateReport) -> (r: DuplicateReportDto)
        ensures
            r == (DuplicateReportDto {
                groups: report.groups,
                extra_files: report.extra_files,
                scanned: report.scanned,
                unreadable: report.unreadable,
                cancelled: report.cancelled,
            }),
    {
        DuplicateReportDto {
            groups: report.groups,
            extra_files: report.extra_files,
            scanned: report.scanned,
            unreadable: report.unreadable,
            cancelled: report.cancelled,
        }
    }
}

/// One name, and how it compares between the two folders being compared.
#[derive(Debug, Clone, PartialEq)]
pub struct DiffEntryDto {
    /// `rel_path` joined with `/` — stable, unique within one comparison.
    pub key: String,
    pub name: String,
    /// `None` when this name exists only on the other side.
    pub left: Option<EntryDto>,
    pub right: Option<EntryDto>,
    /// `"leftOnly"`, `"rightOnly"`, `"same"`, `"differs"` or `"kindMismatch"`.
    pub status: &'static str,
    /// Which side is newer, when that's known.
    pub newer: Option<&'static str>,
}

/// The parts joined with `/` between them.
pub open spec fn joined(parts: Seq<Seq<char>>) -> Seq<char>
    decreases parts.len(),
{
    if parts.len() == 0 {
        Seq::empty()
    } else if parts.len() == 1 {
        parts[0]
    } else {
        joined(parts.drop_last()) + seq!['/'] + parts.last()
    }
}

pub open spec fn status_text(s: DiffStatus) -> Seq<char> {
    match s {
        DiffStatus::LeftOnly => "leftOnly"@,
        DiffStatus::RightOnly => "rightOnly"@,
        DiffStatus::Same => "same"@,
        DiffStatus::Differs => "differs"@,
        DiffStatus::KindMismatch => "kindMismatch"@,
    }
}

pub open spec fn side_text(s: Side) -> Seq<char> {
    match s {
        Side::Left => "left"@,
        Side::Right => "right"@,
    }
}

pub open spec fn opt_dto_view(o: Option<EntryDto>) -> Option<EntryDtoV> {
    match o {
        Some(d) => Some(d@),
        None => None,
    }
}

pub open spec fn opt_entry_dto(o: Option<EntryV>) -> Option<EntryDtoV> {
    match o {
        Some(e) => Some(entry_dto_spec(e)),
        None => None,
    }
}

fn opt_dto(o: &Option<Entry>) -> (r: Option<EntryDto>)
    ensures
        opt_dto_view(r) == opt_entry_dto(crate::compare::diff::opt_entry_view(*o)),
{
    match o {
        Some(e) => Some(EntryDto::from_entry(e)),
        None => None,
    }
}

/// A difference's relative path joined with `/`: stable and unique within one
/// comparison, which is how a frontend names the entries it marks.
pub fn diff_key(rel_path: &Vec<String>) -> (r: String)
    ensures
        r@ == joined(strings(rel_path@)),
{
    let mut key = String::new();
    let mut i: usize = 0;
    let ghost parts = strings(rel_path@);
    while i < rel_path.len()
        invariant
            i <= rel_path@.len(),
            parts == strings(rel_path@),
            key@ == joined(parts.take(i as int)),
        decreases rel_path@.len() - i,
    {
        let ghost before = key@;
        if i > 0 {
            push_str(&mut key, "/");
        }
        push_str(&mut key, rel_path[i].as_str());
        i += 1;
        proof {
            reveal_strlit("/");
            assert(parts.take(i as int).drop_last() =~= parts.take(i - 1));
            if i == 1 {
                assert(parts.take(0) =~= Seq::<Seq<char>>::empty());
                assert(key@ =~= parts.take(1)[0]);
            } else {
                assert(key@ =~= before + seq!['/'] + parts.take(i as int).last());
            }
        }
    }
    assert(parts.take(rel_path@.len() as int) =~= parts);
    key
}

impl DiffEntryDto {
    pub fn from_diff(diff: &DiffEntry) -> (r: DiffEntryDto)
        ensures
            r.key@ == joined(strings(diff.rel_path@)),
            r.name@ == (if diff.rel_path@.len() == 0 {
                Seq::<char>::empty()
            } else {
                diff.rel_path@.last()@
            }),
            opt_dto_view(r.left) == opt_entry_dto(diff@.left),
            opt_dto_view(r.right) == opt_entry_dto(diff@.right),
            r.status@ == status_text(diff.status),
            match diff.newer {
                Some(s) => r.newer matches Some(t) && t@ == side_text(s),
                None => r.newer is None,
            },
    {
        let key = diff_key(&diff.rel_path);
        DiffEntryDto {
            key,
            name: diff.name().to_owned(),
            left: opt_dto(&diff.left),
            right: opt_dto(&diff.right),
            status: match diff.status {
                DiffStatus::LeftOnly => "leftOnly",
                DiffStatus::RightOnly => "rightOnly",
                DiffStatus::Same => "same",
                DiffStatus::Differs => "differs",
                DiffStatus::KindMismatch => "kindMismatch",
            },
            newer: match diff.newer {
                Some(Side::Left) => Some("left"),
                Some(Side::Right) => Some("right"),
                None => None,
            },
        }
    }
}

/// Sent once when a comparison ends, however it ends.
#[derive(Debug, Clone, Copy, PartialEq, Eq, Structural)]
pub struct CompareReportDto {
    pub differences: u64,
    pub scanned: u64,
    /// Folders that couldn't be listed on one or both sides.
    pub unreadable: u64,
    pub cancelled: bool,
}

impl CompareReportDto {
    pub fn from_report(report: &CompareReport) -> (r: CompareReportDto)
        ensures
            r == (CompareReportDto {
                differences: report.differences,
                scanned: report.scanned,
                unreadable: report.unreadable,
                cancelled: report.cancelled,
            }),
    {
        CompareReportDto {
            differences: report.differences,
            scanned: report.scanned,
            unreadable: report.unreadable,
            cancelled: report.cancelled,
        }
    }
}

/// What starting a job hands straight back.
#[derive(Debug, Clone, PartialEq)]
pub struct JobStartedDto {
    pub id: u64,
    pub title: String,
}

/// A folder's contents, and the path to it and its parent — everything one
/// panel needs to redraw itself.
#[derive(Debug, Clone, PartialEq)]
pub struct ListingDto {
    pub path: String,
    /// `None` at the top of a filesystem — nothing above it to go up to.
    pub parent: Option<String>,
    pub entries: Vec<EntryDto>,
}

impl ListingDto {
    pub fn new(path: &VPath, entries: &[Entry]) -> (r: ListingDto)
        ensures
            r.path@ == spec_to_uri(path@),
            match spec_parent(path@) {
                Some(p) => r.parent matches Some(s) && s@ == spec_to_uri(p),
                None => r.parent is None,
            },
            dto_views(r.entries@) == entry_views(entries@).map_values(|e: EntryV| entry_dto_spec(e)),
    {
        ListingDto {
            path: path.to_uri(),
            parent: match path.parent() {
                Some(p) => Some(p.to_uri()),
                None => None,
            },
            entries: dtos_of(entries),
        }
    }
}

} // verus!
