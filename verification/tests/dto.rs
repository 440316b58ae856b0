use manager_core::compare::diff::{DiffEntry, DiffStatus, Side};
use manager_core::compare::run::CompareReport;
use manager_core::dto::{
    CompareReportDto, ConflictQuestionDto, DiffEntryDto, DuplicateGroupDto, DuplicateReportDto, EntryDto,
    ErrorQuestionDto, JobReportDto, KindDto, ListingDto, SearchReportDto,
};
use manager_core::duplicates::run::{DuplicateGroup, DuplicateReport};
use manager_core::jobs::{JobReport, Outcome};
use manager_core::search::run::SearchReport;
use manager_core::{Entry, EntryKind, Error, LinkTarget, Permissions, VPath};

fn vp(path: &str) -> VPath {
    VPath::local(path).unwrap()
}

fn entry(name: &str, kind: EntryKind, size: u64) -> Entry {
    Entry {
        name: name.into(),
        path: vp("/home").join(name).unwrap(),
        kind,
        size,
        modified: None,
        created: None,
        accessed: None,
        permissions: Permissions { readonly: false, unix_mode: None },
        hidden: name.starts_with('.'),
        link_target: None,
    }
}

#[test]
fn a_plain_file_maps_directly() {
    let dto = EntryDto::from_entry(&entry("notes.txt", EntryKind::File, 42));
    assert_eq!(dto.name, "notes.txt");
    assert_eq!(dto.kind, KindDto::File);
    assert_eq!(dto.size, 42);
    assert!(!dto.is_dir_like);
    assert!(!dto.hidden);
}

#[test]
fn a_dotfile_is_hidden() {
    let dto = EntryDto::from_entry(&entry(".bashrc", EntryKind::File, 1));
    assert!(dto.hidden);
}

#[test]
fn a_folder_is_dir_like() {
    let dto = EntryDto::from_entry(&entry("docs", EntryKind::Dir, 0));
    assert_eq!(dto.kind, KindDto::Dir);
    assert!(dto.is_dir_like);
}

#[test]
fn a_symlink_to_a_folder_is_dir_like_too() {
    let dto = EntryDto::from_entry(&entry("link", EntryKind::Symlink { target: Some(LinkTarget::Dir) }, 0));
    assert_eq!(dto.kind, KindDto::Symlink);
    assert!(dto.is_dir_like, "Enter should be able to open it");
}

#[test]
fn a_broken_symlink_is_not_dir_like() {
    let dto = EntryDto::from_entry(&entry("link", EntryKind::Symlink { target: None }, 0));
    assert!(!dto.is_dir_like);
}

#[test]
fn the_path_is_the_entrys_full_uri_not_just_its_name() {
    let dto = EntryDto::from_entry(&entry("notes.txt", EntryKind::File, 1));
    assert!(dto.path.ends_with("/home/notes.txt"), "{}", dto.path);
}

#[test]
fn a_known_modified_time_becomes_milliseconds_since_the_epoch() {
    let mut e = entry("notes.txt", EntryKind::File, 1);
    e.modified = Some(1_700_000_000 * 1_000_000_000);
    let dto = EntryDto::from_entry(&e);
    assert_eq!(dto.modified_ms, Some(1_700_000_000_000));
}

#[test]
fn an_unknown_modified_time_is_null_not_zero() {
    let dto = EntryDto::from_entry(&entry("notes.txt", EntryKind::File, 1));
    assert_eq!(dto.modified_ms, None, "zero would look like 1970, not unknown");
}

#[test]
fn a_listing_carries_its_own_path_and_parent() {
    let entries = [entry("a.txt", EntryKind::File, 1)];
    let listing = ListingDto::new(&vp("/home/erik"), &entries);
    assert!(listing.path.ends_with("/home/erik"), "{}", listing.path);
    assert!(listing.parent.unwrap().ends_with("/home"));
    assert_eq!(listing.entries.len(), 1);
}

#[test]
fn the_root_has_no_parent() {
    let listing = ListingDto::new(&vp("/"), &[]);
    assert_eq!(listing.parent, None);
}

#[test]
fn a_conflict_carries_both_entries_as_dtos() {
    let source = entry("notes.txt", EntryKind::File, 10);
    let existing = entry("notes.txt", EntryKind::File, 20);
    let dto = ConflictQuestionDto::new(9, &source, &existing);
    assert_eq!(dto.job, 9);
    assert_eq!(dto.source.size, 10);
    assert_eq!(dto.existing.size, 20);
}

#[test]
fn an_error_becomes_its_job_and_a_readable_message() {
    let dto = ErrorQuestionDto::new(4, &Error::NotFound(vp("/nope")));
    assert_eq!(dto.job, 4);
    assert!(!dto.message.is_empty());
}

#[test]
fn a_duplicate_group_carries_its_size_and_files() {
    let group = DuplicateGroup {
        size: 42,
        hash: blake3::hash(b"x").into(),
        files: vec![entry("a.txt", EntryKind::File, 42), entry("b.txt", EntryKind::File, 42)],
    };
    let dto = DuplicateGroupDto::from_group(&group);
    assert_eq!(dto.size, 42);
    assert_eq!(dto.files.len(), 2);
    assert_eq!(dto.files[0].name, "a.txt");
}

#[test]
fn a_duplicate_report_carries_its_counts() {
    let report = DuplicateReport { groups: 2, extra_files: 3, scanned: 50, unreadable: 1, cancelled: false };
    let dto = DuplicateReportDto::from_report(&report);
    assert_eq!(dto.groups, 2);
    assert_eq!(dto.extra_files, 3);
    assert_eq!(dto.scanned, 50);
    assert_eq!(dto.unreadable, 1);
    assert!(!dto.cancelled);
}

#[test]
fn a_diff_entrys_key_is_its_rel_path_joined_by_slash() {
    let diff = DiffEntry {
        rel_path: vec!["docs".into(), "a.txt".into()],
        left: Some(entry("a.txt", EntryKind::File, 5)),
        right: None,
        status: DiffStatus::LeftOnly,
        newer: None,
    };
    let dto = DiffEntryDto::from_diff(&diff);
    assert_eq!(dto.key, "docs/a.txt");
    assert_eq!(dto.name, "a.txt");
    assert!(dto.left.is_some());
    assert!(dto.right.is_none());
    assert_eq!(dto.status, "leftOnly");
    assert_eq!(dto.newer, None);
}

#[test]
fn a_diff_entrys_status_and_newer_side_translate_to_plain_strings() {
    let base = |status, newer| DiffEntry {
        rel_path: vec!["a.txt".into()],
        left: Some(entry("a.txt", EntryKind::File, 1)),
        right: Some(entry("a.txt", EntryKind::File, 2)),
        status,
        newer,
    };
    assert_eq!(DiffEntryDto::from_diff(&base(DiffStatus::Same, None)).status, "same");
    assert_eq!(DiffEntryDto::from_diff(&base(DiffStatus::Differs, None)).status, "differs");
    assert_eq!(DiffEntryDto::from_diff(&base(DiffStatus::KindMismatch, None)).status, "kindMismatch");
    assert_eq!(DiffEntryDto::from_diff(&base(DiffStatus::Differs, Some(Side::Left))).newer, Some("left"));
    assert_eq!(DiffEntryDto::from_diff(&base(DiffStatus::Differs, Some(Side::Right))).newer, Some("right"));
}

#[test]
fn a_compare_report_carries_its_counts_and_whether_it_was_cancelled() {
    let report = CompareReport { differences: 3, scanned: 40, unreadable: 1, cancelled: true };
    let dto = CompareReportDto::from_report(&report);
    assert_eq!(dto.differences, 3);
    assert_eq!(dto.scanned, 40);
    assert_eq!(dto.unreadable, 1);
    assert!(dto.cancelled);
}

#[test]
fn a_search_report_carries_its_counts_and_whether_it_was_cancelled() {
    let report = SearchReport { found: 3, scanned: 40, unreadable: 1, cancelled: true };
    let dto = SearchReportDto::from_report(&report);
    assert_eq!(dto.found, 3);
    assert_eq!(dto.scanned, 40);
    assert_eq!(dto.unreadable, 1);
    assert!(dto.cancelled);
}

#[test]
fn a_job_reports_outcome_as_a_plain_string() {
    let report = JobReport {
        job: 7,
        title: "Trash 3 items".into(),
        outcome: Outcome::Cancelled,
        items: 2,
        bytes: 10,
        skipped: 1,
        elapsed: 500_000_000,
    };
    let dto = JobReportDto::from_report(&report);
    assert_eq!(dto.id, 7);
    assert_eq!(dto.outcome, "cancelled");
    assert_eq!(dto.skipped, 1);
    assert_eq!(dto.elapsed_ms, 500);
}

// ---- More cases ----

#[test]
fn times_before_the_epoch_are_unknown() {
    assert_eq!(manager_core::dto::to_millis(-1), None);
    assert_eq!(manager_core::dto::to_millis(1_999_999), Some(1));
}
