use manager_core::compare::diff::{compare_level, DiffEntry, DiffStatus, Side};
use manager_core::{Entry, EntryKind, Permissions, VPath};

fn root() -> VPath {
    VPath::parse("sftp://test/root").unwrap()
}

fn make(name: &str, kind: EntryKind, size: u64, modified: Option<i128>) -> Entry {
    Entry {
        name: name.into(),
        path: root().join(name).unwrap(),
        kind,
        size,
        modified,
        created: None,
        accessed: None,
        permissions: Permissions { readonly: false, unix_mode: None },
        hidden: false,
        link_target: None,
    }
}

/// A file modified `secs` seconds after the epoch (times are nanoseconds).
fn file(name: &str, size: u64, secs: i128) -> Entry {
    make(name, EntryKind::File, size, Some(secs * 1_000_000_000))
}

fn dir(name: &str) -> Entry {
    make(name, EntryKind::Dir, 0, None)
}

fn find<'a>(entries: &'a [DiffEntry], name: &str) -> &'a DiffEntry {
    entries
        .iter()
        .find(|e| e.name() == name)
        .unwrap_or_else(|| panic!("no entry called {name:?}"))
}

#[test]
fn a_name_only_on_the_left_is_left_only() {
    let entries = compare_level(&[], &[file("only-left.txt", 1, 1)], &[]);
    assert_eq!(entries.len(), 1);
    assert_eq!(find(&entries, "only-left.txt").status, DiffStatus::LeftOnly);
}

#[test]
fn a_name_only_on_the_right_is_right_only() {
    let entries = compare_level(&[], &[], &[file("only-right.txt", 1, 1)]);
    assert_eq!(find(&entries, "only-right.txt").status, DiffStatus::RightOnly);
}

#[test]
fn same_size_and_time_is_the_same() {
    let entries = compare_level(&[], &[file("a.txt", 10, 100)], &[file("a.txt", 10, 100)]);
    let entry = find(&entries, "a.txt");
    assert_eq!(entry.status, DiffStatus::Same);
    assert_eq!(entry.newer, None);
}

#[test]
fn different_size_is_different_however_the_times_compare() {
    let entries = compare_level(&[], &[file("a.txt", 10, 100)], &[file("a.txt", 20, 100)]);
    assert_eq!(find(&entries, "a.txt").status, DiffStatus::Differs);
}

#[test]
fn same_size_but_different_time_is_different_and_says_which_is_newer() {
    let entries = compare_level(&[], &[file("a.txt", 10, 200)], &[file("a.txt", 10, 100)]);
    let entry = find(&entries, "a.txt");
    assert_eq!(entry.status, DiffStatus::Differs);
    assert_eq!(entry.newer, Some(Side::Left));

    let entries = compare_level(&[], &[file("a.txt", 10, 100)], &[file("a.txt", 10, 200)]);
    assert_eq!(find(&entries, "a.txt").newer, Some(Side::Right));
}

#[test]
fn a_missing_timestamp_on_either_side_is_treated_as_the_same() {
    let no_time = make("a.txt", EntryKind::File, 10, None);
    let entries = compare_level(&[], &[no_time], &[file("a.txt", 10, 100)]);
    assert_eq!(find(&entries, "a.txt").status, DiffStatus::Same);
}

#[test]
fn two_folders_with_the_same_name_are_the_same_without_looking_inside() {
    let entries = compare_level(&[], &[dir("docs")], &[dir("docs")]);
    assert_eq!(find(&entries, "docs").status, DiffStatus::Same);
}

#[test]
fn diff_a_file_and_a_folder_sharing_a_name_is_a_kind_mismatch() {
    let entries = compare_level(&[], &[file("thing", 1, 1)], &[dir("thing")]);
    let entry = find(&entries, "thing");
    assert_eq!(entry.status, DiffStatus::KindMismatch);
    assert!(!entry.status.is_syncable());
}

#[test]
fn results_are_sorted_naturally_and_have_no_duplicate_names() {
    let left = vec![file("img10.png", 1, 1), file("img2.png", 1, 1)];
    let right = vec![file("img2.png", 1, 1)];
    let entries = compare_level(&[], &left, &right);
    let names: Vec<&str> = entries.iter().map(DiffEntry::name).collect();
    assert_eq!(names, ["img2.png", "img10.png"], "natural order, no repeats");
}

#[test]
fn the_rel_path_is_the_parent_plus_the_name() {
    let parent = vec!["docs".to_string(), "old".to_string()];
    let entries = compare_level(&parent, &[file("a.txt", 1, 1)], &[]);
    assert_eq!(find(&entries, "a.txt").rel_path, ["docs", "old", "a.txt"]);
}

#[test]
fn left_only_and_right_only_entries_have_no_newer_side() {
    let entries = compare_level(&[], &[file("l.txt", 1, 1)], &[file("r.txt", 1, 2)]);
    assert_eq!(find(&entries, "l.txt").newer, None);
    assert_eq!(find(&entries, "r.txt").newer, None);
}

#[test]
fn an_empty_pair_of_folders_compares_to_nothing() {
    assert!(compare_level(&[], &[], &[]).is_empty());
}

// ---- More cases ----

#[test]
fn the_other_side() {
    assert_eq!(Side::Left.other(), Side::Right);
    assert_eq!(Side::Right.other(), Side::Left);
}

#[test]
fn which_states_can_be_synced() {
    assert!(DiffStatus::LeftOnly.is_syncable());
    assert!(DiffStatus::RightOnly.is_syncable());
    assert!(DiffStatus::Differs.is_syncable());
    assert!(!DiffStatus::Same.is_syncable());
}

#[test]
fn the_first_of_two_entries_with_one_name_is_the_one_compared() {
    let left = vec![file("a", 1, 1), file("a", 2, 1)];
    let entries = compare_level(&[], &left, &[file("a", 1, 1)]);
    assert_eq!(entries.len(), 1);
    assert_eq!(entries[0].status, DiffStatus::Same);
}

#[test]
fn comparing_the_other_way_round_is_the_mirror_image() {
    let left = [file("a", 1, 1), file("b", 2, 5), file("c", 3, 9), dir("d"), file("e", 4, 4), file("f", 1, 7)];
    let right = [file("b", 2, 5), file("c", 3, 2), file("d", 1, 1), file("e", 5, 4), dir("g"), file("f", 1, 8)];
    let there = compare_level(&[], &left, &right);
    let back = compare_level(&[], &right, &left);
    assert_eq!(there.len(), back.len());
    let mirror_status = |s: DiffStatus| match s {
        DiffStatus::LeftOnly => DiffStatus::RightOnly,
        DiffStatus::RightOnly => DiffStatus::LeftOnly,
        other => other,
    };
    for e in &there {
        let m = find(&back, e.name());
        assert_eq!(m.status, mirror_status(e.status), "{}", e.name());
        assert_eq!(m.newer, e.newer.map(Side::other), "{}", e.name());
        assert_eq!(m.left.is_some(), e.right.is_some());
    }
}
