use std::cmp::Ordering;

use manager_core::{natural_cmp, sort_entries, Entry, EntryKind, Permissions, SortKey, SortOrder, SortSpec, VPath};

fn sorted(mut names: Vec<&str>) -> Vec<&str> {
    names.sort_by(|a, b| natural_cmp(a, b));
    names
}

#[test]
fn numbers_compare_by_value() {
    assert_eq!(
        sorted(vec!["file10", "file2", "file1", "file20"]),
        vec!["file1", "file2", "file10", "file20"]
    );
}

#[test]
fn letters_ignore_case() {
    assert_eq!(sorted(vec!["banana", "Apple", "cherry"]), vec!["Apple", "banana", "cherry"]);
}

#[test]
fn huge_numbers_do_not_overflow() {
    assert_eq!(
        natural_cmp("x99999999999999999999999", "x100000000000000000000000"),
        Ordering::Less
    );
}

#[test]
fn equal_looking_names_still_have_a_fixed_order() {
    assert_ne!(natural_cmp("File", "file"), Ordering::Equal);
    assert_ne!(natural_cmp("01", "1"), Ordering::Equal);
}

#[test]
fn prefix_sorts_first() {
    assert_eq!(natural_cmp("abc", "abcd"), Ordering::Less);
}

// ---- More cases ----

fn entry(name: &str, kind: EntryKind, size: u64, modified: Option<i128>) -> Entry {
    Entry {
        name: name.into(),
        path: VPath::parse("sftp://test/").unwrap().join(name).unwrap(),
        kind,
        size,
        modified,
        created: None,
        accessed: None,
        permissions: Permissions { readonly: false, unix_mode: None },
        hidden: false,
        link_target: None,
    }
}

fn names(entries: &[Entry]) -> Vec<&str> {
    entries.iter().map(|e| e.name.as_str()).collect()
}

#[test]
fn swapping_the_names_flips_the_answer() {
    for (a, b) in [("a2", "a10"), ("B", "a"), ("x", "x1"), ("same", "same")] {
        assert_eq!(natural_cmp(a, b), natural_cmp(b, a).reverse());
    }
    assert_eq!(natural_cmp("same", "same"), Ordering::Equal);
}

#[test]
fn leading_zeros_do_not_change_a_number() {
    assert_eq!(natural_cmp("img007", "img8"), Ordering::Less);
    assert_eq!(natural_cmp("img010", "img9"), Ordering::Greater);
}

#[test]
fn folders_come_first_in_natural_order() {
    let mut entries = vec![
        entry("b.txt", EntryKind::File, 1, None),
        entry("docs10", EntryKind::Dir, 0, None),
        entry("a.txt", EntryKind::File, 1, None),
        entry("docs2", EntryKind::Dir, 0, None),
    ];
    sort_entries(&mut entries, SortSpec::default());
    assert_eq!(names(&entries), ["docs2", "docs10", "a.txt", "b.txt"]);
}

#[test]
fn descending_keeps_folders_on_top() {
    let mut entries = vec![
        entry("a.txt", EntryKind::File, 1, None),
        entry("z", EntryKind::Dir, 0, None),
        entry("b.txt", EntryKind::File, 1, None),
    ];
    let spec = SortSpec { key: SortKey::Name, order: SortOrder::Descending, dirs_first: true };
    sort_entries(&mut entries, spec);
    assert_eq!(names(&entries), ["z", "b.txt", "a.txt"]);
}

#[test]
fn by_size_with_ties_broken_by_name() {
    let mut entries = vec![
        entry("c", EntryKind::File, 5, None),
        entry("b", EntryKind::File, 1, None),
        entry("a", EntryKind::File, 5, None),
    ];
    let spec = SortSpec { key: SortKey::Size, order: SortOrder::Ascending, dirs_first: true };
    sort_entries(&mut entries, spec);
    assert_eq!(names(&entries), ["b", "a", "c"]);
}

#[test]
fn by_modified_with_unknown_times_first() {
    let mut entries = vec![
        entry("new", EntryKind::File, 1, Some(200)),
        entry("unknown", EntryKind::File, 1, None),
        entry("old", EntryKind::File, 1, Some(100)),
    ];
    let spec = SortSpec { key: SortKey::Modified, order: SortOrder::Ascending, dirs_first: true };
    sort_entries(&mut entries, spec);
    assert_eq!(names(&entries), ["unknown", "old", "new"]);
}

#[test]
fn by_extension_then_stem() {
    let mut entries = vec![
        entry("b.txt", EntryKind::File, 1, None),
        entry("a.rs", EntryKind::File, 1, None),
        entry("a.txt", EntryKind::File, 1, None),
        entry("noext", EntryKind::File, 1, None),
    ];
    let spec = SortSpec { key: SortKey::Extension, order: SortOrder::Ascending, dirs_first: true };
    sort_entries(&mut entries, spec);
    assert_eq!(names(&entries), ["noext", "a.rs", "a.txt", "b.txt"]);
}
