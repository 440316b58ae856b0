use manager_core::archive::index::{Index, RawEntry};

/// `secs` seconds after the epoch, in nanoseconds.
fn at(secs: i128) -> Option<i128> {
    Some(secs * 1_000_000_000)
}

fn file(name: &str, size: u64) -> RawEntry {
    RawEntry { name: name.into(), size, modified: None, slot: 0 }
}

fn split(dir: &str) -> Vec<String> {
    dir.split('/').filter(|p| !p.is_empty()).map(str::to_string).collect()
}

/// The names of a folder's children, folders marked with a trailing `/`.
fn names(index: &Index, dir: &str) -> Vec<String> {
    let mut out: Vec<String> = index
        .list(&split(dir))
        .unwrap_or_else(|| panic!("no folder at {dir:?}"))
        .iter()
        .map(|n| if n.is_dir { format!("{}/", n.name) } else { n.name.clone() })
        .collect();
    out.sort();
    out
}

fn parts(path: &str) -> Vec<String> {
    path.split('/').map(str::to_string).collect()
}

#[test]
fn files_at_the_top_are_the_root_listing() {
    let index = Index::build(vec![file("a.txt", 1), file("b.txt", 2)]);
    assert_eq!(names(&index, ""), ["a.txt", "b.txt"]);
}

#[test]
fn folders_nobody_wrote_down_are_invented() {
    let index = Index::build(vec![file("photos/2024/img.jpg", 9)]);
    assert_eq!(names(&index, ""), ["photos/"]);
    assert_eq!(names(&index, "photos"), ["2024/"]);
    assert_eq!(names(&index, "photos/2024"), ["img.jpg"]);
    let invented = index.get(&parts("photos")).unwrap();
    assert!(invented.is_dir);
    assert_eq!(invented.slot, None, "there is no such entry to read");
}

#[test]
fn a_folder_entry_keeps_its_own_details() {
    let index = Index::build(vec![
        RawEntry { name: "photos/".into(), size: 0, modified: at(1_000), slot: 7 },
        file("photos/img.jpg", 9),
    ]);
    let photos = index.get(&parts("photos")).unwrap();
    assert!(photos.is_dir);
    assert_eq!(photos.modified, at(1_000));
    assert_eq!(photos.slot, Some(7));
}

#[test]
fn a_folder_entry_after_its_contents_still_wins_over_the_invented_one() {
    let index = Index::build(vec![
        file("photos/img.jpg", 9),
        RawEntry { name: "photos/".into(), size: 0, modified: at(1_000), slot: 7 },
    ]);
    let photos = index.get(&parts("photos")).unwrap();
    assert_eq!(photos.modified, at(1_000));
    assert_eq!(names(&index, "photos"), ["img.jpg"], "contents are kept");
}

#[test]
fn empty_folders_are_listed_and_can_be_opened() {
    let index = Index::build(vec![RawEntry { name: "empty/".into(), size: 0, modified: None, slot: 3 }]);
    assert_eq!(names(&index, ""), ["empty/"]);
    assert_eq!(names(&index, "empty"), Vec::<String>::new());
}

#[test]
fn tar_style_dot_slash_prefixes_are_ignored() {
    let index = Index::build(vec![file("./notes.txt", 1), file("./sub/./deep.txt", 2)]);
    assert_eq!(names(&index, ""), ["notes.txt", "sub/"]);
    assert_eq!(names(&index, "sub"), ["deep.txt"]);
}

#[test]
fn a_leading_slash_does_not_make_an_absolute_path() {
    let index = Index::build(vec![file("/etc/passwd", 1)]);
    assert_eq!(names(&index, ""), ["etc/"]);
    assert_eq!(names(&index, "etc"), ["passwd"]);
}

#[test]
fn entries_that_climb_out_of_the_archive_are_refused() {
    let index = Index::build(vec![
        file("../../etc/passwd", 1),
        file("ok.txt", 1),
        file("sub/../../escape.txt", 1),
    ]);
    assert_eq!(names(&index, ""), ["ok.txt"]);
    assert_eq!(index.refused().len(), 2);
}

#[test]
fn an_entry_with_no_usable_name_is_refused() {
    let index = Index::build(vec![file("", 1), file("/", 1), file(".", 1), file("ok.txt", 1)]);
    assert_eq!(names(&index, ""), ["ok.txt"]);
    assert_eq!(index.refused().len(), 3);
}

#[test]
fn a_backslash_is_part_of_the_name_not_a_separator() {
    let index = Index::build(vec![file(r"a\b.txt", 1)]);
    assert_eq!(names(&index, ""), [r"a\b.txt"]);
}

#[test]
fn the_last_of_two_entries_with_the_same_name_wins() {
    let index = Index::build(vec![
        RawEntry { name: "dup.txt".into(), size: 1, modified: at(100), slot: 0 },
        RawEntry { name: "dup.txt".into(), size: 2, modified: at(200), slot: 1 },
    ]);
    assert_eq!(names(&index, ""), ["dup.txt"]);
    let node = index.get(&parts("dup.txt")).unwrap();
    assert_eq!((node.size, node.slot), (2, Some(1)));
}

#[test]
fn a_file_cannot_shadow_a_folder_of_the_same_name() {
    let index = Index::build(vec![file("thing/inside.txt", 1), file("thing", 5)]);
    let thing = index.get(&parts("thing")).unwrap();
    assert!(thing.is_dir);
    assert_eq!(names(&index, "thing"), ["inside.txt"]);
}

#[test]
fn a_folder_wins_even_when_the_file_came_first() {
    let index = Index::build(vec![file("thing", 5), file("thing/inside.txt", 1)]);
    let thing = index.get(&parts("thing")).unwrap();
    assert!(thing.is_dir);
    assert_eq!(names(&index, "thing"), ["inside.txt"]);
}

#[test]
fn listing_something_that_is_not_a_folder_finds_nothing() {
    let index = Index::build(vec![file("a.txt", 1)]);
    assert!(index.list(&parts("a.txt")).is_none());
    assert!(index.list(&parts("nope")).is_none());
    assert!(index.get(&parts("nope")).is_none());
}

#[test]
fn index_sizes_and_times_survive() {
    let index = Index::build(vec![RawEntry {
        name: "notes.txt".into(),
        size: 4096,
        modified: at(1_700_000_000),
        slot: 2,
    }]);
    let node = index.get(&parts("notes.txt")).unwrap();
    assert_eq!(node.size, 4096);
    assert_eq!(node.modified, at(1_700_000_000));
    assert_eq!(node.slot, Some(2));
    assert!(!node.is_dir);
}

// ---- More cases ----

#[test]
fn the_root_of_an_empty_archive_is_an_empty_folder() {
    let index = Index::build(Vec::new());
    assert_eq!(names(&index, ""), Vec::<String>::new());
    assert!(index.refused().is_empty());
}

#[test]
fn refused_names_are_kept_as_they_were_stored() {
    let index = Index::build(vec![file("a/../b", 1)]);
    assert_eq!(index.refused(), ["a/../b".to_string()]);
}

#[test]
fn a_folder_entry_has_no_size() {
    let index = Index::build(vec![RawEntry { name: "d/".into(), size: 99, modified: None, slot: 1 }]);
    assert_eq!(index.get(&parts("d")).unwrap().size, 0);
}
