use manager_core::archive::tar::{tar_raw_entry, TarHeaderKind};

#[test]
fn a_folder_gets_the_slash_the_index_goes_by() {
    let e = tar_raw_entry(TarHeaderKind::Dir, "photos".into(), 0, Some(1_700_000_000), 3).unwrap();
    assert_eq!(e.name, "photos/");
    assert_eq!(e.modified, Some(1_700_000_000i128 * 1_000_000_000));
    assert_eq!(e.slot, 3);
    let already = tar_raw_entry(TarHeaderKind::Dir, "photos/".into(), 0, None, 0).unwrap();
    assert_eq!(already.name, "photos/");
    assert_eq!(already.modified, None);
}

#[test]
fn files_keep_their_names_and_sizes() {
    let e = tar_raw_entry(TarHeaderKind::Other, "notes.txt".into(), 5, Some(0), 1).unwrap();
    assert_eq!((e.name.as_str(), e.size, e.modified, e.slot), ("notes.txt", 5, Some(0), 1));
}

#[test]
fn bookkeeping_records_are_not_entries() {
    assert!(tar_raw_entry(TarHeaderKind::Bookkeeping, "././@LongLink".into(), 120, None, 0).is_none());
}
