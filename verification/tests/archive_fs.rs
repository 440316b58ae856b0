use manager_core::archive::fs::{archive_format, archive_target, list_in, stat_in, ArchiveFormat, ArchiveKey, OpenArchives};
use manager_core::archive::index::{Index, RawEntry};
use manager_core::{EntryKind, Error, VPath};

fn key(container: &str, kind: &str, size: u64) -> ArchiveKey {
    ArchiveKey { container: VPath::parse(container).unwrap(), kind: kind.into(), size, modified: None }
}

#[test]
fn a_hit_moves_to_the_front_and_a_reopening_replaces_the_old_one() {
    let mut open: OpenArchives<u32> = OpenArchives::new();
    assert!(open.most_recent().is_none());
    open.remember(key("/a.zip", "zip", 1), 1);
    open.remember(key("/b.zip", "zip", 1), 2);
    assert_eq!(open.most_recent(), Some(&2));
    assert!(open.bring_forward(&key("/a.zip", "zip", 1)));
    assert_eq!(open.most_recent(), Some(&1));
    assert!(!open.bring_forward(&key("/a.zip", "zip", 2)), "a changed file is a miss");
    open.remember(key("/a.zip", "zip", 2), 3);
    assert!(!open.bring_forward(&key("/a.zip", "zip", 1)), "the stale opening is gone");
    assert!(open.bring_forward(&key("/b.zip", "zip", 1)));
}

#[test]
fn only_the_most_recent_few_stay_open() {
    let mut open: OpenArchives<u32> = OpenArchives::new();
    for i in 0..6u32 {
        open.remember(key(&format!("/{i}.tar"), "tar", 0), i);
    }
    assert!(!open.bring_forward(&key("/0.tar", "tar", 0)));
    assert!(!open.bring_forward(&key("/1.tar", "tar", 0)));
    for i in 2..6u32 {
        assert!(open.bring_forward(&key(&format!("/{i}.tar"), "tar", 0)), "{i}");
    }
}

#[test]
fn a_path_inside_a_local_archive_splits_into_the_archive_and_the_rest() {
    let p = VPath::parse("zip:file:///tmp/a.zip!/docs/x.txt").unwrap();
    let (container, kind, inside) = archive_target(&p).unwrap();
    assert_eq!(container, VPath::parse("/tmp/a.zip").unwrap());
    assert_eq!(kind, "zip");
    assert_eq!(inside, ["docs", "x.txt"]);
    let plain = VPath::parse("/tmp/a.zip").unwrap();
    assert!(matches!(archive_target(&plain), Err(Error::Unsupported { .. })));
    assert_eq!(archive_format("zip"), Some(ArchiveFormat::Zip));
    assert_eq!(archive_format("tar"), Some(ArchiveFormat::Tar));
    assert_eq!(archive_format("7z"), None);
}

#[test]
fn listing_and_looking_up_inside_an_opened_archive() {
    let raw = |n: &str| RawEntry { name: n.to_string(), size: 3, modified: None, slot: 0 };
    let index = Index::build(vec![raw("docs/a.txt"), raw(".hidden")]);
    let root = VPath::parse("zip:file:///tmp/a.zip!/").unwrap();
    let top = list_in(&index, &root, &Vec::new()).unwrap();
    let mut names: Vec<_> = top.iter().map(|e| (e.name.clone(), e.kind, e.hidden, e.permissions.readonly)).collect();
    names.sort_by(|a, b| a.0.cmp(&b.0));
    assert_eq!(names, [(".hidden".to_string(), EntryKind::File, true, true), ("docs".to_string(), EntryKind::Dir, false, true)]);
    let file = vec!["docs".to_string(), "a.txt".to_string()];
    assert!(matches!(list_in(&index, &root, &file), Err(Error::NotADirectory(_))));
    assert!(matches!(list_in(&index, &root, &vec!["nope".to_string()]), Err(Error::NotFound(_))));
    let e = stat_in(&index, root.clone(), &file).unwrap();
    assert_eq!((e.kind, e.size), (EntryKind::File, 3));
    let r = stat_in(&index, root.clone(), &Vec::new()).unwrap();
    assert_eq!((r.name.as_str(), r.kind), ("a.zip", EntryKind::Dir));
}
