use manager_core::local::{is_noise, local_entry, unreadable_local_entry, ChangeKind, DiskKind, DiskMeta};
use manager_core::{EntryKind, LinkTarget, Permissions, VPath};

#[test]
fn merely_reading_a_file_is_not_worth_a_reload() {
    // Opening and closing a file for reading are both access events.
    let opened = ChangeKind::Access;
    let closed = ChangeKind::Access;
    assert!(is_noise(opened));
    assert!(is_noise(closed));
}

#[test]
fn creating_changing_and_removing_are() {
    for kind in [ChangeKind::Create, ChangeKind::Modify, ChangeKind::Remove, ChangeKind::Other] {
        assert!(!is_noise(kind), "{kind:?}");
    }
}

#[test]
fn an_unclassified_event_is_worth_a_look() {
    assert!(!is_noise(ChangeKind::Any));
}

fn disk(kind: DiskKind, len: u64) -> DiskMeta {
    DiskMeta { kind, len, modified: Some(5), created: None, accessed: Some(7), readonly: false, mode: 0o100644 }
}

#[test]
fn a_file_keeps_its_size_times_and_permission_bits() {
    let path = VPath::parse("/home/me/notes.txt").unwrap();
    let e = local_entry("notes.txt".into(), path.clone(), disk(DiskKind::File, 42), None, None);
    assert_eq!(e.kind, EntryKind::File);
    assert_eq!(e.size, 42);
    assert_eq!(e.path, path);
    assert_eq!((e.modified, e.created, e.accessed), (Some(5), None, Some(7)));
    assert_eq!(e.permissions, Permissions { readonly: false, unix_mode: Some(0o644) });
    assert!(!e.hidden);
    assert_eq!(e.link_target, None);
}

#[test]
fn folders_and_links_to_folders_show_no_size() {
    let path = VPath::parse("/home/me/.config").unwrap();
    let d = local_entry(".config".into(), path.clone(), disk(DiskKind::Dir, 4096), None, None);
    assert_eq!((d.kind, d.size, d.hidden), (EntryKind::Dir, 0, true));
    let l = local_entry(".config".into(), path, disk(DiskKind::Symlink, 9), Some("/etc".into()), Some((DiskKind::Dir, 4096)));
    assert_eq!(l.kind, EntryKind::Symlink { target: Some(LinkTarget::Dir) });
    assert_eq!(l.size, 0);
    assert_eq!(l.link_target.as_deref(), Some("/etc"));
}

#[test]
fn a_link_shows_the_size_of_what_it_points_at_and_a_broken_one_its_own() {
    let path = VPath::parse("/tmp/l").unwrap();
    let to_file = local_entry("l".into(), path.clone(), disk(DiskKind::Symlink, 9), Some("f".into()), Some((DiskKind::File, 1000)));
    assert_eq!((to_file.kind, to_file.size), (EntryKind::Symlink { target: Some(LinkTarget::File) }, 1000));
    let broken = local_entry("l".into(), path.clone(), disk(DiskKind::Symlink, 9), Some("gone".into()), None);
    assert_eq!((broken.kind, broken.size), (EntryKind::Symlink { target: None }, 9));
    let odd = local_entry("l".into(), path, disk(DiskKind::Symlink, 9), None, Some((DiskKind::Other, 0)));
    assert_eq!(odd.kind, EntryKind::Symlink { target: Some(LinkTarget::Other) });
}

#[test]
fn an_unreadable_name_is_still_listed() {
    let path = VPath::parse("/root/.secret").unwrap();
    let e = unreadable_local_entry(".secret".into(), path, Some(DiskKind::Symlink));
    assert_eq!(e.kind, EntryKind::Symlink { target: None });
    assert_eq!((e.size, e.modified, e.hidden), (0, None, true));
    assert_eq!(e.permissions, Permissions { readonly: true, unix_mode: None });
    let other = unreadable_local_entry("x".into(), VPath::parse("/x").unwrap(), None);
    assert_eq!(other.kind, EntryKind::Other);
}
