use manager_core::remote::sftp::{
    host_key_verdict, is_listed_entry, join_wire, remote_entry, remote_target, same_authority, sftp_capabilities,
    sftp_failure, sftp_seconds, HostKeyLookup, HostKeyVerdict, PresentedKey, RemoteKind, RemoteMeta, SftpStatus,
};
use manager_core::{EntryKind, Error, LinkTarget, Permissions, VPath};

#[test]
fn a_server_path_names_its_connection_and_its_wire_path() {
    let p = VPath::parse("sftp://me@host:22/home/me/notes.txt").unwrap();
    assert_eq!(remote_target(&p), Some(("me@host:22".to_string(), "/home/me/notes.txt".to_string())));
    let root = VPath::parse("sftp://host/").unwrap();
    assert_eq!(remote_target(&root), Some(("host".to_string(), "/".to_string())));
    assert_eq!(remote_target(&VPath::parse("file:///tmp").unwrap()), None);
    assert_eq!(remote_target(&VPath::parse("zip:sftp://host/a.zip!/x").unwrap()), None);
}

#[test]
fn paths_on_one_server_share_its_authority() {
    let a = VPath::parse("sftp://me@host/a").unwrap();
    assert!(same_authority(&a, &VPath::parse("sftp://me@host/b/c").unwrap()));
    assert!(!same_authority(&a, &VPath::parse("sftp://you@host/a").unwrap()));
    assert!(!same_authority(&a, &VPath::parse("file:///a").unwrap()));
}

#[test]
fn wire_paths_join_with_one_slash() {
    assert_eq!(join_wire("/home/me", "notes.txt"), "/home/me/notes.txt");
    assert_eq!(join_wire("/", "etc"), "/etc");
    assert_eq!(join_wire("/home/me/", "x"), "/home/me/x");
    assert_eq!(join_wire("", "x"), "/x");
}

#[test]
fn a_listing_names_itself_and_its_parent_too() {
    assert!(!is_listed_entry("."));
    assert!(!is_listed_entry(".."));
    assert!(is_listed_entry("...") && is_listed_entry(".bashrc") && is_listed_entry("a"));
}

fn meta(kind: RemoteKind) -> RemoteMeta {
    RemoteMeta {
        kind,
        readonly: true,
        mode: Some(0o100444),
        size: 42,
        modified: Some(1_700_000_000_000_000_000),
        accessed: None,
    }
}

#[test]
fn what_a_server_says_becomes_an_entry() {
    let p = VPath::parse("sftp://h/.profile").unwrap();
    let e = remote_entry(".profile".into(), p.clone(), meta(RemoteKind::File), None, None);
    assert_eq!(e.name, ".profile");
    assert_eq!(e.path, p);
    assert_eq!(e.kind, EntryKind::File);
    assert_eq!(e.size, 42);
    assert_eq!(e.modified, Some(1_700_000_000_000_000_000));
    assert_eq!(e.created, None);
    assert_eq!(e.permissions, Permissions { readonly: true, unix_mode: Some(0o100444) });
    assert!(e.hidden);
    assert_eq!(e.link_target, None);

    let link = VPath::parse("sftp://h/l").unwrap();
    let e = remote_entry("l".into(), link.clone(), meta(RemoteKind::Symlink), Some("/etc".into()), Some(RemoteKind::Dir));
    assert_eq!(e.kind, EntryKind::Symlink { target: Some(LinkTarget::Dir) });
    assert_eq!(e.link_target.as_deref(), Some("/etc"));
    assert!(!e.hidden);
    let broken = remote_entry("l".into(), link.clone(), meta(RemoteKind::Symlink), Some("/gone".into()), None);
    assert_eq!(broken.kind, EntryKind::Symlink { target: None }, "a broken link is shown, not hidden");
    let odd = remote_entry("l".into(), link, meta(RemoteKind::Symlink), None, Some(RemoteKind::Symlink));
    assert_eq!(odd.kind, EntryKind::Symlink { target: Some(LinkTarget::Other) });
}

#[test]
fn modification_times_go_on_the_wire_as_32_bit_seconds() {
    assert_eq!(sftp_seconds(1_700_000_000_999_999_999), 1_700_000_000);
    assert_eq!(sftp_seconds(0), 0);
    assert_eq!(sftp_seconds(-5), 0, "before the epoch");
    assert_eq!(sftp_seconds(5_000_000_000 * 1_000_000_000), u32::MAX, "past 2106 saturates");
}

#[test]
fn a_failed_request_says_what_went_wrong() {
    let p = VPath::parse("sftp://h/x").unwrap();
    assert!(matches!(sftp_failure(&p, SftpStatus::NoSuchFile, "gone".into()), Error::NotFound(q) if q == p));
    assert!(matches!(sftp_failure(&p, SftpStatus::PermissionDenied, "no".into()), Error::PermissionDenied(_)));
    match sftp_failure(&p, SftpStatus::Other, "Failure: disk full".into()) {
        Error::InvalidOperation(m) => assert_eq!(m, "sftp://h/x: Failure: disk full"),
        other => panic!("got {other:?}"),
    }
}

#[test]
fn host_keys_are_checked_the_way_openssh_does() {
    let yes = HostKeyVerdict { trust: true, learn: false };
    let learn = HostKeyVerdict { trust: true, learn: true };
    let no = HostKeyVerdict { trust: false, learn: false };
    assert_eq!(host_key_verdict(PresentedKey::Key(HostKeyLookup::Matches)), yes);
    assert_eq!(host_key_verdict(PresentedKey::Key(HostKeyLookup::Unknown)), learn);
    assert_eq!(host_key_verdict(PresentedKey::Key(HostKeyLookup::Refused)), no);
    assert_eq!(host_key_verdict(PresentedKey::Certificate), no);
}

#[test]
fn a_server_can_write_but_not_watch() {
    let c = sftp_capabilities();
    assert!(c.can_write && c.has_unix_permissions && c.has_symlinks);
    assert!(!c.can_watch && !c.has_trash);
}

#[test]
fn a_failed_connection_names_the_server() {
    let e = Error::Remote { authority: "host:22".into(), message: "refused".into() };
    assert_eq!(e.to_string(), "can't connect to host:22: refused");
}
