use manager_core::{InnerPath, VPath};

fn roundtrip(uri: &str) -> VPath {
    let p = VPath::parse(uri).unwrap();
    assert_eq!(p.to_uri(), uri, "round trip");
    assert_eq!(VPath::parse(&p.to_uri()).unwrap(), p);
    p
}

#[test]
fn inner_path_normalizes() {
    assert_eq!(InnerPath::parse("a//b/./c/../d").to_string(), "/a/b/d");
    assert_eq!(InnerPath::parse("/../..").to_string(), "/");
    assert!(InnerPath::parse("/").is_root());
}

#[test]
fn remote_paths() {
    let p = roundtrip("sftp://me@host:22/home/me");
    assert_eq!(p.file_name().as_deref(), Some("me"));
    assert_eq!(p.to_string(), "sftp://me@host:22/home/me");
    let root = roundtrip("sftp://me@host:22/");
    assert!(root.is_root());
    assert_eq!(p.parent().unwrap().parent().unwrap(), root);
    assert_eq!(root.file_name(), None);
}

#[test]
fn remote_without_path_is_root() {
    let p = VPath::parse("s3://bucket").unwrap();
    assert!(p.is_root());
    assert_eq!(p.to_uri(), "s3://bucket/");
}

#[test]
fn special_characters_are_escaped() {
    let p = VPath::remote("sftp", "host", "/")
        .unwrap()
        .join("wow! 100% caf\u{e9}#1")
        .unwrap();
    assert_eq!(p.to_uri(), "sftp://host/wow%21%20100%25%20caf%C3%A9%231");
    assert_eq!(VPath::parse(&p.to_uri()).unwrap(), p);
    assert_eq!(p.file_name().as_deref(), Some("wow! 100% caf\u{e9}#1"));
}

#[test]
fn join_rejects_non_names() {
    let root = VPath::remote("sftp", "host", "/").unwrap();
    for bad in ["", ".", "..", "a/b", "nul\0"] {
        assert!(root.join(bad).is_err(), "{bad:?} should be rejected");
    }
}

#[test]
fn bad_uris_are_rejected() {
    for bad in [
        "zip:sftp://host/a.zip",
        "sftp://host/a.zip!/x",
        "zip:sftp://host/a.zip!nope",
        "sftp://host/%zz",
        "sftp://host/%+1",
        "sftp:///path",
        "zip:sftp://host/a.zip!/%2E%2E",
    ] {
        assert!(VPath::parse(bad).is_err(), "{bad:?} should be rejected");
    }
}

#[test]
fn remote_constructor_rejects_file_scheme() {
    assert!(VPath::remote("file", "x", "/").is_err());
}

#[test]
fn nested_archives_on_a_server() {
    let p = roundtrip("tar:zip:sftp://host/backup.zip!/inner.tar!/etc/hosts");
    assert_eq!(p.layers().len(), 2);
    assert_eq!(p.layers()[0].kind, "zip");
    assert_eq!(p.layers()[1].kind, "tar");
    assert_eq!(p.to_string(), "sftp://host/backup.zip!/inner.tar!/etc/hosts");

    // Walk all the way up: out of the tar, out of the zip, up the server's folders.
    let names: Vec<String> = std::iter::successors(Some(p), VPath::parent)
        .map(|p| p.to_string())
        .collect();
    assert_eq!(
        names,
        [
            "sftp://host/backup.zip!/inner.tar!/etc/hosts",
            "sftp://host/backup.zip!/inner.tar!/etc",
            "sftp://host/backup.zip!/inner.tar!/",
            "sftp://host/backup.zip!/",
            "sftp://host/",
        ]
    );
}

#[test]
fn archive_root_is_named_after_the_archive() {
    let zip_root = VPath::parse("sftp://host/dir/photos.zip")
        .unwrap()
        .enter("zip")
        .unwrap();
    assert_eq!(zip_root.to_uri(), "zip:sftp://host/dir/photos.zip!/");
    assert_eq!(zip_root.file_name().as_deref(), Some("photos.zip"));
    assert_eq!(zip_root.outer().unwrap().to_uri(), "sftp://host/dir/photos.zip");
    assert_eq!(zip_root.parent().unwrap().to_uri(), "sftp://host/dir");
    assert_eq!(zip_root.as_local(), None);

    let inside = zip_root.join("2024").unwrap().join("img.jpg").unwrap();
    assert_eq!(inside.to_uri(), "zip:sftp://host/dir/photos.zip!/2024/img.jpg");
}

#[test]
fn starts_with_understands_layers() {
    let dir = VPath::parse("sftp://host/a").unwrap();
    let zip = VPath::parse("zip:sftp://host/a/b.zip!/x/y").unwrap();
    let zip_x = VPath::parse("zip:sftp://host/a/b.zip!/x").unwrap();
    assert!(zip.starts_with(&dir), "inside an archive inside the folder");
    assert!(zip.starts_with(&zip_x));
    assert!(zip.starts_with(&zip));
    assert!(!zip_x.starts_with(&zip));
    assert!(!dir.starts_with(&zip));
    assert!(!VPath::parse("sftp://host/ab").unwrap().starts_with(&dir), "whole names only");
    assert!(!VPath::parse("sftp://other/a").unwrap().starts_with(&dir));
}

#[test]
fn resolve_like_a_shell() {
    let here = VPath::parse("sftp://host/home/me").unwrap();
    let r = |s: &str| here.resolve(s).unwrap().to_string();
    assert_eq!(r("docs"), "sftp://host/home/me/docs");
    assert_eq!(r("a/b/"), "sftp://host/home/me/a/b");
    assert_eq!(r("../you"), "sftp://host/home/you");
    assert_eq!(r("../../../.."), "sftp://host/");
    assert_eq!(r("./x"), "sftp://host/home/me/x");
    assert_eq!(r(""), "sftp://host/home/me");
    assert_eq!(r("sftp://other/tmp"), "sftp://other/tmp");
}

#[test]
fn native_paths_are_local() {
    let p = VPath::parse("/home/me/notes.txt").unwrap();
    assert_eq!(p.as_local().as_deref(), Some("/home/me/notes.txt"));
    assert_eq!(p.to_uri(), "file:///home/me/notes.txt");
    assert_eq!(p.to_string(), "/home/me/notes.txt");
}

#[test]
fn local_roundtrips() {
    roundtrip("file:///");
    roundtrip("file:///home/me/My%20Documents");
    roundtrip("zip:file:///home/me/photos.zip!/2024/img.jpg");
}

#[test]
fn a_colon_in_a_file_name_is_not_a_scheme() {
    // A relative native path, resolved against the folder it is typed in.
    let p = VPath::parse_in("notes:draft.txt", "/home/me").unwrap();
    assert!(p.as_local().unwrap().ends_with("notes:draft.txt"));
}

#[test]
fn local_parent_and_name() {
    let p = VPath::parse("/a/b").unwrap();
    assert_eq!(p.file_name().as_deref(), Some("b"));
    let root = p.parent().unwrap().parent().unwrap();
    assert_eq!(root.to_uri(), "file:///");
    assert!(root.is_root());
    assert_eq!(root.file_name(), None);
}

#[test]
fn resolve_absolute_native_path() {
    let here = VPath::parse("sftp://host/home").unwrap();
    assert_eq!(here.resolve("/tmp").unwrap().as_local().as_deref(), Some("/tmp"));
}

#[test]
fn file_uri_must_be_absolute() {
    assert!(VPath::parse("file://relative").is_err());
}

// ---- More cases ----

#[test]
fn relative_native_paths_resolve_against_the_given_folder() {
    let p = VPath::parse_in("some/dir", "/work").unwrap();
    assert_eq!(p.as_local().as_deref(), Some("/work/some/dir"));
    assert!(VPath::parse("some/dir").is_err(), "without a folder to resolve against");
}

#[test]
fn a_parsed_uri_prints_back_the_same() {
    for uri in [
        "sftp://me@host:22/a%20b/c",
        "zip:file:///x.zip!/",
        "tar:zip:file:///a/b.zip!/c.tar!/d",
        "webdav://server/dir",
    ] {
        roundtrip(uri);
    }
}

#[test]
fn the_scheme_is_lowercased() {
    let p = VPath::parse("SFTP://host/a").unwrap();
    assert_eq!(p.to_uri(), "sftp://host/a");
}

#[test]
fn an_inner_path_lists_its_parts() {
    let p = InnerPath::parse("/a/b");
    assert_eq!(p.parts(), ["a".to_string(), "b".to_string()]);
    assert_eq!(p.file_name(), Some("b"));
    assert_eq!(p.parent().unwrap().to_string(), "/a");
    assert!(InnerPath::parse("/").parent().is_none());
}

#[test]
fn every_path_that_can_be_built_reads_back_from_its_text() {
    assert!(VPath::remote("s", "host", "/").is_err(), "one letter would read as a drive");
    assert!(VPath::remote("sftp", "host", "/a\0b").is_err(), "no name holds NUL");
    let p = VPath::remote("s3", "bucket", "/x/y").unwrap();
    assert_eq!(VPath::parse(&p.to_uri()).unwrap(), p);
    let local = VPath::parse("/tmp/a.zip").unwrap();
    assert!(local.enter("z").is_err());
    let inside = local.enter("zip").unwrap().join("b.txt").unwrap();
    assert_eq!(VPath::parse(&inside.to_uri()).unwrap(), inside);
}
