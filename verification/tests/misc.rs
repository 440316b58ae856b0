use manager_core::commands::{arrange_listing, parse_sort_key};
use manager_core::compare::hash::{same_hash, ContentHash};
use manager_core::compare::run::{pair_step, settle_by_content, visible, PairStep};
use manager_core::compare::diff::{DiffEntry, DiffStatus, Side};
use manager_core::duplicates::run::{group_by_hash, scan_step, tally, DuplicateReport, DuplicateSpec, ScanStep};
use manager_core::router::{pick, Backend};
use manager_core::search::content::Needle;
use manager_core::search::masks::Masks;
use manager_core::search::run::{consider, Candidate, SearchSpec, SearchVerdict};
use manager_core::{Entry, EntryKind, Error, IoErrorKind, LinkTarget, Permissions, SortKey, VPath};

fn entry(path: &str, kind: EntryKind, size: u64, hidden: bool) -> Entry {
    let p = VPath::parse(path).unwrap();
    Entry {
        name: p.file_name().unwrap(),
        path: p,
        kind,
        size,
        modified: None,
        created: None,
        accessed: None,
        permissions: Permissions { readonly: false, unix_mode: None },
        hidden,
        link_target: None,
    }
}

#[test]
fn extension_and_stem() {
    let e = entry("/a/archive.tar.gz", EntryKind::File, 1, false);
    assert_eq!(e.extension(), Some("gz"));
    assert_eq!(e.stem(), "archive.tar");
    let dot = entry("/a/.bashrc", EntryKind::File, 1, true);
    assert_eq!(dot.extension(), None);
    assert_eq!(dot.stem(), ".bashrc");
    let folder = entry("/a/photos.d", EntryKind::Dir, 0, false);
    assert_eq!(folder.extension(), None);
    assert_eq!(entry("/a/trailing.", EntryKind::File, 1, false).extension(), None);
}

#[test]
fn errors_read_like_the_ui_shows_them() {
    let p = VPath::parse("/tmp/x").unwrap();
    assert_eq!(Error::NotFound(p.clone()).to_string(), "not found: /tmp/x");
    assert_eq!(Error::Cancelled.to_string(), "cancelled");
    assert_eq!(
        Error::Archive { path: p.clone(), message: "truncated".into() }.to_string(),
        "can't read the archive /tmp/x: truncated"
    );
    assert!(matches!(
        Error::from_io(&p, IoErrorKind::PermissionDenied, "denied".into()),
        Error::PermissionDenied(_)
    ));
    let other = Error::from_io(&p, IoErrorKind::Other, "disk on fire".into());
    assert_eq!(other.to_string(), "I/O error on /tmp/x: disk on fire");
}

#[test]
fn hashing_in_pieces_is_hashing_whole() {
    let mut h = ContentHash::new();
    h.update(b"hello, ");
    h.update(b"world");
    let whole: [u8; 32] = blake3::hash(b"hello, world").into();
    assert_eq!(h.finish(), whole);
    assert!(same_hash(&h.finish(), &whole));
    assert!(!same_hash(&ContentHash::new().finish(), &whole));
}

#[test]
fn the_search_decides_per_entry() {
    let spec = SearchSpec {
        root: VPath::parse("/r").unwrap(),
        masks: Masks::parse("*.txt"),
        needle: None,
        include_hidden: false,
    };
    let hidden = entry("/r/.x.txt", EntryKind::File, 1, true);
    assert_eq!(consider(&spec, &hidden), SearchVerdict { descend: false, candidate: Candidate::No });
    let dir = entry("/r/d.txt", EntryKind::Dir, 0, false);
    assert_eq!(consider(&spec, &dir), SearchVerdict { descend: true, candidate: Candidate::Yes });
    let with_text = SearchSpec { needle: Needle::new("x", true), ..spec.clone() };
    assert_eq!(consider(&with_text, &dir), SearchVerdict { descend: true, candidate: Candidate::No });
    let file = entry("/r/a.txt", EntryKind::File, 1, false);
    assert_eq!(consider(&with_text, &file).candidate, Candidate::IfContains);
    let link = entry("/r/l.txt", EntryKind::Symlink { target: Some(LinkTarget::Dir) }, 0, false);
    assert!(!consider(&spec, &link).descend, "links to folders are not followed");
}

fn pair(status: DiffStatus, left: Option<Entry>, right: Option<Entry>) -> DiffEntry {
    DiffEntry { rel_path: vec!["a".into()], left, right, status, newer: None }
}

#[test]
fn the_comparison_decides_per_pair() {
    let d = entry("/l/a", EntryKind::Dir, 0, false);
    assert_eq!(pair_step(&pair(DiffStatus::Same, Some(d.clone()), Some(d)), false), PairStep::Descend);
    let f = entry("/l/a", EntryKind::File, 5, false);
    let g = entry("/r/a", EntryKind::File, 5, false);
    assert_eq!(pair_step(&pair(DiffStatus::Same, Some(f.clone()), Some(g.clone())), true), PairStep::Hash);
    assert_eq!(pair_step(&pair(DiffStatus::Same, Some(f.clone()), Some(g.clone())), false), PairStep::Pass);
    assert_eq!(pair_step(&pair(DiffStatus::LeftOnly, Some(f.clone()), None), true), PairStep::Report);
    let l = entry("/l/a", EntryKind::Symlink { target: Some(LinkTarget::File) }, 5, false);
    assert_eq!(
        pair_step(&pair(DiffStatus::Differs, Some(l.clone()), Some(g.clone())), true),
        PairStep::Report,
        "a link is never hashed"
    );
    assert_eq!(pair_step(&pair(DiffStatus::Same, Some(l), Some(g.clone())), true), PairStep::Pass);

    let mut p = pair(DiffStatus::Same, Some(f.clone()), Some(g.clone()));
    settle_by_content(&mut p, Some([1; 32]), Some([2; 32]));
    assert_eq!(p.status, DiffStatus::Differs);
    settle_by_content(&mut p, Some([1; 32]), Some([1; 32]));
    assert_eq!(p.status, DiffStatus::Same);
    assert_eq!(p.newer, None::<Side>);
    settle_by_content(&mut p, None, Some([2; 32]));
    assert_eq!(p.status, DiffStatus::Same, "an unreadable side leaves the guess");

    let shown = visible(&vec![f, entry("/l/.h", EntryKind::File, 1, true)], false);
    assert_eq!(shown.len(), 1);
}

#[test]
fn duplicates_are_grouped_by_hash() {
    let a = entry("/a", EntryKind::File, 3, false);
    let b = entry("/b", EntryKind::File, 3, false);
    let c = entry("/c", EntryKind::File, 3, false);
    let groups = group_by_hash(&vec![([1; 32], a), ([2; 32], b), ([1; 32], c)]);
    assert_eq!(groups.len(), 1);
    assert_eq!(groups[0].files.len(), 2);
    assert_eq!(groups[0].files[1].name, "c");
    assert_eq!(groups[0].size, 3);
    let mut report = DuplicateReport { groups: 0, extra_files: 0, scanned: 9, unreadable: 0, cancelled: false };
    tally(&mut report, &groups[0]);
    assert_eq!((report.groups, report.extra_files, report.scanned), (1, 1, 9));
}

#[test]
fn the_duplicate_walk_decides_per_entry() {
    let spec = DuplicateSpec::with_root(VPath::parse("/r").unwrap());
    assert_eq!(spec.min_size, 1);
    assert_eq!(scan_step(&spec, &entry("/r/e", EntryKind::File, 0, false)), ScanStep::Pass);
    assert_eq!(scan_step(&spec, &entry("/r/f", EntryKind::File, 1, false)), ScanStep::Candidate);
    assert_eq!(scan_step(&spec, &entry("/r/d", EntryKind::Dir, 0, false)), ScanStep::Descend);
    assert_eq!(scan_step(&spec, &entry("/r/.h", EntryKind::File, 9, true)), ScanStep::Unseen);
}

#[test]
fn a_panel_listing_is_filtered_and_sorted() {
    assert_eq!(parse_sort_key("size"), SortKey::Size);
    assert_eq!(parse_sort_key("whatever"), SortKey::Name);
    let mut entries = vec![
        entry("/d/b", EntryKind::File, 1, false),
        entry("/d/.h", EntryKind::File, 1, true),
        entry("/d/a", EntryKind::Dir, 0, false),
    ];
    arrange_listing(&mut entries, "name", false, false);
    let names: Vec<&str> = entries.iter().map(|e| e.name.as_str()).collect();
    assert_eq!(names, ["a", "b"]);
}

#[test]
fn paths_go_to_their_backend() {
    assert_eq!(pick(&VPath::parse("/tmp").unwrap()), Backend::Local);
    assert_eq!(pick(&VPath::parse("sftp://h/x").unwrap()), Backend::Remote);
    assert_eq!(pick(&VPath::parse("zip:file:///a.zip!/").unwrap()), Backend::Archive);
}
