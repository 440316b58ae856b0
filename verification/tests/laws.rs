use manager_core::archive::index::{Index, RawEntry};
use manager_core::watch::Coalescer;
use manager_core::InnerPath;
use manager_core::archive::looks_gzipped;
use manager_core::archive::zip::days_from_civil;
use manager_core::compare::sync::{sync_jobs, SyncAction};
use manager_core::duplicates::group::group_by_size;
use manager_core::duplicates::run::group_by_hash;
use manager_core::jobs::worker::into_itself;
use manager_core::jobs::JobSpec;
use manager_core::router::renames_within;
use manager_core::search::masks::Masks;
use manager_core::view::{hex_rows, lay_out};
use manager_core::sort::compare;
use manager_core::{natural_cmp, Entry, EntryKind, Permissions, SortKey, SortOrder, SortSpec, VPath};

fn entry(path: &str, kind: EntryKind, size: u64) -> Entry {
    let p = VPath::parse(path).unwrap();
    Entry {
        name: p.file_name().unwrap(),
        path: p,
        kind,
        size,
        modified: None,
        created: None,
        accessed: None,
        permissions: Permissions { readonly: false, unix_mode: None },
        hidden: false,
        link_target: None,
    }
}

#[test]
fn going_up_from_a_child_lands_where_it_was_made() {
    for folder in [
        "file:///home/me",
        "file:///",
        "sftp://host/dir",
        "zip:file:///home/me/photos.zip!/2024",
        "zip:file:///home/me/photos.zip!/",
    ] {
        let p = VPath::parse(folder).unwrap();
        let child = p.join("img.jpg").unwrap();
        assert_eq!(child.parent().unwrap(), p, "{folder}");
        assert_eq!(child.file_name().unwrap(), "img.jpg", "{folder}");
        assert!(child.starts_with(&p), "{folder}");
        assert!(p.starts_with(&p), "{folder}");
    }
}

#[test]
fn every_uri_form_reads_back_as_the_same_path() {
    let paths = [
        VPath::parse("file:///home/me/My%20Documents").unwrap(),
        VPath::parse("file:///").unwrap(),
        VPath::parse("sftp://me@host:22/a%21b/c%25d").unwrap(),
        VPath::parse("tar:zip:file:///backup.zip!/inner.tar!/etc/hosts").unwrap(),
        VPath::parse("zip:sftp://host/dir/photos.zip!/").unwrap(),
        VPath::local("/tmp/caf\u{e9} & co/x!y").unwrap(),
    ];
    for p in paths {
        assert_eq!(VPath::parse(&p.to_uri()).unwrap(), p, "{}", p.to_uri());
    }
}

#[test]
fn masks_that_filter_nothing_want_every_ordinary_name() {
    for text in ["", "*", "*.*", " ; *.* ;", "|"] {
        let m = Masks::parse(text);
        assert!(m.is_everything(), "{text:?}");
        for name in ["notes.txt", ".hidden", "no extension", "x", "\u{e9}t\u{e9}.md"] {
            assert!(m.matches(name), "{text:?} should match {name:?}");
        }
    }
}

#[test]
fn a_star_in_a_name_is_just_a_character() {
    for name in ["*x", "**", "x*", "*", "a*b"] {
        assert!(Masks::parse("*").matches(name), "{name}");
    }
    assert!(Masks::parse("*b").matches("*xb"));
    assert!(Masks::parse("a*").matches("a*"));
    assert!(!Masks::parse("a*b*c").matches("acb"));
    assert!(!Masks::parse("x*").matches("*x"));
}

#[test]
fn wrapped_lines_never_run_past_the_width() {
    let text = "a line that is much longer than ten characters\n\tindented\tand tabbed\nshort\n";
    for width in 1..12 {
        let lines = lay_out(text, Some(width), 4);
        assert!(lines.iter().all(|l| l.chars().count() <= width), "width {width}: {lines:?}");
        let joined: String = lines.concat();
        let unwrapped: String = lay_out(text, None, 4).concat();
        assert_eq!(joined, unwrapped, "wrapping only cuts");
    }
}

#[test]
fn a_dump_shows_every_byte_once_where_it_sits() {
    let bytes: Vec<u8> = (0..37u8).collect();
    let rows = hex_rows(&bytes, 1000, 8);
    assert_eq!(rows.len(), 5);
    let mut all = Vec::new();
    for row in &rows {
        assert!(!row.bytes.is_empty() && row.bytes.len() <= 8);
        let at = (row.offset - 1000) as usize;
        assert_eq!(&bytes[at..at + row.bytes.len()], row.bytes.as_slice());
        all.extend_from_slice(&row.bytes);
    }
    assert_eq!(all, bytes);
    assert_eq!(rows[4].offset, 1032);
}

#[test]
fn size_groups_hold_two_files_or_more_of_one_size() {
    let files = vec![
        entry("sftp://t/a", EntryKind::File, 5),
        entry("sftp://t/b", EntryKind::File, 7),
        entry("sftp://t/c", EntryKind::File, 5),
        entry("sftp://t/d", EntryKind::File, 9),
        entry("sftp://t/e", EntryKind::File, 7),
        entry("sftp://t/f", EntryKind::File, 5),
    ];
    let groups = group_by_size(files);
    assert_eq!(groups.len(), 2);
    for g in &groups {
        assert!(g.len() >= 2);
        assert!(g.iter().all(|e| e.size == g[0].size));
    }
    assert_eq!(groups[0].iter().map(|e| e.name.as_str()).collect::<Vec<_>>(), ["a", "c", "f"]);
}

#[test]
fn gzip_is_told_by_its_first_two_bytes() {
    assert!(looks_gzipped(&[0x1f, 0x8b, 0x08]));
    assert!(looks_gzipped(&[0x1f, 0x8b]));
    assert!(!looks_gzipped(&[0x1f]));
    assert!(!looks_gzipped(b"ustar"));
    assert!(!looks_gzipped(&[]));
}

#[test]
fn renames_stay_within_one_kind_of_storage() {
    let a = VPath::parse("file:///a").unwrap();
    let b = VPath::parse("file:///b").unwrap();
    let s = VPath::parse("sftp://h/b").unwrap();
    let z = VPath::parse("zip:file:///a.zip!/x").unwrap();
    assert!(renames_within(&a, &b));
    assert!(renames_within(&s, &VPath::parse("sftp://other/c").unwrap()));
    assert!(!renames_within(&a, &s));
    assert!(!renames_within(&z, &b));
    assert!(!renames_within(&a, &z));
}

#[test]
fn a_folder_never_goes_inside_itself() {
    let dir = entry("file:///home/me/docs", EntryKind::Dir, 0);
    assert!(into_itself(&dir, &VPath::parse("file:///home/me/docs/sub").unwrap()));
    assert!(into_itself(&dir, &VPath::parse("file:///home/me/docs").unwrap()));
    assert!(!into_itself(&dir, &VPath::parse("file:///home/me/docs2").unwrap()));
    let file = entry("file:///home/me/docs", EntryKind::File, 3);
    assert!(!into_itself(&file, &VPath::parse("file:///home/me/docs/sub").unwrap()));
}

#[test]
fn each_calendar_day_is_one_more_than_the_last() {
    assert_eq!(days_from_civil(1970, 1, 1), 0);
    let lengths = |y: i64| {
        let leap = (y % 4 == 0 && y % 100 != 0) || y % 400 == 0;
        [31, if leap { 29 } else { 28 }, 31, 30, 31, 30, 31, 31, 30, 31, 30, 31]
    };
    let mut expected = days_from_civil(1899, 1, 1);
    for year in 1899..2102 {
        for (m, len) in lengths(year).iter().enumerate() {
            for day in 1..=*len {
                assert_eq!(days_from_civil(year, m as i64 + 1, day), expected, "{year}-{}-{day}", m + 1);
                expected += 1;
            }
        }
    }
    assert_eq!(days_from_civil(2000, 3, 1) - days_from_civil(2000, 2, 28), 2, "2000 was a leap year");
    assert_eq!(days_from_civil(1900, 3, 1) - days_from_civil(1900, 2, 28), 1, "1900 was not");
}

#[test]
fn tabs_line_columns_up() {
    let lines = lay_out("a\tbc\td\n\t\tx\nlong one\tz", None, 4);
    assert_eq!(lines, ["a   bc  d", "        x", "long one    z"]);
    for line in &lines {
        assert!(!line.contains('\t'));
    }
    assert_eq!(lay_out("a\tb", None, 0), ["a b"], "a tab width of 0 counts as 1");
}

#[test]
fn every_folder_above_an_archive_entry_is_a_folder() {
    let raw = |name: &str| RawEntry { name: name.into(), size: 1, modified: None, slot: 0 };
    // `a` is stored as a file, then something is stored inside it.
    let index = Index::build(vec![raw("a"), raw("a/b/c.txt"), raw("./x/y/"), raw("../evil"), raw("x/y/z")]);
    let path = |p: &str| p.split('/').map(str::to_string).collect::<Vec<String>>();
    for (folder, file) in [("a", "a/b/c.txt"), ("a/b", "a/b/c.txt"), ("x", "x/y/z"), ("x/y", "x/y/z")] {
        assert!(index.get(&path(file)).is_some(), "{file}");
        assert!(index.get(&path(folder)).unwrap().is_dir, "{folder}");
        assert!(index.list(&path(folder)).is_some(), "{folder}");
    }
    assert_eq!(index.refused(), ["../evil".to_string()]);
}

#[test]
fn each_folder_lists_exactly_what_is_one_level_below_it() {
    let raw = |n: &str| RawEntry { name: n.to_string(), size: 1, modified: None, slot: 0 };
    let index = Index::build(vec![raw("a/b/c.txt"), raw("a/d.txt"), raw("e.txt"), raw("a/b/")]);
    let path = |p: &str| -> Vec<String> {
        if p.is_empty() { Vec::new() } else { p.split('/').map(str::to_string).collect() }
    };
    let names = |dir: &str| -> Vec<String> {
        let mut v: Vec<String> = index.list(&path(dir)).unwrap().iter().map(|n| n.name.clone()).collect();
        v.sort();
        v
    };
    assert_eq!(names(""), ["a", "e.txt"]);
    assert_eq!(names("a"), ["b", "d.txt"]);
    assert_eq!(names("a/b"), ["c.txt"]);
    for file in ["a", "a/b", "a/b/c.txt", "a/d.txt", "e.txt"] {
        let p = path(file);
        let parent = p[..p.len() - 1].join("/");
        assert!(names(&parent).contains(p.last().unwrap()), "{file}");
    }
}

#[test]
fn only_equal_hashes_make_duplicates_and_all_of_them_are_shown() {
    let files: Vec<([u8; 32], Entry)> = vec![
        ([7; 32], entry("/d/a", EntryKind::File, 5)),
        ([8; 32], entry("/d/b", EntryKind::File, 5)),
        ([7; 32], entry("/d/c", EntryKind::File, 5)),
        ([9; 32], entry("/d/e", EntryKind::File, 5)),
        ([7; 32], entry("/d/f", EntryKind::File, 5)),
        ([9; 32], entry("/d/g", EntryKind::File, 5)),
    ];
    let groups = group_by_hash(&files);
    assert_eq!(groups.len(), 2);
    for g in &groups {
        assert!(g.files.len() >= 2);
        for f in &g.files {
            assert!(files.iter().any(|(h, e)| *h == g.hash && e.path == f.path));
        }
    }
    let names = |i: usize| groups[i].files.iter().map(|f| f.name.clone()).collect::<Vec<_>>();
    assert_eq!(groups[0].hash, [7; 32]);
    assert_eq!(names(0), ["a", "c", "f"]);
    assert_eq!(groups[1].hash, [9; 32]);
    assert_eq!(names(1), ["e", "g"]);
}

#[test]
fn natural_order_never_goes_round_in_a_circle() {
    let names = [
        "", "a", "A", "a1", "a01", "a2", "a10", "A10", "a10b", "a9z", "-1", "1-", "10", "9", "09",
        "x.txt", "X.TXT", "x1.txt", "x1.TXT", "\u{e9}t\u{e9}", "\u{c9}T\u{c9}", "z", "_", "0", "00",
    ];
    for a in names {
        for b in names {
            for c in names {
                if natural_cmp(a, b).is_le() && natural_cmp(b, c).is_le() {
                    assert!(natural_cmp(a, c).is_le(), "{a:?} {b:?} {c:?}");
                }
            }
        }
    }
}

#[test]
fn listing_order_never_goes_round_in_a_circle() {
    let mut all = Vec::new();
    for (name, size) in [("b.txt", 3), ("a10.rs", 3), ("a9.RS", 7), ("C", 0), ("x", 5), (".hidden", 1)] {
        all.push(entry(&format!("/d/{name}"), EntryKind::File, size));
        all.push(entry(&format!("/d/{name}"), EntryKind::Dir, size));
    }
    let mut specs = Vec::new();
    for key in [SortKey::Name, SortKey::Extension, SortKey::Size, SortKey::Modified] {
        for order in [SortOrder::Ascending, SortOrder::Descending] {
            for dirs_first in [true, false] {
                if dirs_first || key == SortKey::Name || key == SortKey::Modified {
                    specs.push(SortSpec { key, order, dirs_first });
                }
            }
        }
    }
    for spec in specs {
        for a in &all {
            for b in &all {
                for c in &all {
                    if compare(a, b, spec) <= 0 && compare(b, c, spec) <= 0 {
                        assert!(compare(a, c, spec) <= 0, "{spec:?} {} {} {}", a.name, b.name, c.name);
                    }
                }
            }
        }
    }
}

#[test]
fn mixing_folders_into_a_size_order_can_go_round_in_a_circle() {
    let spec = SortSpec { key: SortKey::Size, order: SortOrder::Ascending, dirs_first: false };
    let big_folder = entry("/d/a", EntryKind::Dir, 10);
    let empty_folder = entry("/d/b", EntryKind::Dir, 0);
    let file = entry("/d/f", EntryKind::File, 5);
    assert_eq!(compare(&big_folder, &empty_folder, spec), -1, "two folders go by name");
    assert_eq!(compare(&empty_folder, &file, spec), -1);
    assert_eq!(compare(&file, &big_folder, spec), -1);
}

#[test]
fn a_sync_makes_one_job_per_destination_and_loses_nothing() {
    let vp = |s: &str| VPath::parse(s).unwrap();
    let actions: Vec<SyncAction> = [
        ("/l/a", "/r/x"), ("/l/b", "/r/y"), ("/l/c", "/r/x"), ("/l/d", "/r/z"), ("/l/e", "/r/y"), ("/l/f", "/r/x"),
    ]
    .iter()
    .map(|(from, dest)| SyncAction { from: vp(from), dest_dir: vp(dest) })
    .collect();
    let jobs = sync_jobs(&actions);
    let mut dests = Vec::new();
    let mut copied = Vec::new();
    for job in &jobs {
        match job {
            JobSpec::Copy { sources, dest } => {
                assert!(!dests.contains(dest), "{dest:?} has two jobs");
                dests.push(dest.clone());
                for s in sources {
                    assert!(actions.iter().any(|a| &a.from == s && &a.dest_dir == dest));
                    copied.push((s.clone(), dest.clone()));
                }
            }
            other => panic!("a sync only copies, not {other:?}"),
        }
    }
    assert_eq!(jobs.len(), 3);
    for a in &actions {
        assert!(copied.contains(&(a.from.clone(), a.dest_dir.clone())));
    }
}

#[test]
fn the_later_entry_wins_unless_a_file_would_hide_a_folder() {
    let raw = |n: &str, size: u64, slot: usize| RawEntry { name: n.to_string(), size, modified: None, slot };
    let index = Index::build(vec![
        raw("a.txt", 1, 0),
        raw("d/", 0, 1),
        raw("a.txt", 2, 2),
        raw("d", 9, 3),
        raw("d/x", 4, 4),
    ]);
    let p = |s: &str| s.split('/').map(str::to_string).collect::<Vec<String>>();
    let a = index.get(&p("a.txt")).unwrap();
    assert_eq!((a.size, a.slot, a.is_dir), (2, Some(2), false));
    let d = index.get(&p("d")).unwrap();
    assert!(d.is_dir);
    assert_eq!(d.slot, Some(1));
    assert!(index.list(&p("d")).is_some());
    assert!(index.list(&p("a.txt")).is_none(), "a file has no listing");
    assert!(index.list(&p("d/x")).is_none(), "neither has a file inside a folder");
    assert!(index.list(&p("nowhere")).is_none());
    assert!(index.list(&Vec::new()).is_some(), "the root always has one");
}

#[test]
fn an_inner_path_reads_back_from_its_text() {
    assert_eq!(InnerPath::parse("a//b/./c/../d").to_string(), "/a/b/d");
    assert!(InnerPath::parse("/../..").is_root());
    for s in ["", "/", "a", "/a/b/", "x/../../y", "./.", "a b/%20/c", "..x/.y"] {
        let once = InnerPath::parse(s);
        assert_eq!(InnerPath::parse(&once.to_string()), once, "{s:?}");
        for part in once.parts() {
            assert!(!part.is_empty() && part != "." && part != ".." && !part.contains('/'));
        }
    }
}

#[test]
fn a_burst_is_reported_once_when_quiet_or_waited_long_enough() {
    let ms = 1_000_000u64;
    for times in [vec![], vec![10 * ms], vec![10 * ms, 50 * ms, 120 * ms], vec![0, 300 * ms, 600 * ms, 900 * ms]] {
        for now in [0, 100 * ms, 250 * ms, 400 * ms, 1000 * ms, 1200 * ms] {
            let mut c = Coalescer::new(200 * ms, 1000 * ms);
            for t in &times {
                c.touch(*t);
            }
            assert_eq!(c.is_pending(), !times.is_empty());
            let expected = match (times.first(), times.last()) {
                (Some(first), Some(last)) => now.saturating_sub(*last) >= 200 * ms || now.saturating_sub(*first) >= 1000 * ms,
                _ => false,
            };
            assert_eq!(c.due(now), expected, "{times:?} at {now}");
            if expected {
                assert!(!c.is_pending());
                assert!(!c.due(now + 5000 * ms));
            }
        }
    }
}

#[test]
fn every_entry_is_listed_once_under_its_own_name() {
    let raw = |n: &str, size: u64| RawEntry { name: n.to_string(), size, modified: None, slot: 0 };
    assert!(Index::build(Vec::new()).list(&Vec::new()).is_some(), "an empty archive still has a root");
    let index = Index::build(vec![
        raw("a/x", 1), raw("a/x", 2), raw("a/", 7), raw("./a/y", 3), raw("b", 4), raw("a/x/", 0), raw("c/d/e", 5),
    ]);
    let p = |s: &str| -> Vec<String> { if s.is_empty() { Vec::new() } else { s.split('/').map(str::to_string).collect() } };
    for dir in ["", "a", "a/x", "c", "c/d"] {
        let names: Vec<String> = index.list(&p(dir)).unwrap().iter().map(|n| n.name.clone()).collect();
        let mut unique = names.clone();
        unique.sort();
        unique.dedup();
        assert_eq!(unique.len(), names.len(), "{dir}: {names:?}");
    }
    for path in ["a", "a/x", "a/y", "b", "c", "c/d", "c/d/e"] {
        let node = index.get(&p(path)).unwrap();
        assert_eq!(&node.name, p(path).last().unwrap());
        if node.is_dir {
            assert_eq!(node.size, 0, "{path}");
            assert!(index.list(&p(path)).is_some(), "{path}");
        }
    }
}
