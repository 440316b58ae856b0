use manager_core::compare::diff::{DiffEntry, DiffStatus, Side};
use manager_core::compare::sync::{plan_sync, sync_jobs, SyncAction, SyncDirection};
use manager_core::jobs::JobSpec;
use manager_core::{Entry, EntryKind, Permissions, VPath};

fn vp(s: &str) -> VPath {
    VPath::parse(&format!("sftp://test{s}")).unwrap()
}

fn entry_on(path: &VPath) -> Entry {
    Entry {
        name: path.file_name().unwrap(),
        path: path.clone(),
        kind: EntryKind::File,
        size: 1,
        modified: None,
        created: None,
        accessed: None,
        permissions: Permissions { readonly: false, unix_mode: None },
        hidden: false,
        link_target: None,
    }
}

fn diff(rel_path: &[&str], left: Option<&VPath>, right: Option<&VPath>, status: DiffStatus, newer: Option<Side>) -> DiffEntry {
    DiffEntry {
        rel_path: rel_path.iter().map(|s| s.to_string()).collect(),
        left: left.map(entry_on),
        right: right.map(entry_on),
        status,
        newer,
    }
}

#[test]
fn left_to_right_copies_left_only_entries_and_leaves_right_only_alone() {
    let l = vp("/left/new.txt");
    let r = vp("/right/extra.txt");
    let entries = [
        diff(&["new.txt"], Some(&l), None, DiffStatus::LeftOnly, None),
        diff(&["extra.txt"], None, Some(&r), DiffStatus::RightOnly, None),
    ];
    let actions = plan_sync(&entries, SyncDirection::LeftToRight, &vp("/left"), &vp("/right")).unwrap();
    assert_eq!(actions, [SyncAction { from: l, dest_dir: vp("/right") }]);
}

#[test]
fn right_to_left_is_the_mirror_image() {
    let l = vp("/left/new.txt");
    let r = vp("/right/extra.txt");
    let entries = [
        diff(&["new.txt"], Some(&l), None, DiffStatus::LeftOnly, None),
        diff(&["extra.txt"], None, Some(&r), DiffStatus::RightOnly, None),
    ];
    let actions = plan_sync(&entries, SyncDirection::RightToLeft, &vp("/left"), &vp("/right")).unwrap();
    assert_eq!(actions, [SyncAction { from: r, dest_dir: vp("/left") }]);
}

#[test]
fn a_difference_copies_from_the_side_the_direction_names() {
    let l = vp("/left/a.txt");
    let r = vp("/right/a.txt");
    let entries = [diff(&["a.txt"], Some(&l), Some(&r), DiffStatus::Differs, None)];
    let left_to_right = plan_sync(&entries, SyncDirection::LeftToRight, &vp("/left"), &vp("/right")).unwrap();
    assert_eq!(left_to_right[0].from, l);
    let right_to_left = plan_sync(&entries, SyncDirection::RightToLeft, &vp("/left"), &vp("/right")).unwrap();
    assert_eq!(right_to_left[0].from, r);
}

#[test]
fn newer_direction_copies_whichever_side_is_newer() {
    let l = vp("/left/a.txt");
    let r = vp("/right/a.txt");
    let left_newer = [diff(&["a.txt"], Some(&l), Some(&r), DiffStatus::Differs, Some(Side::Left))];
    let actions = plan_sync(&left_newer, SyncDirection::Newer, &vp("/left"), &vp("/right")).unwrap();
    assert_eq!(actions[0].from, l);
    let right_newer = [diff(&["a.txt"], Some(&l), Some(&r), DiffStatus::Differs, Some(Side::Right))];
    let actions = plan_sync(&right_newer, SyncDirection::Newer, &vp("/left"), &vp("/right")).unwrap();
    assert_eq!(actions[0].from, r);
}

#[test]
fn newer_direction_still_fills_in_entries_that_exist_on_one_side_only() {
    let l = vp("/left/new.txt");
    let entries = [diff(&["new.txt"], Some(&l), None, DiffStatus::LeftOnly, None)];
    let actions = plan_sync(&entries, SyncDirection::Newer, &vp("/left"), &vp("/right")).unwrap();
    assert_eq!(actions[0].from, l);
}

#[test]
fn newer_direction_skips_a_difference_when_neither_side_is_known_newer() {
    let l = vp("/left/a.txt");
    let r = vp("/right/a.txt");
    let entries = [diff(&["a.txt"], Some(&l), Some(&r), DiffStatus::Differs, None)];
    let actions = plan_sync(&entries, SyncDirection::Newer, &vp("/left"), &vp("/right")).unwrap();
    assert!(actions.is_empty(), "guessing wrong here would overwrite the wrong file");
}

#[test]
fn matching_and_unsyncable_entries_produce_no_action_in_any_direction() {
    let l = vp("/left/a.txt");
    let r = vp("/right/a.txt");
    let entries = [
        diff(&["same.txt"], Some(&l), Some(&r), DiffStatus::Same, None),
        diff(&["clash"], Some(&l), Some(&r), DiffStatus::KindMismatch, None),
    ];
    for direction in [SyncDirection::LeftToRight, SyncDirection::RightToLeft, SyncDirection::Newer] {
        let actions = plan_sync(&entries, direction, &vp("/left"), &vp("/right")).unwrap();
        assert!(actions.is_empty(), "{direction:?}");
    }
}

#[test]
fn a_nested_entry_lands_in_the_matching_nested_folder() {
    let l = vp("/left/docs/old/a.txt");
    let entries = [diff(&["docs", "old", "a.txt"], Some(&l), None, DiffStatus::LeftOnly, None)];
    let actions = plan_sync(&entries, SyncDirection::LeftToRight, &vp("/left"), &vp("/right")).unwrap();
    assert_eq!(actions[0].dest_dir, vp("/right/docs/old"));
}

#[test]
fn a_missing_folder_itself_is_copied_as_one_action_not_expanded() {
    let l = vp("/left/extra-folder");
    let entries = [diff(&["extra-folder"], Some(&l), None, DiffStatus::LeftOnly, None)];
    let actions = plan_sync(&entries, SyncDirection::LeftToRight, &vp("/left"), &vp("/right")).unwrap();
    assert_eq!(actions, [SyncAction { from: l, dest_dir: vp("/right") }]);
}

#[test]
fn several_entries_bound_for_the_same_folder_become_one_job() {
    let a = vp("/left/docs/a.txt");
    let b = vp("/left/docs/b.txt");
    let c = vp("/left/other/c.txt");
    let actions = vec![
        SyncAction { from: a.clone(), dest_dir: vp("/right/docs") },
        SyncAction { from: b.clone(), dest_dir: vp("/right/docs") },
        SyncAction { from: c.clone(), dest_dir: vp("/right/other") },
    ];
    let jobs = sync_jobs(&actions);
    assert_eq!(
        jobs,
        [
            JobSpec::Copy { sources: vec![a, b], dest: vp("/right/docs") },
            JobSpec::Copy { sources: vec![c], dest: vp("/right/other") },
        ]
    );
}

#[test]
fn no_actions_means_no_jobs() {
    assert!(sync_jobs(&[]).is_empty());
}

// ---- More cases ----

#[test]
fn a_name_that_is_not_a_name_is_an_error() {
    let l = vp("/left/a.txt");
    let entries = [diff(&["..", "a.txt"], Some(&l), None, DiffStatus::LeftOnly, None)];
    let result = plan_sync(&entries, SyncDirection::LeftToRight, &vp("/left"), &vp("/right"));
    assert!(matches!(result, Err(manager_core::Error::InvalidPath(_))));
}

#[test]
fn jobs_come_out_in_the_order_their_first_action_appeared() {
    let actions = vec![
        SyncAction { from: vp("/l/x"), dest_dir: vp("/r/b") },
        SyncAction { from: vp("/l/y"), dest_dir: vp("/r/a") },
        SyncAction { from: vp("/l/z"), dest_dir: vp("/r/b") },
    ];
    let jobs = sync_jobs(&actions);
    assert_eq!(
        jobs,
        [
            JobSpec::Copy { sources: vec![vp("/l/x"), vp("/l/z")], dest: vp("/r/b") },
            JobSpec::Copy { sources: vec![vp("/l/y")], dest: vp("/r/a") },
        ]
    );
}
