use manager_core::jobs::worker::{conflict_answer, folder_in_the_way_message, onto_itself_message, removes_source_dir};
use manager_core::entry::LinkTarget;
use manager_core::jobs::worker::{
    can_rename, conflict_step, error_step, numbered_candidate, plan_step, resolve, temp_path, ConflictStep,
    DestState, ErrorStep, PlanStep, Resolution, TargetKind,
};
use manager_core::jobs::{next_control, ConflictAction, ConflictAnswer, Control, ErrorAnswer, JobSpec};
use manager_core::{Entry, EntryKind, Permissions, VPath};

#[test]
fn titles() {
    let a = VPath::parse("sftp://h/a.txt").unwrap();
    let b = VPath::parse("sftp://h/b.txt").unwrap();
    let dest = VPath::parse("sftp://h/dest").unwrap();
    let spec = |sources: Vec<VPath>| JobSpec::Copy { sources, dest: dest.clone() };
    assert_eq!(spec(vec![a.clone()]).title(), "Copy a.txt \u{2192} sftp://h/dest");
    assert_eq!(spec(vec![a.clone(), b]).title(), "Copy 2 items \u{2192} sftp://h/dest");
    let del = JobSpec::Delete { targets: vec![a], permanent: false };
    assert_eq!(del.title(), "Trash a.txt");
}

// ---- More cases ----

fn entry(path: &str, kind: EntryKind, modified: Option<i128>) -> Entry {
    let p = VPath::parse(path).unwrap();
    Entry {
        name: p.file_name().unwrap(),
        path: p,
        kind,
        size: 1,
        modified,
        created: None,
        accessed: None,
        permissions: Permissions { readonly: false, unix_mode: None },
        hidden: false,
        link_target: None,
    }
}

#[test]
fn more_titles() {
    let dest = VPath::parse("/tmp").unwrap();
    let moving = JobSpec::Move { sources: vec![], dest: dest.clone() };
    assert_eq!(moving.title(), "Move 0 items \u{2192} /tmp");
    let gone = JobSpec::Delete {
        targets: vec![VPath::parse("/a").unwrap(), VPath::parse("/b").unwrap(), VPath::parse("/c").unwrap()],
        permanent: true,
    };
    assert_eq!(gone.title(), "Delete 3 items");
}

#[test]
fn what_dest_means() {
    assert_eq!(plan_step(DestState::Folder, 3), PlanStep::Into);
    assert_eq!(plan_step(DestState::Other, 1), PlanStep::AsName);
    assert_eq!(plan_step(DestState::Other, 2), PlanStep::NotAFolder);
    assert_eq!(plan_step(DestState::Missing, 1), PlanStep::AsName);
    assert_eq!(plan_step(DestState::Missing, 0), PlanStep::AsName);
    assert_eq!(plan_step(DestState::Missing, 2), PlanStep::CreateFolder);
}

#[test]
fn conflicts_with_itself_and_between_folders() {
    let f = entry("/a/x", EntryKind::File, None);
    assert_eq!(conflict_step(&f, &f), ConflictStep::OntoItself);
    let d1 = entry("/a/d", EntryKind::Dir, None);
    let d2 = entry("/b/d", EntryKind::Symlink { target: Some(LinkTarget::Dir) }, None);
    assert_eq!(conflict_step(&d1, &d2), ConflictStep::Merge);
    let f2 = entry("/b/x", EntryKind::File, None);
    assert_eq!(conflict_step(&f, &f2), ConflictStep::Ask);
}

#[test]
fn overwrite_older_needs_both_dates() {
    let new = entry("/a/x", EntryKind::File, Some(200));
    let old = entry("/b/x", EntryKind::File, Some(100));
    let undated = entry("/b/x", EntryKind::File, None);
    assert_eq!(resolve(&new, &old, ConflictAction::OverwriteOlder), Resolution::Replace);
    assert_eq!(resolve(&old, &new, ConflictAction::OverwriteOlder), Resolution::Skip);
    assert_eq!(resolve(&new, &undated, ConflictAction::OverwriteOlder), Resolution::Skip);
    assert_eq!(resolve(&new, &old, ConflictAction::Cancel), Resolution::Cancel);
    assert_eq!(resolve(&new, &old, ConflictAction::Rename), Resolution::Rename);
    let folder = entry("/b/x", EntryKind::Dir, None);
    assert_eq!(resolve(&new, &folder, ConflictAction::Overwrite), Resolution::FolderInTheWay);
}

#[test]
fn skip_all_is_for_good() {
    assert_eq!(error_step(false, ErrorAnswer::Retry), (ErrorStep::Retry, false));
    assert_eq!(error_step(false, ErrorAnswer::SkipAll), (ErrorStep::Skip, true));
    assert_eq!(error_step(true, ErrorAnswer::Retry), (ErrorStep::Skip, true));
    assert_eq!(error_step(false, ErrorAnswer::Cancel), (ErrorStep::Cancel, false));
}

#[test]
fn a_move_renames_unless_it_merges_or_replaces_with_a_folder() {
    let f = entry("/a/x", EntryKind::File, None);
    let d = entry("/a/d", EntryKind::Dir, None);
    assert!(can_rename(TargetKind::New, &d));
    assert!(can_rename(TargetKind::Replace, &f));
    assert!(!can_rename(TargetKind::Replace, &d));
    assert!(!can_rename(TargetKind::Merge, &d));
}

#[test]
fn partial_files_are_hidden_next_to_their_destination() {
    let dest = VPath::parse("/home/me/photo.jpg").unwrap();
    assert_eq!(temp_path(&dest).unwrap().to_string(), "/home/me/.photo.jpg.part");
    assert!(temp_path(&VPath::parse("/").unwrap()).is_err());
}

#[test]
fn keeping_both_numbers_the_new_one() {
    let dest = VPath::parse("/home/me/photo.jpg").unwrap();
    assert_eq!(numbered_candidate(&dest, 2).unwrap().to_string(), "/home/me/photo (2).jpg");
    let dotfile = VPath::parse("/home/me/.bashrc").unwrap();
    assert_eq!(numbered_candidate(&dotfile, 3).unwrap().to_string(), "/home/me/.bashrc (3)");
    let plain = VPath::parse("/home/me/notes").unwrap();
    assert_eq!(numbered_candidate(&plain, 10).unwrap().to_string(), "/home/me/notes (10)");
}

#[test]
fn cancelling_is_final() {
    assert_eq!(next_control(Control::Run, Control::Pause), (Control::Pause, true));
    assert_eq!(next_control(Control::Pause, Control::Pause), (Control::Pause, false));
    assert_eq!(next_control(Control::Cancel, Control::Run), (Control::Cancel, false));
}

#[test]
fn a_folder_goes_only_when_everything_in_it_came_through() {
    assert!(removes_source_dir(true, &vec![]));
    assert!(removes_source_dir(true, &vec![true, true]));
    assert!(!removes_source_dir(true, &vec![true, false, true]));
    assert!(!removes_source_dir(false, &vec![true]));
}

#[test]
fn an_answer_for_all_is_remembered_and_nothing_else_is() {
    let once = ConflictAnswer { action: ConflictAction::Skip, apply_to_all: false };
    let all = ConflictAnswer { action: ConflictAction::Overwrite, apply_to_all: true };
    assert_eq!(conflict_answer(None, once), (ConflictAction::Skip, None));
    assert_eq!(conflict_answer(None, all), (ConflictAction::Overwrite, Some(ConflictAction::Overwrite)));
    assert_eq!(conflict_answer(Some(ConflictAction::Rename), all), (ConflictAction::Rename, Some(ConflictAction::Rename)));
}

#[test]
fn refusals_name_the_path() {
    let p = VPath::parse("/home/me/a.txt").unwrap();
    assert_eq!(onto_itself_message(&p), "/home/me/a.txt can't be copied onto itself");
    assert_eq!(folder_in_the_way_message(&p), "can't replace the folder /home/me/a.txt with a file");
}
