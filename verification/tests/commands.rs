use manager_core::commands::{conflict_action, error_answer, job_control, marked_entries};
use manager_core::compare::diff::{DiffEntry, DiffStatus};
use manager_core::dto::diff_key;
use manager_core::jobs::{ConflictAction, Control, ErrorAnswer};

#[test]
fn job_controls_are_named_in_plain_words() {
    assert_eq!(job_control("pause"), Ok(Control::Pause));
    assert_eq!(job_control("resume"), Ok(Control::Run));
    assert_eq!(job_control("cancel"), Ok(Control::Cancel));
    assert_eq!(job_control("stop"), Err("unknown job action: stop".to_string()));
}

#[test]
fn answers_to_an_error_are_named_in_plain_words() {
    assert_eq!(error_answer("retry"), Ok(ErrorAnswer::Retry));
    assert_eq!(error_answer("skip"), Ok(ErrorAnswer::Skip));
    assert_eq!(error_answer("skipAll"), Ok(ErrorAnswer::SkipAll));
    assert_eq!(error_answer("cancel"), Ok(ErrorAnswer::Cancel));
    assert_eq!(error_answer("Skip"), Err("unknown error answer: Skip".to_string()));
}

#[test]
fn answers_to_a_conflict_are_named_in_plain_words() {
    assert_eq!(conflict_action("overwrite"), Ok(ConflictAction::Overwrite));
    assert_eq!(conflict_action("overwriteOlder"), Ok(ConflictAction::OverwriteOlder));
    assert_eq!(conflict_action("skip"), Ok(ConflictAction::Skip));
    assert_eq!(conflict_action("rename"), Ok(ConflictAction::Rename));
    assert_eq!(conflict_action("cancel"), Ok(ConflictAction::Cancel));
    assert_eq!(conflict_action(""), Err("unknown conflict action: ".to_string()));
}

fn diff(path: &[&str]) -> DiffEntry {
    DiffEntry {
        rel_path: path.iter().map(|p| p.to_string()).collect(),
        left: None,
        right: None,
        status: DiffStatus::LeftOnly,
        newer: None,
    }
}

#[test]
fn marked_differences_are_picked_by_their_keys_in_order() {
    let entries = vec![diff(&["a"]), diff(&["docs", "guide.md"]), diff(&["b"]), diff(&["docs"])];
    assert_eq!(diff_key(&entries[1].rel_path), "docs/guide.md");
    let keys = vec!["b".to_string(), "docs/guide.md".to_string(), "nothing".to_string()];
    let picked = marked_entries(&entries, &keys);
    let names: Vec<String> = picked.iter().map(|d| d.rel_path.join("/")).collect();
    assert_eq!(names, ["docs/guide.md", "b"]);
    assert!(marked_entries(&entries, &[]).is_empty());
}
