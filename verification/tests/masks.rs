use manager_core::search::masks::Masks;

fn m(text: &str) -> Masks {
    Masks::parse(text)
}

#[test]
fn a_plain_name_matches_only_itself() {
    assert!(m("notes.txt").matches("notes.txt"));
    assert!(!m("notes.txt").matches("notes.md"));
    assert!(!m("notes.txt").matches("my notes.txt"));
}

#[test]
fn a_star_stands_for_any_run_of_characters() {
    assert!(m("*.txt").matches("notes.txt"));
    assert!(m("*.txt").matches(".txt"));
    assert!(!m("*.txt").matches("notes.txt.bak"));
    assert!(!m("*.txt").matches("notes.tx"));
}

#[test]
fn a_question_mark_stands_for_exactly_one() {
    assert!(m("log?.txt").matches("log1.txt"));
    assert!(!m("log?.txt").matches("log.txt"));
    assert!(!m("log?.txt").matches("log12.txt"));
}

#[test]
fn stars_can_appear_anywhere_and_more_than_once() {
    assert!(m("a*b*c").matches("abc"));
    assert!(m("a*b*c").matches("axxbyyc"));
    assert!(!m("a*b*c").matches("acb"));
    assert!(m("*report*").matches("2024-report-final.pdf"));
}

#[test]
fn case_does_not_matter() {
    assert!(m("*.txt").matches("NOTES.TXT"));
    assert!(m("*.TXT").matches("notes.txt"));
    assert!(m("ReadMe*").matches("readme.md"));
}

#[test]
fn several_masks_can_be_given_at_once() {
    let masks = m("*.txt;*.md");
    assert!(masks.matches("notes.txt"));
    assert!(masks.matches("notes.md"));
    assert!(!masks.matches("notes.rs"));
}

#[test]
fn spaces_around_masks_are_ignored() {
    let masks = m(" *.txt ; *.md ");
    assert!(masks.matches("notes.txt"));
    assert!(masks.matches("notes.md"));
}

#[test]
fn a_bar_separates_off_what_to_leave_out() {
    let masks = m("*.rs|test_*");
    assert!(masks.matches("main.rs"));
    assert!(!masks.matches("test_main.rs"), "excluded by name");
    assert!(!masks.matches("main.txt"), "not included in the first place");
}

#[test]
fn several_things_can_be_left_out() {
    let masks = m("*|*.tmp;*.bak");
    assert!(masks.matches("notes.txt"));
    assert!(!masks.matches("notes.tmp"));
    assert!(!masks.matches("notes.bak"));
}

#[test]
fn star_dot_star_means_everything() {
    let masks = m("*.*");
    assert!(masks.matches("notes.txt"));
    assert!(masks.matches("Makefile"), "no dot, still everything");
    assert!(masks.is_everything());
}

#[test]
fn an_empty_box_finds_everything() {
    for text in ["", "   ", "*"] {
        let masks = m(text);
        assert!(masks.matches("anything at all"), "{text:?}");
        assert!(masks.is_everything(), "{text:?}");
    }
}

#[test]
fn leaving_things_out_without_saying_what_to_include_still_includes_the_rest() {
    let masks = m("|*.tmp");
    assert!(masks.matches("notes.txt"));
    assert!(!masks.matches("notes.tmp"));
    assert!(!masks.is_everything());
}

#[test]
fn a_mask_matches_whole_names_not_parts_of_them() {
    assert!(!m("report").matches("report.txt"));
    assert!(!m("txt").matches("notes.txt"));
}

#[test]
fn names_with_awkward_characters_still_work() {
    assert!(m("*.txt").matches("\u{e9}t\u{e9} 2024.txt"));
    assert!(m("?.txt").matches("\u{4e16}.txt"), "one character, three bytes");
}

// ---- More cases ----

#[test]
fn a_star_may_match_nothing_or_everything() {
    assert!(m("*").matches(""));
    assert!(m("a*").matches("a"));
    assert!(m("**").matches("xyz"));
    assert!(!m("?").matches(""));
}

#[test]
fn a_dead_end_is_retried_with_the_star_taking_more() {
    assert!(m("*ab").matches("aab"));
    assert!(m("*aab").matches("aaab"));
    assert!(!m("*ab").matches("aba"));
}

#[test]
fn case_folding_is_not_only_ascii() {
    assert!(m("\u{c9}T\u{c9}*").matches("\u{e9}t\u{e9}.txt"));
}
