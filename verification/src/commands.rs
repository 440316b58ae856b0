//! What a panel shows of a folder: the choices the frontend sends as plain
//! text, turned into the library's own.
use vstd::prelude::*;

use crate::compare::diff::{diff_views, DiffEntry, DiffEntryV};
use crate::dto::{diff_key, joined};
use crate::entry::{Entry, EntryV};
use crate::jobs::{ConflictAction, Control, ErrorAnswer};
use crate::sort::{entry_views, sort_entries, sorted_by, SortKey, SortOrder, SortSpec};
use crate::text::{push_str, str_eq, strings};

verus! {

/// The column a frontend names: `extension`, `modified` or `size`; anything else
/// is the name.
pub open spec fn sort_key_spec(key: Seq<char>) -> SortKey {
    if key == "extension"@ {
        SortKey::Extension
    } else if key == "modified"@ {
        SortKey::Modified
    } else if key == "size"@ {
        SortKey::Size
    } else {
        SortKey::Name
    }
}

pub fn parse_sort_key(key: &str) -> (r: SortKey)
    ensures
        r == sort_key_spec(key@),
{
    if str_eq(key, "extension") {
        SortKey::Extension
    } else if str_eq(key, "modified") {
        SortKey::Modified
    } else if str_eq(key, "size") {
        SortKey::Size
    } else {
        SortKey::Name
    }
}

/// The word a frontend uses for each column.
pub open spec fn column_word(k: SortKey) -> Seq<char> {
    match k {
        SortKey::Name => seq!['n', 'a', 'm', 'e'],
        SortKey::Extension => seq!['e', 'x', 't', 'e', 'n', 's', 'i', 'o', 'n'],
        SortKey::Size => seq!['s', 'i', 'z', 'e'],
        SortKey::Modified => seq!['m', 'o', 'd', 'i', 'f', 'i', 'e', 'd'],
    }
}

/// Each column's word names that column, every other word names the name
/// column, and two different columns are never named by one word.
pub proof fn lemma_each_word_names_its_column(k: SortKey, word: Seq<char>)
    ensures
        sort_key_spec(column_word(k)) == k,
        (forall|c: SortKey| word != #[trigger] column_word(c)) ==> sort_key_spec(word) == SortKey::Name,
{
    reveal_strlit("extension");
    reveal_strlit("modified");
    reveal_strlit("size");
    assert(column_word(SortKey::Extension) =~= "extension"@);
    assert(column_word(SortKey::Modified) =~= "modified"@);
    assert(column_word(SortKey::Size) =~= "size"@);
    assert(column_word(SortKey::Name) != "extension"@);
    assert(column_word(SortKey::Name) != "modified"@);
    assert(column_word(SortKey::Name) != "size"@);
    assert(column_word(SortKey::Modified) != "extension"@);
    assert(column_word(SortKey::Size) != "extension"@);
    assert(column_word(SortKey::Size) != "modified"@);
    if (forall|c: SortKey| word != #[trigger] column_word(c)) {
        assert(word != column_word(SortKey::Extension));
        assert(word != column_word(SortKey::Modified));
        assert(word != column_word(SortKey::Size));
    }
}

/// The sort a panel uses: by the chosen column, reversed if asked, folders first.
pub open spec fn panel_sort(key: Seq<char>, reverse: bool) -> SortSpec {
    SortSpec {
        key: sort_key_spec(key),
        order: if reverse {
            SortOrder::Descending
        } else {
            SortOrder::Ascending
        },
        dirs_first: true,
    }
}

/// Puts a listing in the shape a panel shows it: hidden entries dropped unless
/// asked for, then sorted by the chosen column, folders first.
pub fn arrange_listing(entries: &mut Vec<Entry>, sort_key: &str, reverse: bool, show_hidden: bool)
    ensures
        entry_views(final(entries)@).to_multiset() == entry_views(old(entries)@).filter(
            |e: EntryV| show_hidden || !e.hidden,
        ).to_multiset(),
        sorted_by(entry_views(final(entries)@), panel_sort(sort_key@, reverse)),
{
    let ghost all = entry_views(entries@);
    let mut kept: Vec<Entry> = Vec::new();
    let mut i: usize = 0;
    assert(all.take(0) =~= Seq::<EntryV>::empty());
    while i < entries.len()
        invariant
            all == entry_views(entries@),
            i <= entries@.len(),
            entry_views(kept@) == all.take(i as int).filter(|e: EntryV| show_hidden || !e.hidden),
        decreases entries@.len() - i,
    {
        let ghost before = entry_views(kept@);
        proof {
            assert(all.take(i + 1) =~= all.take(i as int).push(entries@[i as int]@));
            all.take(i as int).lemma_filter_push(entries@[i as int]@, |e: EntryV| show_hidden || !e.hidden);
        }
        if show_hidden || !entries[i].hidden {
            kept.push(entries[i].clone());
            assert(entry_views(kept@) =~= before.push(entries@[i as int]@));
        }
        i += 1;
    }
    assert(all.take(entries@.len() as int) =~= all);
    let spec = SortSpec {
        key: parse_sort_key(sort_key),
        order: if reverse {
            SortOrder::Descending
        } else {
            SortOrder::Ascending
        },
        dirs_first: true,
    };
    sort_entries(&mut kept, spec);
    *entries = kept;
}

/// The job control a frontend names: `pause`, `resume` or `cancel`.
pub open spec fn job_control_spec(action: Seq<char>) -> Option<Control> {
    if action == "pause"@ {
        Some(Control::Pause)
    } else if action == "resume"@ {
        Some(Control::Run)
    } else if action == "cancel"@ {
        Some(Control::Cancel)
    } else {
        None
    }
}

pub fn job_control(action: &str) -> (r: Result<Control, String>)
    ensures
        match job_control_spec(action@) {
            Some(c) => r == Ok::<Control, String>(c),
            None => r matches Err(m) && m@ == "unknown job action: "@ + action@,
        },
{
    if str_eq(action, "pause") {
        Ok(Control::Pause)
    } else if str_eq(action, "resume") {
        Ok(Control::Run)
    } else if str_eq(action, "cancel") {
        Ok(Control::Cancel)
    } else {
        Err(unknown("unknown job action: ", action))
    }
}

/// The answer to "something failed" a frontend names: `retry`, `skip`, `skipAll`
/// or `cancel`.
pub open spec fn error_answer_spec(answer: Seq<char>) -> Option<ErrorAnswer> {
    if answer == "retry"@ {
        Some(ErrorAnswer::Retry)
    } else if answer == "skip"@ {
        Some(ErrorAnswer::Skip)
    } else if answer == "skipAll"@ {
        Some(ErrorAnswer::SkipAll)
    } else if answer == "cancel"@ {
        Some(ErrorAnswer::Cancel)
    } else {
        None
    }
}

pub fn error_answer(answer: &str) -> (r: Result<ErrorAnswer, String>)
    ensures
        match error_answer_spec(answer@) {
            Some(a) => r == Ok::<ErrorAnswer, String>(a),
            None => r matches Err(m) && m@ == "unknown error answer: "@ + answer@,
        },
{
    if str_eq(answer, "retry") {
        Ok(ErrorAnswer::Retry)
    } else if str_eq(answer, "skip") {
        Ok(ErrorAnswer::Skip)
    } else if str_eq(answer, "skipAll") {
        Ok(ErrorAnswer::SkipAll)
    } else if str_eq(answer, "cancel") {
        Ok(ErrorAnswer::Cancel)
    } else {
        Err(unknown("unknown error answer: ", answer))
    }
}

/// The answer to "the destination exists" a frontend names: `overwrite`,
/// `overwriteOlder`, `skip`, `rename` or `cancel`.
pub open spec fn conflict_action_spec(action: Seq<char>) -> Option<ConflictAction> {
    if action == "overwrite"@ {
        Some(ConflictAction::Overwrite)
    } else if action == "overwriteOlder"@ {
        Some(ConflictAction::OverwriteOlder)
    } else if action == "skip"@ {
        Some(ConflictAction::Skip)
    } else if action == "rename"@ {
        Some(ConflictAction::Rename)
    } else if action == "cancel"@ {
        Some(ConflictAction::Cancel)
    } else {
        None
    }
}

pub fn conflict_action(action: &str) -> (r: Result<ConflictAction, String>)
    ensures
        match conflict_action_spec(action@) {
            Some(a) => r == Ok::<ConflictAction, String>(a),
            None => r matches Err(m) && m@ == "unknown conflict action: "@ + action@,
        },
{
    if str_eq(action, "overwrite") {
        Ok(ConflictAction::Overwrite)
    } else if str_eq(action, "overwriteOlder") {
        Ok(ConflictAction::OverwriteOlder)
    } else if str_eq(action, "skip") {
        Ok(ConflictAction::Skip)
    } else if str_eq(action, "rename") {
        Ok(ConflictAction::Rename)
    } else if str_eq(action, "cancel") {
        Ok(ConflictAction::Cancel)
    } else {
        Err(unknown("unknown conflict action: ", action))
    }
}

fn unknown(what: &str, word: &str) -> (r: String)
    ensures
        r@ == what@ + word@,
{
    let mut m = String::new();
    push_str(&mut m, what);
    push_str(&mut m, word);
    m
}

/// Whether a frontend marked difference `d`, naming it by its key.
pub open spec fn is_marked(d: DiffEntryV, keys: Seq<Seq<char>>) -> bool {
    keys.contains(joined(d.rel_path))
}

/// The differences whose keys a frontend marked, in the order they were found.
pub fn marked_entries(entries: &[DiffEntry], keys: &[String]) -> (r: Vec<DiffEntry>)
    ensures
        diff_views(r@) == diff_views(entries@).filter(|d: DiffEntryV| is_marked(d, strings(keys@))),
{
    let ghost all = diff_views(entries@);
    let ghost ks = strings(keys@);
    let mut out: Vec<DiffEntry> = Vec::new();
    let mut i: usize = 0;
    assert(all.take(0) =~= Seq::<DiffEntryV>::empty());
    while i < entries.len()
        invariant
            all == diff_views(entries@),
            ks == strings(keys@),
            i <= entries@.len(),
            diff_views(out@) == all.take(i as int).filter(|d: DiffEntryV| is_marked(d, ks)),
        decreases entries@.len() - i,
    {
        let ghost before = diff_views(out@);
        proof {
            assert(all.take(i + 1) =~= all.take(i as int).push(entries@[i as int]@));
            all.take(i as int).lemma_filter_push(entries@[i as int]@, |d: DiffEntryV| is_marked(d, ks));
        }
        let key = diff_key(&entries[i].rel_path);
        let mut found = false;
        let mut j: usize = 0;
        while j < keys.len()
            invariant
                ks == strings(keys@),
                j <= keys@.len(),
                found == exists|q: int| 0 <= q < j && ks[q] == key@,
            decreases keys@.len() - j,
        {
            let same = str_eq(keys[j].as_str(), key.as_str());
            proof {
                assert(ks[j as int] == keys@[j as int]@);
                if !same {
                    assert forall|q: int| 0 <= q < j + 1 && ks[q] == key@ implies 0 <= q < j by {}
                }
            }
            if same {
                found = true;
            }
            j += 1;
        }
        proof {
            if found {
                let q = choose|q: int| 0 <= q < keys@.len() && ks[q] == key@;
                assert(ks.contains(key@));
            } else {
                assert forall|q: int| 0 <= q < ks.len() implies ks[q] != key@ by {}
            }
        }
        if found {
            out.push(entries[i].clone());
            assert(diff_views(out@) =~= before.push(entries@[i as int]@));
        }
        i += 1;
    }
    assert(all.take(entries@.len() as int) =~= all);
    out
}

} // verus!
