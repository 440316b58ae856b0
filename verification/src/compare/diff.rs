//! Working out how two folders' contents differ, one level at a time.
//!
//! Nothing here touches a disk. It's handed the entries two folders already
//! listed and says, for each name, whether it's on one side only or both, and
//! — when it's on both — whether they look the same. "Look the same" is a
//! metadata guess (size and modified time); a later pass can upgrade that to a
//! certain answer with a hash.
use vstd::prelude::*;

use crate::entry::{Entry, EntryKind, EntryV};
use crate::sort::{natural_order, natural_order_str, lemma_natural_order};
use crate::text::{clone_strings, str_eq, strings};

verus! {

/// Which side of a comparison something is on.
#[derive(Debug, Clone, Copy, PartialEq, Eq, Structural)]
pub enum Side {
    Left,
    Right,
}

impl Side {
    pub fn other(self) -> (r: Side)
        ensures
            r != self,
    {
        match self {
            Side::Left => Side::Right,
            Side::Right => Side::Left,
        }
    }
}

#[derive(Debug, Clone, Copy, PartialEq, Eq, Structural)]
pub enum DiffStatus {
    /// Only on the left.
    LeftOnly,
    /// Only on the right.
    RightOnly,
    /// On both, and as alike as this comparison checked for.
    Same,
    /// On both, but not alike.
    Differs,
    /// On both, but one's a file and the other's a folder. Nothing here can
    /// be synced automatically: something has to give, and that's a decision
    /// for a person, not this comparison.
    KindMismatch,
}

impl DiffStatus {
    pub open spec fn spec_is_syncable(self) -> bool {
        self is LeftOnly || self is RightOnly || self is Differs
    }

    /// Whether an entry in this state can be copied across on its own.
    pub fn is_syncable(self) -> (r: bool)
        ensures
            r == self.spec_is_syncable(),
    {
        match self {
            DiffStatus::LeftOnly | DiffStatus::RightOnly | DiffStatus::Differs => true,
            _ => false,
        }
    }
}

/// One name, and how it compares between the two folders.
///
/// `rel_path` is where it sits below the folders being compared — `["docs",
/// "guide.md"]` for a file two levels down — kept as components rather than a
/// string so a destination path can be rebuilt on the other side exactly,
/// with no ambiguity about separators.
#[derive(Debug, PartialEq)]
pub struct DiffEntry {
    pub rel_path: Vec<String>,
    pub left: Option<Entry>,
    pub right: Option<Entry>,
    pub status: DiffStatus,
    /// Which side is newer, when both sides have a file with a modified time
    /// and they don't agree. `None` when that can't be said: only one side
    /// exists, a time is missing, or they're equal.
    pub newer: Option<Side>,
}

/// What a [`DiffEntry`] holds.
pub struct DiffEntryV {
    pub rel_path: Seq<Seq<char>>,
    pub left: Option<EntryV>,
    pub right: Option<EntryV>,
    pub status: DiffStatus,
    pub newer: Option<Side>,
}

pub open spec fn opt_entry_view(o: Option<Entry>) -> Option<EntryV> {
    match o {
        Some(e) => Some(e@),
        None => None,
    }
}

impl View for DiffEntry {
    type V = DiffEntryV;

    open spec fn view(&self) -> DiffEntryV {
        DiffEntryV {
            rel_path: strings(self.rel_path@),
            left: opt_entry_view(self.left),
            right: opt_entry_view(self.right),
            status: self.status,
            newer: self.newer,
        }
    }
}

pub fn clone_opt_entry(o: &Option<Entry>) -> (r: Option<Entry>)
    ensures
        opt_entry_view(r) == opt_entry_view(*o),
{
    match o {
        Some(e) => Some(e.clone()),
        None => None,
    }
}

impl Clone for DiffEntry {
    fn clone(&self) -> (r: Self)
        ensures
            r@ == self@,
    {
        DiffEntry {
            rel_path: clone_strings(&self.rel_path),
            left: clone_opt_entry(&self.left),
            right: clone_opt_entry(&self.right),
            status: self.status,
            newer: self.newer,
        }
    }
}

impl DiffEntry {
    /// The last component of the relative path, or `""` at the top.
    pub fn name(&self) -> (r: &str)
        ensures
            r@ == (if self.rel_path@.len() == 0 {
                Seq::<char>::empty()
            } else {
                self.rel_path@.last()@
            }),
    {
        if self.rel_path.len() == 0 {
            proof {
                reveal_strlit("");
            }
            ""
        } else {
            self.rel_path[self.rel_path.len() - 1].as_str()
        }
    }
}

pub open spec fn is_dir_spec(e: EntryV) -> bool {
    e.kind == EntryKind::Dir
}

/// Which side has the later modified time, when both have one and they differ.
pub open spec fn newer_spec(left: EntryV, right: EntryV) -> Option<Side> {
    match (left.modified, right.modified) {
        (Some(a), Some(b)) => if a > b {
            Some(Side::Left)
        } else if b > a {
            Some(Side::Right)
        } else {
            None
        },
        _ => None,
    }
}

/// The status of a pair from metadata alone, and which side is newer. Equal sizes
/// without two differing timestamps count as the same: no evidence of a difference.
pub open spec fn classify_spec(left: Option<EntryV>, right: Option<EntryV>) -> (DiffStatus, Option<Side>) {
    match (left, right) {
        (Some(_), None) => (DiffStatus::LeftOnly, None),
        (None, Some(_)) => (DiffStatus::RightOnly, None),
        (Some(l), Some(r)) => if is_dir_spec(l) != is_dir_spec(r) {
            (DiffStatus::KindMismatch, None)
        } else if is_dir_spec(l) {
            (DiffStatus::Same, None)
        } else if l.size == r.size {
            match (l.modified, r.modified) {
                (Some(a), Some(b)) => if a != b {
                    (DiffStatus::Differs, newer_spec(l, r))
                } else {
                    (DiffStatus::Same, None)
                },
                _ => (DiffStatus::Same, None),
            }
        } else {
            (DiffStatus::Differs, newer_spec(l, r))
        },
        (None, None) => (DiffStatus::Same, None),
    }
}

/// How a pair is classified, from what each side is. A name on one side only
/// is that side's; a file against a folder can't be compared; two folders are
/// alike. Two files differ when their sizes differ, or when both have a
/// modified time and the times differ; otherwise they count as the same. When
/// both files have times and these differ, the newer side is the one with the
/// later time, whatever the sizes; in every other case no side is called newer.
pub proof fn lemma_how_pairs_are_classified(l: EntryV, r: EntryV)
    ensures
        classify_spec(Some(l), None) == (DiffStatus::LeftOnly, None::<Side>),
        classify_spec(None, Some(r)) == (DiffStatus::RightOnly, None::<Side>),
        (l.kind == EntryKind::Dir) != (r.kind == EntryKind::Dir) ==> classify_spec(Some(l), Some(r)) == (
            DiffStatus::KindMismatch,
            None::<Side>,
        ),
        l.kind == EntryKind::Dir && r.kind == EntryKind::Dir ==> classify_spec(Some(l), Some(r)) == (
            DiffStatus::Same,
            None::<Side>,
        ),
        l.kind != EntryKind::Dir && r.kind != EntryKind::Dir ==> classify_spec(Some(l), Some(r)).0 == (if l.size
            != r.size || times_differ(l, r) {
            DiffStatus::Differs
        } else {
            DiffStatus::Same
        }),
        l.kind != EntryKind::Dir && r.kind != EntryKind::Dir ==> classify_spec(Some(l), Some(r)).1 == (if times_differ(
            l,
            r,
        ) {
            if l.modified->0 > r.modified->0 {
                Some(Side::Left)
            } else {
                Some(Side::Right)
            }
        } else {
            None
        }),
{
}

/// Both have a modified time, and they aren't the same.
pub open spec fn times_differ(l: EntryV, r: EntryV) -> bool {
    l.modified is Some && r.modified is Some && l.modified->0 != r.modified->0
}

/// The same status seen from the other side.
pub open spec fn mirror_status(s: DiffStatus) -> DiffStatus {
    match s {
        DiffStatus::LeftOnly => DiffStatus::RightOnly,
        DiffStatus::RightOnly => DiffStatus::LeftOnly,
        other => other,
    }
}

/// The same side seen from the other side.
pub open spec fn mirror_side(s: Option<Side>) -> Option<Side> {
    match s {
        Some(Side::Left) => Some(Side::Right),
        Some(Side::Right) => Some(Side::Left),
        None => None,
    }
}

/// Comparing the other way round gives the mirror image: what is only on one
/// side is only on the other, the newer side swaps, and the rest stays as it was.
pub proof fn lemma_comparison_mirrors(left: Option<EntryV>, right: Option<EntryV>)
    ensures
        classify_spec(right, left) == (
            mirror_status(classify_spec(left, right).0),
            mirror_side(classify_spec(left, right).1),
        ),
{
}

fn is_dir(entry: &Entry) -> (r: bool)
    ensures
        r == is_dir_spec(entry@),
{
    match entry.kind {
        EntryKind::Dir => true,
        _ => false,
    }
}

/// Which side is newer, when both have a modified time and they differ.
pub fn newer_of(left: &Entry, right: &Entry) -> (r: Option<Side>)
    ensures
        r == newer_spec(left@, right@),
{
    match (left.modified, right.modified) {
        (Some(a), Some(b)) => if a > b {
            Some(Side::Left)
        } else if b > a {
            Some(Side::Right)
        } else {
            None
        },
        _ => None,
    }
}

/// Decides one pair's status from metadata alone.
fn classify(rel_path: Vec<String>, left: Option<Entry>, right: Option<Entry>) -> (r: DiffEntry)
    ensures
        r@ == (DiffEntryV {
            rel_path: strings(rel_path@),
            left: opt_entry_view(left),
            right: opt_entry_view(right),
            status: classify_spec(opt_entry_view(left), opt_entry_view(right)).0,
            newer: classify_spec(opt_entry_view(left), opt_entry_view(right)).1,
        }),
{
    let (status, newer) = match (&left, &right) {
        (Some(_), None) => (DiffStatus::LeftOnly, None),
        (None, Some(_)) => (DiffStatus::RightOnly, None),
        (Some(l), Some(r)) => {
            let ld = is_dir(l);
            let rd = is_dir(r);
            if ld != rd {
                (DiffStatus::KindMismatch, None)
            } else if ld {
                (DiffStatus::Same, None)
            } else {
                let newer = newer_of(l, r);
                if l.size == r.size {
                    // Sizes match. Without both timestamps this is a guess, and
                    // it guesses "same": a false "differs" would nag forever over
                    // files no tool ever changed the bytes of.
                    match (l.modified, r.modified) {
                        (Some(a), Some(b)) => if a != b {
                            (DiffStatus::Differs, newer)
                        } else {
                            (DiffStatus::Same, None)
                        },
                        _ => (DiffStatus::Same, None),
                    }
                } else {
                    (DiffStatus::Differs, newer)
                }
            }
        },
        (None, None) => (DiffStatus::Same, None),
    };
    DiffEntry { rel_path, left, right, status, newer }
}

pub open spec fn entry_views(s: Seq<Entry>) -> Seq<EntryV> {
    s.map_values(|e: Entry| e@)
}

/// The first entry of `s` called `name`.
pub open spec fn first_named(s: Seq<EntryV>, name: Seq<char>) -> Option<EntryV>
    decreases s.len(),
{
    if s.len() == 0 {
        None
    } else if s[0].name == name {
        Some(s[0])
    } else {
        first_named(s.drop_first(), name)
    }
}

/// Whether some entry of `s` is called `name`.
pub open spec fn has_name(s: Seq<EntryV>, name: Seq<char>) -> bool {
    exists|i: int| 0 <= i < s.len() && #[trigger] s[i].name == name
}

proof fn lemma_first_named(s: Seq<EntryV>, name: Seq<char>)
    ensures
        first_named(s, name) is Some <==> has_name(s, name),
    decreases s.len(),
{
    if s.len() > 0 {
        lemma_first_named(s.drop_first(), name);
        if has_name(s.drop_first(), name) {
            let i = choose|i: int| 0 <= i < s.drop_first().len() && #[trigger] s.drop_first()[i].name == name;
            assert(s[i + 1].name == name);
        }
        if has_name(s, name) && s[0].name != name {
            let i = choose|i: int| 0 <= i < s.len() && #[trigger] s[i].name == name;
            assert(s.drop_first()[i - 1].name == name);
        }
    }
}

proof fn lemma_has_name_take(s: Seq<EntryV>, k: int, n: Seq<char>)
    requires
        0 <= k < s.len(),
    ensures
        has_name(s.take(k + 1), n) <==> (has_name(s.take(k), n) || s[k].name == n),
{
    if has_name(s.take(k + 1), n) {
        let q = choose|q: int| 0 <= q < s.take(k + 1).len() && #[trigger] s.take(k + 1)[q].name == n;
        if q < k {
            assert(s.take(k)[q].name == n);
        }
    }
    if has_name(s.take(k), n) {
        let q = choose|q: int| 0 <= q < s.take(k).len() && #[trigger] s.take(k)[q].name == n;
        assert(s.take(k + 1)[q].name == n);
    }
    if s[k].name == n {
        assert(s.take(k + 1)[k].name == n);
    }
}

proof fn lemma_has_name_take_all(s: Seq<EntryV>, k: int)
    requires
        0 <= k < s.len(),
    ensures
        forall|n: Seq<char>| has_name(s.take(k + 1), n) <==> (has_name(s.take(k), n) || s[k].name == n),
{
    assert forall|n: Seq<char>| has_name(s.take(k + 1), n) <==> (has_name(s.take(k), n) || s[k].name == n) by {
        lemma_has_name_take(s, k, n);
    }
}

/// A copy of the first entry of `s` called `name`.
fn find_named(s: &[Entry], name: &str) -> (r: Option<Entry>)
    ensures
        opt_entry_view(r) == first_named(entry_views(s@), name@),
{
    let mut i: usize = 0;
    assert(entry_views(s@).skip(0) =~= entry_views(s@));
    while i < s.len()
        invariant
            i <= s@.len(),
            first_named(entry_views(s@), name@) == first_named(entry_views(s@).skip(i as int), name@),
        decreases s@.len() - i,
    {
        assert(entry_views(s@).skip(i as int)[0] == s@[i as int]@);
        if str_eq(s[i].name.as_str(), name) {
            return Some(s[i].clone());
        }
        assert(entry_views(s@).skip(i as int).drop_first() =~= entry_views(s@).skip(i + 1));
        i += 1;
    }
    None
}

/// Whether `names` is in strictly increasing natural order.
pub open spec fn strictly_sorted(names: Seq<Seq<char>>) -> bool {
    forall|i: int| 0 <= i < names.len() - 1 ==> natural_order(#[trigger] names[i], names[i + 1]) < 0
}

/// The names of both listings, each once, in natural order.
pub open spec fn pair_names_ok(names: Seq<Seq<char>>, left: Seq<EntryV>, right: Seq<EntryV>) -> bool {
    &&& strictly_sorted(names)
    &&& forall|i: int, j: int| 0 <= i < j < names.len() ==> names[i] != names[j]
    &&& forall|n: Seq<char>| names.contains(n) <==> (has_name(left, n) || has_name(right, n))
}

/// The entry of the comparison for `name`, below `parent`.
pub open spec fn pair_entry(parent: Seq<Seq<char>>, name: Seq<char>, left: Seq<EntryV>, right: Seq<EntryV>) -> DiffEntryV {
    let l = first_named(left, name);
    let r = first_named(right, name);
    DiffEntryV {
        rel_path: parent.push(name),
        left: l,
        right: r,
        status: classify_spec(l, r).0,
        newer: classify_spec(l, r).1,
    }
}

pub open spec fn diff_views(s: Seq<DiffEntry>) -> Seq<DiffEntryV> {
    s.map_values(|d: DiffEntry| d@)
}

/// Whether `name` is one of `names`.
fn contains_name(names: &Vec<String>, name: &str) -> (r: bool)
    ensures
        r == strings(names@).contains(name@),
{
    let mut i: usize = 0;
    while i < names.len()
        invariant
            i <= names@.len(),
            forall|k: int| 0 <= k < i ==> #[trigger] strings(names@)[k] != name@,
        decreases names@.len() - i,
    {
        if str_eq(names[i].as_str(), name) {
            assert(strings(names@)[i as int] == name@);
            return true;
        }
        i += 1;
    }
    false
}

/// Adds `name` to a list in strictly increasing natural order, unless it is there.
fn insert_name(names: &mut Vec<String>, name: &str)
    requires
        strictly_sorted(strings(old(names)@)),
        forall|i: int, j: int| 0 <= i < j < old(names)@.len() ==> strings(old(names)@)[i] != strings(old(names)@)[j],
    ensures
        strictly_sorted(strings(final(names)@)),
        forall|i: int, j: int| 0 <= i < j < final(names)@.len() ==> strings(final(names)@)[i] != strings(final(names)@)[j],
        forall|n: Seq<char>| strings(final(names)@).contains(n) <==> (strings(old(names)@).contains(n) || n == name@),
{
    let ghost before = strings(names@);
    if contains_name(names, name) {
        return;
    }
    let mut k = names.len();
    while k > 0 && natural_order_str(names[k - 1].as_str(), name) > 0
        invariant
            before == strings(names@),
            k <= names@.len(),
            k < names@.len() ==> natural_order(before[k as int], name@) > 0,
        decreases k,
    {
        k -= 1;
    }
    proof {
        if k > 0 {
            lemma_natural_order(before[k - 1], name@);
            assert(before[k - 1] != name@);
        }
        if k < names@.len() {
            lemma_natural_order(before[k as int], name@);
        }
    }
    let s = name.to_owned();
    names.insert(k, s);
    proof {
        assert(strings(names@) =~= before.insert(k as int, name@));
        lemma_insert_sorted(before, k as int, name@);
    }
}

#[verifier::spinoff_prover]
#[verifier::rlimit(40)]
proof fn lemma_insert_sorted(before: Seq<Seq<char>>, k: int, name: Seq<char>)
    requires
        strictly_sorted(before),
        forall|i: int, j: int| 0 <= i < j < before.len() ==> before[i] != before[j],
        !before.contains(name),
        0 <= k <= before.len(),
        k > 0 ==> natural_order(before[k - 1], name) < 0,
        k < before.len() ==> natural_order(name, before[k]) < 0,
    ensures
        strictly_sorted(before.insert(k, name)),
        forall|i: int, j: int| 0 <= i < j < before.len() + 1 ==> before.insert(k, name)[i] != before.insert(k, name)[j],
        forall|n: Seq<char>| before.insert(k, name).contains(n) <==> (before.contains(n) || n == name),
{
    let after = before.insert(k, name);
    assert forall|n: Seq<char>| after.contains(n) <==> (before.contains(n) || n == name) by {
        if after.contains(n) {
            let j = choose|j: int| 0 <= j < after.len() && after[j] == n;
            if j < k {
                assert(before[j] == n);
            } else if j > k {
                assert(before[j - 1] == n);
            }
        }
        if before.contains(n) {
            let j = choose|j: int| 0 <= j < before.len() && before[j] == n;
            if j < k {
                assert(after[j] == n);
            } else {
                assert(after[j + 1] == n);
            }
        }
        if n == name {
            assert(after[k] == n);
        }
    }
    assert forall|i: int, j: int| 0 <= i < j < after.len() implies after[i] != after[j] by {
        if i == k {
            assert(after[j] == before[j - 1]);
        } else if j == k {
            assert(after[i] == before[i]);
        } else {
            let bi = if i < k { i } else { i - 1 };
            let bj = if j < k { j } else { j - 1 };
            assert(after[i] == before[bi] && after[j] == before[bj]);
        }
    }
    assert forall|i: int| 0 <= i < after.len() - 1 implies natural_order(#[trigger] after[i], after[i + 1]) < 0 by {
        if i < k - 1 {
            assert(after[i] == before[i] && after[i + 1] == before[i + 1]);
        } else if i == k - 1 {
        } else if i == k {
        } else {
            assert(after[i] == before[i - 1] && after[i + 1] == before[i]);
        }
    }
}

/// Pairs up two folders' entries by name and classifies each pair.
///
/// `parent` is the path to this pair's folder, empty at the top. The result is
/// in the same natural order the panels use, with each name once.
pub fn compare_level(parent: &[String], left: &[Entry], right: &[Entry]) -> (r: Vec<DiffEntry>)
    ensures
        pair_names_ok(
            diff_views(r@).map_values(|d: DiffEntryV| d.rel_path.last()),
            entry_views(left@),
            entry_views(right@),
        ),
        forall|i: int|
            0 <= i < r@.len() ==> #[trigger] diff_views(r@)[i] == pair_entry(
                strings(parent@),
                diff_views(r@)[i].rel_path.last(),
                entry_views(left@),
                entry_views(right@),
            ),
{
    let ghost lv = entry_views(left@);
    let ghost rv = entry_views(right@);
    let mut names: Vec<String> = Vec::new();
    let mut i: usize = 0;
    while i < left.len()
        invariant
            lv == entry_views(left@),
            i <= left@.len(),
            strictly_sorted(strings(names@)),
            forall|a: int, b: int| 0 <= a < b < names@.len() ==> strings(names@)[a] != strings(names@)[b],
            forall|n: Seq<char>| #[trigger] strings(names@).contains(n) <==> has_name(lv.take(i as int), n),
        decreases left@.len() - i,
    {
        proof {
            lemma_has_name_take_all(lv, i as int);
            assert(lv[i as int].name == left@[i as int].name@);
        }
        insert_name(&mut names, left[i].name.as_str());
        i += 1;
    }
    let mut j: usize = 0;
    proof {
        assert(lv.take(left@.len() as int) =~= lv);
        assert forall|n: Seq<char>| !has_name(rv.take(0), n) by {}
    }
    while j < right.len()
        invariant
            lv == entry_views(left@),
            rv == entry_views(right@),
            j <= right@.len(),
            strictly_sorted(strings(names@)),
            forall|a: int, b: int| 0 <= a < b < names@.len() ==> strings(names@)[a] != strings(names@)[b],
            forall|n: Seq<char>| #[trigger] strings(names@).contains(n) <==> (has_name(lv, n) || has_name(rv.take(j as int), n)),
        decreases right@.len() - j,
    {
        proof {
            lemma_has_name_take_all(rv, j as int);
            assert(rv[j as int].name == right@[j as int].name@);
        }
        let ghost old_names = strings(names@);
        insert_name(&mut names, right[j].name.as_str());
        j += 1;
        proof {
            assert forall|n: Seq<char>| strings(names@).contains(n) <==> (has_name(lv, n) || has_name(rv.take(j as int), n)) by {
                assert(strings(names@).contains(n) <==> (old_names.contains(n) || n == rv[j - 1].name));
                assert(old_names.contains(n) <==> (has_name(lv, n) || has_name(rv.take(j - 1), n)));
                assert(has_name(rv.take(j as int), n) <==> (has_name(rv.take(j - 1), n) || rv[j - 1].name == n));
            }
        }
    }
    proof {
        assert(rv.take(right@.len() as int) =~= rv);
        assert(lv.take(left@.len() as int) =~= lv);
    }
    let ghost all = strings(names@);
    let mut out: Vec<DiffEntry> = Vec::new();
    let mut k: usize = 0;
    while k < names.len()
        invariant
            lv == entry_views(left@),
            rv == entry_views(right@),
            all == strings(names@),
            pair_names_ok(all, lv, rv),
            k <= names@.len(),
            out@.len() == k,
            forall|q: int| 0 <= q < k ==> #[trigger] diff_views(out@)[q] == pair_entry(strings(parent@), all[q], lv, rv),
        decreases names@.len() - k,
    {
        let name = names[k].as_str();
        let on_left = find_named(left, name);
        let on_right = find_named(right, name);
        let mut rel_path: Vec<String> = Vec::new();
        let mut q: usize = 0;
        while q < parent.len()
            invariant
                q <= parent@.len(),
                strings(rel_path@) == strings(parent@).take(q as int),
            decreases parent@.len() - q,
        {
            let ghost before = strings(rel_path@);
            rel_path.push(parent[q].clone());
            q += 1;
            assert(strings(rel_path@) =~= before.push(parent@[q - 1]@));
            assert(strings(rel_path@) =~= strings(parent@).take(q as int));
        }
        assert(strings(parent@).take(parent@.len() as int) =~= strings(parent@));
        rel_path.push(name.to_owned());
        assert(strings(rel_path@) =~= strings(parent@).push(all[k as int]));
        let d = classify(rel_path, on_left, on_right);
        let ghost before = diff_views(out@);
        out.push(d);
        proof {
            assert(diff_views(out@) =~= before.push(d@));
        }
        k += 1;
    }
    proof {
        let shown = diff_views(out@).map_values(|d: DiffEntryV| d.rel_path.last());
        assert(shown =~= all);
    }
    out
}

} // verus!
