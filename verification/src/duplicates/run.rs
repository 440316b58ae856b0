//! Walking a folder tree, grouping by size, then confirming with a hash: what
//! is looked for, what is reported, and the decisions taken on the way.
use vstd::prelude::*;

use crate::compare::hash::same_hash;
use crate::duplicates::group::clone_entries;
use crate::entry::{Entry, EntryKind, EntryV};
use crate::search::masks::{matches_spec, Masks, MasksV};
use crate::sort::entry_views;
use crate::vpath::VPath;

verus! {

#[derive(Debug, Clone, PartialEq, Eq)]
pub struct DuplicateSpec {
    pub root: VPath,
    pub masks: Masks,
    pub include_hidden: bool,
    /// Files smaller than this can't usefully be told apart from each
    /// other; a folder full of empty files would otherwise all "duplicate"
    /// one another and drown out anything worth seeing. Default: 1 byte,
    /// which excludes only genuinely empty files.
    pub min_size: u64,
}

impl DuplicateSpec {
    /// The usual search below `root`: every name, no hidden files, no empty files.
    pub fn with_root(root: VPath) -> (r: DuplicateSpec)
        ensures
            r.root@ == root@,
            r.masks@ == crate::search::masks::parse_spec(Seq::empty()),
            !r.include_hidden,
            r.min_size == 1,
    {
        proof {
            reveal_strlit("");
        }
        DuplicateSpec { root, masks: Masks::parse(""), include_hidden: false, min_size: 1 }
    }
}

/// Files with the same size and the same contents. `hash` is their BLAKE3 hash.
#[derive(Debug, Clone, PartialEq)]
pub struct DuplicateGroup {
    pub size: u64,
    pub hash: [u8; 32],
    pub files: Vec<Entry>,
}

#[derive(Debug)]
pub enum DuplicateEvent {
    Found(Box<DuplicateGroup>),
    Finished(DuplicateReport),
}

#[derive(Debug, Clone, Copy, PartialEq, Eq, Structural)]
pub struct DuplicateReport {
    pub groups: u64,
    /// Copies that could be removed, keeping one of each group: the sum of
    /// each group's size minus one.
    pub extra_files: u64,
    pub scanned: u64,
    pub unreadable: u64,
    pub cancelled: bool,
}

/// What the walk does with one entry.
#[derive(Debug, Clone, Copy, PartialEq, Eq, Structural)]
pub enum ScanStep {
    /// Hidden and not asked for: not even counted.
    Unseen,
    /// A folder: go into it.
    Descend,
    /// Counted, but nothing to compare: a link, a special file, too small, or a
    /// name the masks leave out.
    Pass,
    /// A file worth comparing.
    Candidate,
}

pub open spec fn scan_step_spec(masks: MasksV, include_hidden: bool, min_size: u64, e: EntryV) -> ScanStep {
    if e.hidden && !include_hidden {
        ScanStep::Unseen
    } else if e.kind == EntryKind::Dir {
        ScanStep::Descend
    } else if e.kind != EntryKind::File {
        ScanStep::Pass
    } else if e.size >= min_size && matches_spec(masks, e.name) {
        ScanStep::Candidate
    } else {
        ScanStep::Pass
    }
}

/// Decides what the walk does with `entry`: every file under the root that
/// matches the masks, isn't hidden unless asked for, and meets the minimum size
/// is worth comparing.
pub fn scan_step(spec: &DuplicateSpec, entry: &Entry) -> (r: ScanStep)
    ensures
        r == scan_step_spec(spec.masks@, spec.include_hidden, spec.min_size, entry@),
{
    if entry.hidden && !spec.include_hidden {
        return ScanStep::Unseen;
    }
    match entry.kind {
        EntryKind::Dir => ScanStep::Descend,
        EntryKind::File => if entry.size >= spec.min_size && spec.masks.matches(entry.name.as_str()) {
            ScanStep::Candidate
        } else {
            ScanStep::Pass
        },
        _ => ScanStep::Pass,
    }
}

/// What the duplicate finder compares, from the entry and the search alone:
/// exactly the visible plain files that are at least the minimum size and whose
/// names the masks take. It goes into visible real folders only, and a hidden
/// entry it wasn't asked to see is not even counted.
pub proof fn lemma_what_is_compared(masks: MasksV, include_hidden: bool, min_size: u64, e: EntryV)
    ensures
        ({
            let step = scan_step_spec(masks, include_hidden, min_size, e);
            let visible = !e.hidden || include_hidden;
            &&& (step == ScanStep::Candidate) == (visible && e.kind == EntryKind::File && e.size >= min_size
                && matches_spec(masks, e.name))
            &&& (step == ScanStep::Descend) == (visible && e.kind == EntryKind::Dir)
            &&& (step == ScanStep::Unseen) == !visible
        }),
{
}

/// Which group, if any, has hash `h`.
pub open spec fn hash_group_of(g: Seq<(Seq<u8>, Seq<EntryV>)>, h: Seq<u8>) -> Option<int>
    decreases g.len(),
{
    if g.len() == 0 {
        None
    } else if g.last().0 == h {
        Some(g.len() - 1)
    } else {
        hash_group_of(g.drop_last(), h)
    }
}

/// Hashed files grouped by hash: groups in the order their first member comes,
/// members in the order they come.
pub open spec fn hash_groups(s: Seq<(Seq<u8>, EntryV)>) -> Seq<(Seq<u8>, Seq<EntryV>)>
    decreases s.len(),
{
    if s.len() == 0 {
        Seq::empty()
    } else {
        let g = hash_groups(s.drop_last());
        let x = s.last();
        match hash_group_of(g, x.0) {
            Some(k) => g.update(k, (g[k].0, g[k].1.push(x.1))),
            None => g.push((x.0, seq![x.1])),
        }
    }
}

/// The groups of two or more.
pub open spec fn real_groups(g: Seq<(Seq<u8>, Seq<EntryV>)>) -> Seq<(Seq<u8>, Seq<EntryV>)> {
    g.filter(|x: (Seq<u8>, Seq<EntryV>)| x.1.len() >= 2)
}

pub open spec fn hashed_views(s: Seq<([u8; 32], Entry)>) -> Seq<(Seq<u8>, EntryV)> {
    s.map_values(|x: ([u8; 32], Entry)| (x.0@, x.1@))
}

pub open spec fn dup_views(s: Seq<DuplicateGroup>) -> Seq<(Seq<u8>, Seq<EntryV>)> {
    s.map_values(|d: DuplicateGroup| (d.hash@, entry_views(d.files@)))
}

/// Every file in each group of `g` was hashed, in `s`, to that group's hash.
pub open spec fn members_share_hash(s: Seq<(Seq<u8>, EntryV)>, g: Seq<(Seq<u8>, Seq<EntryV>)>) -> bool {
    forall|i: int, j: int| 0 <= i < g.len() && 0 <= j < g[i].1.len() ==> s.contains((g[i].0, #[trigger] g[i].1[j]))
}

proof fn lemma_hash_group_of(g: Seq<(Seq<u8>, Seq<EntryV>)>, h: Seq<u8>)
    ensures
        hash_group_of(g, h) matches Some(k) ==> 0 <= k < g.len() && g[k].0 == h,
    decreases g.len(),
{
    if g.len() > 0 && g.last().0 != h {
        lemma_hash_group_of(g.drop_last(), h);
    }
}

proof fn lemma_hash_groups_sound(s: Seq<(Seq<u8>, EntryV)>)
    ensures
        members_share_hash(s, hash_groups(s)),
    decreases s.len(),
{
    if s.len() > 0 {
        let d = s.drop_last();
        let g = hash_groups(d);
        let x = s.last();
        let g2 = hash_groups(s);
        lemma_hash_groups_sound(d);
        lemma_hash_group_of(g, x.0);
        assert(s.contains(x)) by {
            assert(s[s.len() - 1] == x);
        }
        assert forall|i: int, j: int| 0 <= i < g2.len() && 0 <= j < g2[i].1.len() implies s.contains(
            (g2[i].0, #[trigger] g2[i].1[j]),
        ) by {
            let old_member = i < g.len() && j < g[i].1.len();
            if old_member {
                assert(g2[i].0 == g[i].0 && g2[i].1[j] == g[i].1[j]);
                assert(d.contains((g[i].0, g[i].1[j])));
                let m = choose|m: int| 0 <= m < d.len() && d[m] == (g[i].0, g[i].1[j]);
                assert(s[m] == d[m]);
            } else {
                assert((g2[i].0, g2[i].1[j]) == x);
            }
        }
    }
}

/// Only files whose contents hashed the same are shown together, and each group
/// shown holds two files or more: a pair of files that merely share a size is
/// never reported as duplicates.
pub proof fn lemma_groups_share_a_hash(s: Seq<(Seq<u8>, EntryV)>)
    ensures
        forall|i: int|
            0 <= i < real_groups(hash_groups(s)).len() ==> #[trigger] real_groups(hash_groups(s))[i].1.len() >= 2,
        members_share_hash(s, real_groups(hash_groups(s))),
{
    let g = hash_groups(s);
    let pred = |x: (Seq<u8>, Seq<EntryV>)| x.1.len() >= 2;
    let r = real_groups(g);
    lemma_hash_groups_sound(s);
    assert forall|i: int| 0 <= i < r.len() implies #[trigger] r[i].1.len() >= 2 by {
        g.lemma_filter_pred(pred, i);
    }
    assert forall|i: int, j: int| 0 <= i < r.len() && 0 <= j < r[i].1.len() implies s.contains(
        (r[i].0, #[trigger] r[i].1[j]),
    ) by {
        assert(r.contains(r[i]));
        g.lemma_filter_contains_rev(pred, r[i]);
        let m = choose|m: int| 0 <= m < g.len() && g[m] == r[i];
        assert(g[m].1[j] == r[i].1[j]);
    }
}

/// How many of the files in `s` hashed to `h`.
pub open spec fn hash_count(s: Seq<(Seq<u8>, EntryV)>, h: Seq<u8>) -> nat
    decreases s.len(),
{
    if s.len() == 0 {
        0
    } else {
        hash_count(s.drop_last(), h) + if s.last().0 == h {
            1nat
        } else {
            0nat
        }
    }
}

proof fn lemma_count_one(s: Seq<(Seq<u8>, EntryV)>, a: int)
    requires
        0 <= a < s.len(),
    ensures
        hash_count(s, s[a].0) >= 1,
    decreases s.len(),
{
    if a < s.len() - 1 {
        assert(s.drop_last()[a] == s[a]);
        lemma_count_one(s.drop_last(), a);
    }
}

proof fn lemma_count_two(s: Seq<(Seq<u8>, EntryV)>, a: int, b: int)
    requires
        0 <= a < b < s.len(),
        s[a].0 == s[b].0,
    ensures
        hash_count(s, s[a].0) >= 2,
    decreases s.len(),
{
    assert(s.drop_last()[a] == s[a]);
    if b == s.len() - 1 {
        lemma_count_one(s.drop_last(), a);
    } else {
        assert(s.drop_last()[b] == s[b]);
        lemma_count_two(s.drop_last(), a, b);
    }
}

/// What grouping by hash keeps track of: one group per hash, each as large as the
/// number of files with that hash, and every file in the group of its hash.
pub open spec fn groups_complete(s: Seq<(Seq<u8>, EntryV)>, g: Seq<(Seq<u8>, Seq<EntryV>)>) -> bool {
    &&& forall|k1: int, k2: int| 0 <= k1 < k2 < g.len() ==> #[trigger] g[k1].0 != #[trigger] g[k2].0
    &&& forall|k: int| 0 <= k < g.len() ==> (#[trigger] g[k]).1.len() == hash_count(s, g[k].0)
    &&& forall|h: Seq<u8>| #[trigger] hash_group_of(g, h) is None ==> hash_count(s, h) == 0
    &&& forall|a: int|
        0 <= a < s.len() ==> (hash_group_of(g, #[trigger] s[a].0) matches Some(k) && g[k].1.contains(s[a].1))
}

proof fn lemma_hash_group_of_none(g: Seq<(Seq<u8>, Seq<EntryV>)>, h: Seq<u8>)
    ensures
        hash_group_of(g, h) is None ==> forall|k: int| 0 <= k < g.len() ==> #[trigger] g[k].0 != h,
    decreases g.len(),
{
    if g.len() > 0 && hash_group_of(g, h) is None {
        lemma_hash_group_of_none(g.drop_last(), h);
        assert forall|k: int| 0 <= k < g.len() implies #[trigger] g[k].0 != h by {
            if k < g.len() - 1 {
                assert(g.drop_last()[k] == g[k]);
            }
        }
    }
}

proof fn lemma_hash_group_of_same_keys(g: Seq<(Seq<u8>, Seq<EntryV>)>, g2: Seq<(Seq<u8>, Seq<EntryV>)>, h: Seq<u8>)
    requires
        g.len() == g2.len(),
        forall|k: int| 0 <= k < g.len() ==> #[trigger] g[k].0 == g2[k].0,
    ensures
        hash_group_of(g, h) == hash_group_of(g2, h),
    decreases g.len(),
{
    if g.len() > 0 {
        assert forall|k: int| 0 <= k < g.len() - 1 implies #[trigger] g.drop_last()[k].0 == g2.drop_last()[k].0 by {
            assert(g[k].0 == g2[k].0);
        }
        lemma_hash_group_of_same_keys(g.drop_last(), g2.drop_last(), h);
    }
}

proof fn lemma_hash_groups_complete(s: Seq<(Seq<u8>, EntryV)>)
    ensures
        groups_complete(s, hash_groups(s)),
    decreases s.len(),
{
    if s.len() > 0 {
        let d = s.drop_last();
        let g = hash_groups(d);
        let x = s.last();
        let g2 = hash_groups(s);
        lemma_hash_groups_complete(d);
        lemma_hash_group_of(g, x.0);
        lemma_hash_group_of_none(g, x.0);
        assert forall|a: int| 0 <= a < d.len() implies #[trigger] d[a] == s[a] by {}
        match hash_group_of(g, x.0) {
            Some(k0) => {
                assert forall|k: int| 0 <= k < g.len() implies #[trigger] g[k].0 == g2[k].0 by {}
                assert forall|h: Seq<u8>| hash_group_of(g2, h) == hash_group_of(g, h) by {
                    lemma_hash_group_of_same_keys(g, g2, h);
                }
                assert forall|k1: int, k2: int| 0 <= k1 < k2 < g2.len() implies #[trigger] g2[k1].0
                    != #[trigger] g2[k2].0 by {
                    assert(g[k1].0 != g[k2].0);
                }
                assert forall|k: int| 0 <= k < g2.len() implies (#[trigger] g2[k]).1.len() == hash_count(s, g2[k].0) by {
                    if k != k0 {
                        assert(g[k].0 != g[k0].0 || k == k0);
                        assert(g[k].1.len() == hash_count(d, g[k].0));
                    } else {
                        assert(g[k0].1.len() == hash_count(d, g[k0].0));
                    }
                }
                assert forall|h: Seq<u8>| #[trigger] hash_group_of(g2, h) is None implies hash_count(s, h) == 0 by {
                    assert(hash_group_of(g, h) is None);
                }
                assert forall|a: int| 0 <= a < s.len() implies (hash_group_of(g2, #[trigger] s[a].0) matches Some(k)
                    && g2[k].1.contains(s[a].1)) by {
                    if a == s.len() - 1 {
                        assert(g2[k0].1[g[k0].1.len() as int] == x.1);
                    } else {
                        assert(d[a] == s[a]);
                        let k = hash_group_of(g, d[a].0)->0;
                        lemma_hash_group_of(g, d[a].0);
                        let j = choose|j: int| 0 <= j < g[k].1.len() && g[k].1[j] == d[a].1;
                        assert(g2[k].1[j] == d[a].1);
                    }
                }
            },
            None => {
                assert(g2.drop_last() =~= g);
                assert forall|h: Seq<u8>| h != x.0 implies hash_group_of(g2, h) == hash_group_of(g, h) by {}
                assert(hash_group_of(g2, x.0) == Some(g.len() as int));
                assert forall|k1: int, k2: int| 0 <= k1 < k2 < g2.len() implies #[trigger] g2[k1].0
                    != #[trigger] g2[k2].0 by {
                    if k2 < g.len() {
                        assert(g[k1].0 != g[k2].0);
                    } else {
                        assert(g[k1].0 != x.0);
                    }
                }
                assert forall|k: int| 0 <= k < g2.len() implies (#[trigger] g2[k]).1.len() == hash_count(s, g2[k].0) by {
                    if k < g.len() {
                        assert(g[k].0 != x.0);
                        assert(g[k].1.len() == hash_count(d, g[k].0));
                    }
                }
                assert forall|h: Seq<u8>| #[trigger] hash_group_of(g2, h) is None implies hash_count(s, h) == 0 by {
                    assert(h != x.0);
                    assert(hash_group_of(g, h) is None);
                }
                assert forall|a: int| 0 <= a < s.len() implies (hash_group_of(g2, #[trigger] s[a].0) matches Some(k)
                    && g2[k].1.contains(s[a].1)) by {
                    if a == s.len() - 1 {
                        assert(g2[g.len() as int].1[0] == x.1);
                    } else {
                        assert(d[a] == s[a]);
                        let k = hash_group_of(g, d[a].0)->0;
                        lemma_hash_group_of(g, d[a].0);
                        assert(d[a].0 != x.0);
                        let j = choose|j: int| 0 <= j < g[k].1.len() && g[k].1[j] == d[a].1;
                        assert(g2[k].1[j] == d[a].1);
                    }
                }
            },
        }
    }
}

/// Two files whose contents hashed the same are both reported, in one group.
pub proof fn lemma_equal_hashes_are_grouped(s: Seq<(Seq<u8>, EntryV)>, a: int, b: int)
    requires
        0 <= a < b < s.len(),
        s[a].0 == s[b].0,
    ensures
        exists|i: int|
            0 <= i < real_groups(hash_groups(s)).len() && (#[trigger] real_groups(hash_groups(s))[i]).0 == s[a].0
                && real_groups(hash_groups(s))[i].1.contains(s[a].1) && real_groups(hash_groups(s))[i].1.contains(
                s[b].1,
            ),
{
    let g = hash_groups(s);
    let pred = |x: (Seq<u8>, Seq<EntryV>)| x.1.len() >= 2;
    let r = real_groups(g);
    lemma_hash_groups_complete(s);
    lemma_count_two(s, a, b);
    let k = hash_group_of(g, s[a].0)->0;
    lemma_hash_group_of(g, s[a].0);
    assert(g[k].1.len() >= 2);
    g.lemma_filter_contains(pred, k);
    assert(r.contains(g[k]));
    let i = choose|i: int| 0 <= i < r.len() && r[i] == g[k];
    assert(r[i].0 == s[a].0);
}

/// Groups files of one size by the hash of their contents, keeping the groups of
/// two or more: those are the duplicates. Each group's size is that of its first
/// file.
pub fn group_by_hash(hashed: &Vec<([u8; 32], Entry)>) -> (r: Vec<DuplicateGroup>)
    ensures
        dup_views(r@) == real_groups(hash_groups(hashed_views(hashed@))),
        forall|i: int| 0 <= i < r@.len() ==> #[trigger] r@[i].size == r@[i].files@[0].size,
{
    let ghost all = hashed_views(hashed@);
    let mut hashes: Vec<[u8; 32]> = Vec::new();
    let mut groups: Vec<Vec<Entry>> = Vec::new();
    let mut i: usize = 0;
    assert(all.take(0) =~= Seq::<(Seq<u8>, EntryV)>::empty());
    while i < hashed.len()
        invariant
            all == hashed_views(hashed@),
            i <= hashed@.len(),
            hashes@.len() == groups@.len(),
            forall|q: int| 0 <= q < groups@.len() ==> #[trigger] groups@[q]@.len() >= 1,
            hash_groups(all.take(i as int)) == Seq::new(
                hashes@.len(),
                |k: int| (hashes@[k]@, entry_views(groups@[k]@)),
            ),
        decreases hashed@.len() - i,
    {
        let ghost g = hash_groups(all.take(i as int));
        let ghost t = all.take(i + 1);
        proof {
            assert(t.drop_last() =~= all.take(i as int));
            assert(t.last() == (hashed@[i as int].0@, hashed@[i as int].1@));
        }
        let h = &hashed[i].0;
        let mut k = hashes.len();
        assert(g.take(k as int) =~= g);
        while k > 0 && !same_hash(&hashes[k - 1], h)
            invariant
                k <= hashes@.len(),
                hashes@.len() == groups@.len(),
                g == Seq::new(hashes@.len(), |q: int| (hashes@[q]@, entry_views(groups@[q]@))),
                hash_group_of(g, h@) == hash_group_of(g.take(k as int), h@),
            decreases k,
        {
            assert(g.take(k as int).drop_last() =~= g.take(k - 1));
            k -= 1;
        }
        let e = hashed[i].1.clone();
        if k > 0 {
            proof {
                assert(g.take(k as int).last() == g[k - 1]);
            }
            let mut group = groups.remove(k - 1);
            let ghost before = entry_views(group@);
            group.push(e);
            groups.insert(k - 1, group);
            proof {
                assert(entry_views(groups@[k - 1]@) =~= before.push(e@));
                assert(hash_groups(t) =~= Seq::new(
                    hashes@.len(),
                    |q: int| (hashes@[q]@, entry_views(groups@[q]@)),
                ));
            }
        } else {
            proof {
                assert(hash_group_of(g, h@) == hash_group_of(g.take(0), h@));
            }
            hashes.push(*h);
            let one = vec![e];
            groups.push(one);
            proof {
                assert(entry_views(one@) =~= seq![e@]);
                assert(hash_groups(t) =~= Seq::new(
                    hashes@.len(),
                    |q: int| (hashes@[q]@, entry_views(groups@[q]@)),
                ));
            }
        }
        i += 1;
    }
    assert(all.take(hashed@.len() as int) =~= all);
    let ghost g = hash_groups(all);
    let mut out: Vec<DuplicateGroup> = Vec::new();
    let mut j: usize = 0;
    assert(g.take(0) =~= Seq::<(Seq<u8>, Seq<EntryV>)>::empty());
    while j < groups.len()
        invariant
            j <= groups@.len(),
            hashes@.len() == groups@.len(),
            forall|q: int| 0 <= q < groups@.len() ==> #[trigger] groups@[q]@.len() >= 1,
            g == Seq::new(hashes@.len(), |q: int| (hashes@[q]@, entry_views(groups@[q]@))),
            dup_views(out@) == real_groups(g.take(j as int)),
            forall|q: int| 0 <= q < out@.len() ==> #[trigger] out@[q].size == out@[q].files@[0].size,
        decreases groups@.len() - j,
    {
        let ghost t = g.take(j + 1);
        proof {
            assert(t =~= g.take(j as int).push(g[j as int]));
            g.take(j as int).lemma_filter_push(g[j as int], |x: (Seq<u8>, Seq<EntryV>)| x.1.len() >= 2);
        }
        if groups[j].len() >= 2 {
            let ghost before = dup_views(out@);
            let files = clone_entries(&groups[j]);
            let size = files[0].size;
            out.push(DuplicateGroup { size, hash: hashes[j], files });
            proof {
                assert(dup_views(out@) =~= before.push(g[j as int]));
            }
        }
        j += 1;
    }
    assert(g.take(groups@.len() as int) =~= g);
    out
}

/// Adds one group to the tallies.
pub fn tally(report: &mut DuplicateReport, group: &DuplicateGroup)
    requires
        group.files@.len() >= 1,
        old(report).groups < u64::MAX,
        old(report).extra_files + group.files@.len() - 1 <= u64::MAX,
    ensures
        final(report).groups == old(report).groups + 1,
        final(report).extra_files == old(report).extra_files + group.files@.len() - 1,
        final(report).scanned == old(report).scanned,
        final(report).unreadable == old(report).unreadable,
        final(report).cancelled == old(report).cancelled,
{
    report.groups = report.groups + 1;
    report.extra_files = report.extra_files + (group.files.len() as u64 - 1);
}

} // verus!
