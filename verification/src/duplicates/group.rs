//! Turning a flat list of files into groups that share a size.
//!
//! Nothing here touches a disk or hashes anything. Grouping by size first is
//! what makes finding duplicates in a big tree affordable at all: hashing
//! reads a file in full, but two files can only possibly be duplicates if
//! they're the same size, and most files in a folder aren't. This module is
//! the cheap first pass; only the files a group here says are worth it get hashed.
use vstd::prelude::*;

use crate::entry::{Entry, EntryV};
use crate::sort::entry_views;

verus! {

/// Which group, if any, holds files of `size`.
pub open spec fn size_group_of(g: Seq<(u64, Seq<EntryV>)>, size: u64) -> Option<int>
    decreases g.len(),
{
    if g.len() == 0 {
        None
    } else if g.last().0 == size {
        Some(g.len() - 1)
    } else {
        size_group_of(g.drop_last(), size)
    }
}

/// All files grouped by size: groups in the order their first member comes,
/// members in the order they come.
pub open spec fn all_size_groups(s: Seq<EntryV>) -> Seq<(u64, Seq<EntryV>)>
    decreases s.len(),
{
    if s.len() == 0 {
        Seq::empty()
    } else {
        let g = all_size_groups(s.drop_last());
        let e = s.last();
        match size_group_of(g, e.size) {
            Some(k) => g.update(k, (g[k].0, g[k].1.push(e))),
            None => g.push((e.size, seq![e])),
        }
    }
}

/// The groups of two or more, in order.
pub open spec fn shared(g: Seq<(u64, Seq<EntryV>)>) -> Seq<Seq<EntryV>>
    decreases g.len(),
{
    if g.len() == 0 {
        Seq::empty()
    } else {
        let rest = shared(g.drop_last());
        if g.last().1.len() >= 2 {
            rest.push(g.last().1)
        } else {
            rest
        }
    }
}

/// Files grouped by size, keeping only sizes shared by two or more files.
pub open spec fn size_groups(s: Seq<EntryV>) -> Seq<Seq<EntryV>> {
    shared(all_size_groups(s))
}

pub open spec fn group_views(v: Seq<Vec<Entry>>) -> Seq<Seq<EntryV>> {
    v.map_values(|g: Vec<Entry>| entry_views(g@))
}

/// A copy of a list of entries.
pub fn clone_entries(v: &Vec<Entry>) -> (r: Vec<Entry>)
    ensures
        entry_views(r@) == entry_views(v@),
{
    let mut r: Vec<Entry> = Vec::new();
    let mut i: usize = 0;
    while i < v.len()
        invariant
            i <= v@.len(),
            entry_views(r@) == entry_views(v@).take(i as int),
        decreases v@.len() - i,
    {
        let ghost before = entry_views(r@);
        r.push(v[i].clone());
        i += 1;
        assert(entry_views(r@) =~= before.push(v@[i - 1]@));
        assert(entry_views(r@) =~= entry_views(v@).take(i as int));
    }
    assert(entry_views(v@).take(v@.len() as int) =~= entry_views(v@));
    r
}

/// Files from the walk, grouped by size. Only sizes shared by two or more
/// files are kept — a size nothing else matches can't be a duplicate of
/// anything, so there's nothing to report and nothing worth hashing.
///
/// Order is preserved within each group (first found, first listed), and
/// groups come out in the order their first member was found, so the result
/// doesn't depend on how a hash map happened to iterate.
pub fn group_by_size(entries: Vec<Entry>) -> (r: Vec<Vec<Entry>>)
    ensures
        group_views(r@) == size_groups(entry_views(entries@)),
{
    let ghost all = entry_views(entries@);
    let mut sizes: Vec<u64> = Vec::new();
    let mut groups: Vec<Vec<Entry>> = Vec::new();
    let mut i: usize = 0;
    assert(all.take(0) =~= Seq::<EntryV>::empty());
    while i < entries.len()
        invariant
            all == entry_views(entries@),
            i <= entries@.len(),
            sizes@.len() == groups@.len(),
            all_size_groups(all.take(i as int)) == Seq::new(
                sizes@.len(),
                |k: int| (sizes@[k], entry_views(groups@[k]@)),
            ),
        decreases entries@.len() - i,
    {
        let ghost g = all_size_groups(all.take(i as int));
        let ghost t = all.take(i + 1);
        proof {
            assert(t.drop_last() =~= all.take(i as int));
            assert(t.last() == entries@[i as int]@);
        }
        let size = entries[i].size;
        let mut k = sizes.len();
        assert(g.take(k as int) =~= g);
        while k > 0 && sizes[k - 1] != size
            invariant
                k <= sizes@.len(),
                sizes@.len() == groups@.len(),
                g == Seq::new(sizes@.len(), |q: int| (sizes@[q], entry_views(groups@[q]@))),
                size_group_of(g, size) == size_group_of(g.take(k as int), size),
            decreases k,
        {
            assert(g.take(k as int).drop_last() =~= g.take(k - 1));
            k -= 1;
        }
        let e = entries[i].clone();
        if k > 0 {
            proof {
                assert(g.take(k as int).last() == g[k - 1]);
            }
            let mut group = groups.remove(k - 1);
            let ghost before = entry_views(group@);
            group.push(e);
            groups.insert(k - 1, group);
            proof {
                assert(entry_views(groups@[k - 1]@) =~= before.push(e@));
                assert(all_size_groups(t) =~= Seq::new(
                    sizes@.len(),
                    |q: int| (sizes@[q], entry_views(groups@[q]@)),
                ));
            }
        } else {
            proof {
                assert(size_group_of(g, size) == size_group_of(g.take(0), size));
            }
            sizes.push(size);
            let one = vec![e];
            groups.push(one);
            proof {
                assert(entry_views(one@) =~= seq![e@]);
                assert(all_size_groups(t) =~= Seq::new(
                    sizes@.len(),
                    |q: int| (sizes@[q], entry_views(groups@[q]@)),
                ));
            }
        }
        i += 1;
    }
    assert(all.take(entries@.len() as int) =~= all);
    let ghost g = all_size_groups(all);
    let mut out: Vec<Vec<Entry>> = Vec::new();
    let mut j: usize = 0;
    assert(g.take(0) =~= Seq::<(u64, Seq<EntryV>)>::empty());
    while j < groups.len()
        invariant
            j <= groups@.len(),
            sizes@.len() == groups@.len(),
            g == Seq::new(sizes@.len(), |q: int| (sizes@[q], entry_views(groups@[q]@))),
            group_views(out@) == shared(g.take(j as int)),
        decreases groups@.len() - j,
    {
        let ghost t = g.take(j + 1);
        proof {
            assert(t.drop_last() =~= g.take(j as int));
            assert(t.last() == g[j as int]);
        }
        if groups[j].len() >= 2 {
            let ghost before = group_views(out@);
            let copy = clone_entries(&groups[j]);
            out.push(copy);
            proof {
                assert(group_views(out@) =~= before.push(entry_views(groups@[j as int]@)));
            }
        }
        j += 1;
    }
    assert(g.take(sizes@.len() as int) =~= g);
    out
}

} // verus!

verus! {

proof fn lemma_size_group_of(g: Seq<(u64, Seq<EntryV>)>, size: u64)
    ensures
        size_group_of(g, size) matches Some(k) ==> 0 <= k < g.len() && g[k].0 == size,
    decreases g.len(),
{
    if g.len() > 0 {
        lemma_size_group_of(g.drop_last(), size);
    }
}

/// Each group holds at least one file, and only files of its size.
pub open spec fn groups_hold_their_size(g: Seq<(u64, Seq<EntryV>)>) -> bool {
    forall|k: int|
        0 <= k < g.len() ==> (#[trigger] g[k]).1.len() >= 1 && forall|j: int|
            0 <= j < g[k].1.len() ==> (#[trigger] g[k].1[j]).size == g[k].0
}

proof fn lemma_all_size_groups(s: Seq<EntryV>)
    ensures
        groups_hold_their_size(all_size_groups(s)),
    decreases s.len(),
{
    if s.len() > 0 {
        let g = all_size_groups(s.drop_last());
        let e = s.last();
        lemma_all_size_groups(s.drop_last());
        lemma_size_group_of(g, e.size);
        let h = all_size_groups(s);
        match size_group_of(g, e.size) {
            Some(k) => {
                assert forall|q: int| 0 <= q < h.len() implies (#[trigger] h[q]).1.len() >= 1 && forall|j: int|
                    0 <= j < h[q].1.len() ==> (#[trigger] h[q].1[j]).size == h[q].0 by {
                    if q == k {
                        assert forall|j: int| 0 <= j < h[q].1.len() implies (#[trigger] h[q].1[j]).size == h[q].0 by {
                            if j < g[k].1.len() {
                                assert(h[q].1[j] == g[k].1[j]);
                            }
                        }
                    } else {
                        assert(h[q] == g[q]);
                    }
                }
            },
            None => {
                assert forall|q: int| 0 <= q < h.len() implies (#[trigger] h[q]).1.len() >= 1 && forall|j: int|
                    0 <= j < h[q].1.len() ==> (#[trigger] h[q].1[j]).size == h[q].0 by {
                    if q < g.len() {
                        assert(h[q] == g[q]);
                    }
                }
            },
        }
    }
}

proof fn lemma_shared(g: Seq<(u64, Seq<EntryV>)>)
    requires
        groups_hold_their_size(g),
    ensures
        forall|i: int|
            0 <= i < shared(g).len() ==> (#[trigger] shared(g)[i]).len() >= 2 && forall|j: int|
                0 <= j < shared(g)[i].len() ==> (#[trigger] shared(g)[i][j]).size == shared(g)[i][0].size,
    decreases g.len(),
{
    if g.len() > 0 {
        let init = g.drop_last();
        assert forall|k: int| 0 <= k < init.len() implies (#[trigger] init[k]).1.len() >= 1 && forall|j: int|
            0 <= j < init[k].1.len() ==> (#[trigger] init[k].1[j]).size == init[k].0 by {
            assert(init[k] == g[k]);
        }
        lemma_shared(init);
        let last = g[g.len() - 1];
        assert(last.1.len() >= 1);
        assert forall|j: int| 0 <= j < last.1.len() implies (#[trigger] last.1[j]).size == last.1[0].size by {
            assert(last.1[j].size == last.0);
            assert(last.1[0].size == last.0);
        }
    }
}

/// Every group holds two files or more, all of one size.
pub proof fn lemma_groups_share_a_size(s: Seq<EntryV>)
    ensures
        forall|i: int|
            0 <= i < size_groups(s).len() ==> (#[trigger] size_groups(s)[i]).len() >= 2 && forall|j: int|
                0 <= j < size_groups(s)[i].len() ==> (#[trigger] size_groups(s)[i][j]).size
                    == size_groups(s)[i][0].size,
{
    lemma_all_size_groups(s);
    lemma_shared(all_size_groups(s));
}

} // verus!
