//! Turning a list of differences into jobs the job engine can run.
//!
//! Nothing here touches a disk either. Every destination this computes
//! already exists as a folder: a [`DiffEntry`] is only ever produced for a
//! name whose *parent* folder was found on both sides (the comparison stops
//! recursing exactly at the level where one side is missing a folder, and
//! reports that folder itself as one entry rather than opening it). So
//! syncing is always "copy this one thing into that already-there folder" —
//! precisely what [`JobSpec::Copy`] does on its own.
use vstd::prelude::*;

use crate::compare::diff::{DiffEntry, DiffEntryV, DiffStatus, Side};
use crate::error::{Error, Result};
use crate::jobs::{path_views, JobSpec, JobSpecV};
use crate::text::strings;
use crate::vpath::{lemma_join_starts_with, same_path, spec_join, spec_starts_with, valid_name, BaseV, PathV, VPath};

verus! {

/// Which way to bring the two sides together.
#[derive(Debug, Clone, Copy, PartialEq, Eq, Structural)]
pub enum SyncDirection {
    /// Copy the left version of anything that differs, or exists only on the
    /// left, onto the right. Never touches anything that's right-only.
    LeftToRight,
    /// The same, the other way round.
    RightToLeft,
    /// For each difference, copy whichever side is newer. A left-only or
    /// right-only entry is copied across, since there's nothing to compare
    /// it to. A difference where neither side is known to be newer (a
    /// missing timestamp, or a tie) is left alone — guessing wrong here
    /// would overwrite the file someone actually meant to keep.
    Newer,
}

/// One file or folder to copy, and where it's going.
#[derive(Debug, Clone, PartialEq, Eq)]
pub struct SyncAction {
    pub from: VPath,
    /// An existing folder; `from`'s own name is preserved inside it.
    pub dest_dir: VPath,
}

/// Which side to copy an entry from, or `None` if this direction leaves it alone.
pub open spec fn source_side_spec(e: DiffEntryV, direction: SyncDirection) -> Option<Side> {
    match e.status {
        DiffStatus::LeftOnly => match direction {
            SyncDirection::RightToLeft => None,
            _ => Some(Side::Left),
        },
        DiffStatus::RightOnly => match direction {
            SyncDirection::LeftToRight => None,
            _ => Some(Side::Right),
        },
        DiffStatus::Differs => match direction {
            SyncDirection::LeftToRight => Some(Side::Left),
            SyncDirection::RightToLeft => Some(Side::Right),
            SyncDirection::Newer => e.newer,
        },
        _ => None,
    }
}

/// `base` with each of `parts` joined on, or `None` when one is not a valid name.
pub open spec fn join_all_spec(base: PathV, parts: Seq<Seq<char>>) -> Option<PathV>
    decreases parts.len(),
{
    if parts.len() == 0 {
        Some(base)
    } else {
        match join_all_spec(base, parts.drop_last()) {
            Some(p) => if valid_name(parts.last()) {
                Some(spec_join(p, parts.last()))
            } else {
                None
            },
            None => None,
        }
    }
}

/// An entry whose chosen side is there to copy from, at a path below the roots.
pub open spec fn plannable(e: DiffEntryV, direction: SyncDirection) -> bool {
    match source_side_spec(e, direction) {
        Some(Side::Left) => e.left is Some && e.rel_path.len() >= 1,
        Some(Side::Right) => e.right is Some && e.rel_path.len() >= 1,
        None => true,
    }
}

/// What syncing one entry means: `None` to leave it alone, `Some(None)` when its
/// destination can't be named, else the (source, destination folder) to copy.
pub open spec fn action_spec(e: DiffEntryV, direction: SyncDirection, left_root: PathV, right_root: PathV)
    -> Option<Option<(PathV, PathV)>> {
    match source_side_spec(e, direction) {
        None => None,
        Some(side) => {
            let from = match side {
                Side::Left => e.left.unwrap().path,
                Side::Right => e.right.unwrap().path,
            };
            let dest_root = match side {
                Side::Left => right_root,
                Side::Right => left_root,
            };
            match join_all_spec(dest_root, e.rel_path.drop_last()) {
                Some(d) => Some(Some((from, d))),
                None => Some(None),
            }
        },
    }
}

/// The actions for all `entries` in order, or `None` if a destination can't be named.
pub open spec fn plan_spec(entries: Seq<DiffEntryV>, direction: SyncDirection, left_root: PathV, right_root: PathV)
    -> Option<Seq<(PathV, PathV)>>
    decreases entries.len(),
{
    if entries.len() == 0 {
        Some(Seq::empty())
    } else {
        match plan_spec(entries.drop_last(), direction, left_root, right_root) {
            None => None,
            Some(done) => match action_spec(entries.last(), direction, left_root, right_root) {
                None => Some(done),
                Some(None) => None,
                Some(Some(a)) => Some(done.push(a)),
            },
        }
    }
}

pub open spec fn action_views(v: Seq<SyncAction>) -> Seq<(PathV, PathV)> {
    v.map_values(|a: SyncAction| (a.from@, a.dest_dir@))
}

pub open spec fn diff_views(s: Seq<DiffEntry>) -> Seq<DiffEntryV> {
    s.map_values(|d: DiffEntry| d@)
}

/// Which side to copy `entry` from, or `None` if this direction leaves it alone.
fn source_side(entry: &DiffEntry, direction: SyncDirection) -> (r: Option<Side>)
    ensures
        r == source_side_spec(entry@, direction),
{
    if !entry.status.is_syncable() {
        return None;
    }
    match entry.status {
        DiffStatus::LeftOnly => match direction {
            SyncDirection::RightToLeft => None,
            _ => Some(Side::Left),
        },
        DiffStatus::RightOnly => match direction {
            SyncDirection::LeftToRight => None,
            _ => Some(Side::Right),
        },
        DiffStatus::Differs => match direction {
            SyncDirection::LeftToRight => Some(Side::Left),
            SyncDirection::RightToLeft => Some(Side::Right),
            SyncDirection::Newer => entry.newer,
        },
        _ => None,
    }
}

/// Whether `entry` can be planned in `direction`: the side it would be copied
/// from is there, below the roots.
pub fn is_plannable(entry: &DiffEntry, direction: SyncDirection) -> (r: bool)
    ensures
        r == plannable(entry@, direction),
{
    match source_side(entry, direction) {
        Some(Side::Left) => entry.left.is_some() && entry.rel_path.len() >= 1,
        Some(Side::Right) => entry.right.is_some() && entry.rel_path.len() >= 1,
        None => true,
    }
}

/// `base` with the first `n` of `parts` joined on.
fn join_all(base: &VPath, parts: &Vec<String>, n: usize) -> (r: Result<VPath>)
    requires
        n <= parts@.len(),
    ensures
        r is Ok <==> join_all_spec(base@, strings(parts@).take(n as int)) is Some,
        r matches Ok(p) ==> Some(p@) == join_all_spec(base@, strings(parts@).take(n as int)),
        r matches Err(e) ==> e is InvalidPath,
{
    let mut out = base.clone();
    let mut i: usize = 0;
    assert(strings(parts@).take(0) =~= Seq::<Seq<char>>::empty());
    while i < n
        invariant
            n <= parts@.len(),
            i <= n,
            join_all_spec(base@, strings(parts@).take(i as int)) == Some(out@),
        decreases n - i,
    {
        let ghost t = strings(parts@).take(i + 1);
        assert(t.drop_last() =~= strings(parts@).take(i as int));
        assert(t.last() == parts@[i as int]@);
        match out.join(parts[i].as_str()) {
            Ok(p) => {
                out = p;
            },
            Err(e) => {
                proof {
                    lemma_join_all_none(base@, strings(parts@), i as int + 1, n as int);
                }
                return Err(e);
            },
        }
        i += 1;
    }
    Ok(out)
}

proof fn lemma_join_all_none(base: PathV, parts: Seq<Seq<char>>, i: int, n: int)
    requires
        0 <= i <= n <= parts.len(),
        join_all_spec(base, parts.take(i)) is None,
    ensures
        join_all_spec(base, parts.take(n)) is None,
    decreases n - i,
{
    if i < n {
        assert(parts.take(i + 1).drop_last() =~= parts.take(i));
        lemma_join_all_none(base, parts, i + 1, n);
    }
}

proof fn lemma_plan_none(entries: Seq<DiffEntryV>, direction: SyncDirection, l: PathV, r: PathV, i: int)
    requires
        0 <= i <= entries.len(),
        plan_spec(entries.take(i), direction, l, r) is None,
    ensures
        plan_spec(entries, direction, l, r) is None,
    decreases entries.len() - i,
{
    if i < entries.len() {
        assert(entries.take(i + 1).drop_last() =~= entries.take(i));
        lemma_plan_none(entries, direction, l, r, i + 1);
    } else {
        assert(entries.take(i) =~= entries);
    }
}

/// Works out what to copy, and which way, for every entry that direction
/// applies to. Entries this direction has nothing to do — already the same,
/// a kind mismatch, or on the side this direction doesn't touch — are left
/// out rather than explained; the list itself is complete.
pub fn plan_sync(entries: &[DiffEntry], direction: SyncDirection, left_root: &VPath, right_root: &VPath)
    -> (r: Result<Vec<SyncAction>>)
    requires
        forall|i: int| 0 <= i < entries@.len() ==> plannable(#[trigger] entries@[i]@, direction),
    ensures
        r is Ok <==> plan_spec(diff_views(entries@), direction, left_root@, right_root@) is Some,
        r matches Ok(v) ==> Some(action_views(v@)) == plan_spec(diff_views(entries@), direction, left_root@, right_root@),
        r matches Err(e) ==> e is InvalidPath,
{
    let ghost all = diff_views(entries@);
    let mut actions: Vec<SyncAction> = Vec::new();
    let mut i: usize = 0;
    assert(all.take(0) =~= Seq::<DiffEntryV>::empty());
    while i < entries.len()
        invariant
            all == diff_views(entries@),
            i <= entries@.len(),
            forall|q: int| 0 <= q < entries@.len() ==> plannable(#[trigger] entries@[q]@, direction),
            plan_spec(all.take(i as int), direction, left_root@, right_root@) == Some(action_views(actions@)),
        decreases entries@.len() - i,
    {
        let entry = &entries[i];
        let ghost t = all.take(i + 1);
        proof {
            assert(t.drop_last() =~= all.take(i as int));
            assert(t.last() == entry@);
            assert(plannable(entries@[i as int]@, direction));
        }
        let side = match source_side(entry, direction) {
            Some(side) => side,
            None => {
                i += 1;
                continue;
            },
        };
        let from = match side {
            Side::Left => match &entry.left {
                Some(e) => e.path.clone(),
                None => {
                    i += 1;
                    continue;
                },
            },
            Side::Right => match &entry.right {
                Some(e) => e.path.clone(),
                None => {
                    i += 1;
                    continue;
                },
            },
        };
        let dest_root = match side {
            Side::Left => right_root,
            Side::Right => left_root,
        };
        let k = entry.rel_path.len() - 1;
        proof {
            assert(strings(entry.rel_path@).take(k as int) =~= strings(entry.rel_path@).drop_last());
        }
        let dest_dir = match join_all(dest_root, &entry.rel_path, k) {
            Ok(d) => d,
            Err(e) => {
                proof {
                    lemma_plan_none(all, direction, left_root@, right_root@, i + 1);
                }
                return Err(e);
            },
        };
        let ghost before = action_views(actions@);
        actions.push(SyncAction { from, dest_dir });
        assert(action_views(actions@) =~= before.push((from@, dest_dir@)));
        i += 1;
    }
    assert(all.take(entries@.len() as int) =~= all);
    Ok(actions)
}

/// The actions grouped by destination folder, in the order each folder first
/// appears, with the sources of each in order.
pub open spec fn groups_spec(actions: Seq<(PathV, PathV)>) -> Seq<(PathV, Seq<PathV>)>
    decreases actions.len(),
{
    if actions.len() == 0 {
        Seq::empty()
    } else {
        let g = groups_spec(actions.drop_last());
        let a = actions.last();
        match group_of(g, a.1) {
            Some(k) => g.update(k, (g[k].0, g[k].1.push(a.0))),
            None => g.push((a.1, seq![a.0])),
        }
    }
}

/// Which group, if any, goes to `dest`.
pub open spec fn group_of(g: Seq<(PathV, Seq<PathV>)>, dest: PathV) -> Option<int>
    decreases g.len(),
{
    if g.len() == 0 {
        None
    } else if g.last().0 == dest {
        Some(g.len() - 1)
    } else {
        group_of(g.drop_last(), dest)
    }
}

pub open spec fn job_views(v: Seq<JobSpec>) -> Seq<JobSpecV> {
    v.map_values(|j: JobSpec| j@)
}

proof fn lemma_group_of(g: Seq<(PathV, Seq<PathV>)>, dest: PathV)
    ensures
        group_of(g, dest) matches Some(k) ==> 0 <= k < g.len() && g[k].0 == dest,
        group_of(g, dest) is None ==> forall|k: int| 0 <= k < g.len() ==> g[k].0 != dest,
    decreases g.len(),
{
    if g.len() > 0 {
        lemma_group_of(g.drop_last(), dest);
        assert forall|k: int| 0 <= k < g.len() - 1 implies g[k] == g.drop_last()[k] by {}
    }
}

proof fn lemma_group_of_same_keys(g: Seq<(PathV, Seq<PathV>)>, g2: Seq<(PathV, Seq<PathV>)>, d: PathV)
    requires
        g.len() == g2.len(),
        forall|k: int| 0 <= k < g.len() ==> #[trigger] g[k].0 == g2[k].0,
    ensures
        group_of(g, d) == group_of(g2, d),
    decreases g.len(),
{
    if g.len() > 0 {
        assert forall|k: int| 0 <= k < g.len() - 1 implies #[trigger] g.drop_last()[k].0 == g2.drop_last()[k].0 by {
            assert(g[k].0 == g2[k].0);
        }
        lemma_group_of_same_keys(g.drop_last(), g2.drop_last(), d);
    }
}

/// What grouping by destination keeps track of: one group per destination
/// folder, every action's source in the group of its destination, and nothing
/// in a group that no action put there.
pub open spec fn groups_exact(actions: Seq<(PathV, PathV)>, g: Seq<(PathV, Seq<PathV>)>) -> bool {
    &&& forall|k1: int, k2: int| 0 <= k1 < k2 < g.len() ==> #[trigger] g[k1].0 != #[trigger] g[k2].0
    &&& forall|a: int|
        0 <= a < actions.len() ==> (group_of(g, (#[trigger] actions[a]).1) matches Some(k) && g[k].1.contains(
            actions[a].0,
        ))
    &&& forall|k: int, j: int| 0 <= k < g.len() && 0 <= j < g[k].1.len() ==> actions.contains((#[trigger] g[k].1[j], g[k].0))
}

proof fn lemma_groups_exact(actions: Seq<(PathV, PathV)>)
    ensures
        groups_exact(actions, groups_spec(actions)),
    decreases actions.len(),
{
    if actions.len() > 0 {
        let d = actions.drop_last();
        let g = groups_spec(d);
        let x = actions.last();
        let g2 = groups_spec(actions);
        lemma_groups_exact(d);
        lemma_group_of(g, x.1);
        assert(actions[actions.len() - 1] == x);
        assert forall|a: int| 0 <= a < d.len() implies #[trigger] d[a] == actions[a] by {}
        assert forall|k: int, j: int| 0 <= k < g2.len() && 0 <= j < g2[k].1.len() implies actions.contains(
            (#[trigger] g2[k].1[j], g2[k].0),
        ) by {
            if k < g.len() && j < g[k].1.len() {
                assert(g2[k].0 == g[k].0 && g2[k].1[j] == g[k].1[j]);
                assert(d.contains((g[k].1[j], g[k].0)));
                let m = choose|m: int| 0 <= m < d.len() && d[m] == (g[k].1[j], g[k].0);
                assert(actions[m] == d[m]);
            } else {
                assert((g2[k].1[j], g2[k].0) == x);
            }
        }
        match group_of(g, x.1) {
            Some(k0) => {
                assert forall|k: int| 0 <= k < g.len() implies #[trigger] g[k].0 == g2[k].0 by {}
                assert forall|dd: PathV| group_of(g2, dd) == group_of(g, dd) by {
                    lemma_group_of_same_keys(g, g2, dd);
                }
                assert forall|k1: int, k2: int| 0 <= k1 < k2 < g2.len() implies #[trigger] g2[k1].0
                    != #[trigger] g2[k2].0 by {
                    assert(g[k1].0 != g[k2].0);
                }
                assert forall|a: int| 0 <= a < actions.len() implies (group_of(g2, (#[trigger] actions[a]).1) matches Some(
                    k,
                ) && g2[k].1.contains(actions[a].0)) by {
                    if a == actions.len() - 1 {
                        assert(g2[k0].1[g[k0].1.len() as int] == x.0);
                    } else {
                        assert(d[a] == actions[a]);
                        let k = group_of(g, d[a].1)->0;
                        lemma_group_of(g, d[a].1);
                        let j = choose|j: int| 0 <= j < g[k].1.len() && g[k].1[j] == d[a].0;
                        assert(g2[k].1[j] == d[a].0);
                    }
                }
            },
            None => {
                assert(g2.drop_last() =~= g);
                assert forall|dd: PathV| dd != x.1 implies group_of(g2, dd) == group_of(g, dd) by {}
                assert(group_of(g2, x.1) == Some(g.len() as int));
                assert forall|k1: int, k2: int| 0 <= k1 < k2 < g2.len() implies #[trigger] g2[k1].0
                    != #[trigger] g2[k2].0 by {
                    if k2 < g.len() {
                        assert(g[k1].0 != g[k2].0);
                    } else {
                        assert(g[k1].0 != x.1);
                    }
                }
                assert forall|a: int| 0 <= a < actions.len() implies (group_of(g2, (#[trigger] actions[a]).1) matches Some(
                    k,
                ) && g2[k].1.contains(actions[a].0)) by {
                    if a == actions.len() - 1 {
                        assert(g2[g.len() as int].1[0] == x.0);
                    } else {
                        assert(d[a] == actions[a]);
                        let k = group_of(g, d[a].1)->0;
                        lemma_group_of(g, d[a].1);
                        assert(d[a].1 != x.1);
                        let j = choose|j: int| 0 <= j < g[k].1.len() && g[k].1[j] == d[a].0;
                        assert(g2[k].1[j] == d[a].0);
                    }
                }
            },
        }
    }
}

/// The jobs of a sync are as few as they can be and lose nothing: no two go to
/// the same folder, each action's source is copied by the job for its
/// destination, and a job copies nothing that no action asked for.
pub proof fn lemma_one_job_per_destination(actions: Seq<(PathV, PathV)>)
    ensures
        forall|k1: int, k2: int|
            0 <= k1 < k2 < groups_spec(actions).len() ==> #[trigger] groups_spec(actions)[k1].0
                != #[trigger] groups_spec(actions)[k2].0,
        forall|a: int|
            0 <= a < actions.len() ==> exists|k: int|
                0 <= k < groups_spec(actions).len() && (#[trigger] groups_spec(actions)[k]).0 == (
                #[trigger] actions[a]).1 && groups_spec(actions)[k].1.contains(actions[a].0),
        forall|k: int, j: int|
            0 <= k < groups_spec(actions).len() && 0 <= j < groups_spec(actions)[k].1.len() ==> actions.contains(
                (#[trigger] groups_spec(actions)[k].1[j], groups_spec(actions)[k].0),
            ),
{
    let g = groups_spec(actions);
    lemma_groups_exact(actions);
    assert forall|a: int| 0 <= a < actions.len() implies exists|k: int|
        0 <= k < g.len() && (#[trigger] g[k]).0 == (#[trigger] actions[a]).1 && g[k].1.contains(actions[a].0) by {
        let k = group_of(g, actions[a].1)->0;
        lemma_group_of(g, actions[a].1);
        assert(g[k].0 == actions[a].1);
    }
}

/// Groups the actions into as few jobs as possible: everything landing in the
/// same destination folder becomes one [`JobSpec::Copy`], since that's exactly
/// what "several sources, one destination folder" already means to it. Jobs come
/// out in the order their first action appeared.
pub fn sync_jobs(actions: &[SyncAction]) -> (r: Vec<JobSpec>)
    ensures
        job_views(r@) == groups_spec(action_views(actions@)).map_values(
            |g: (PathV, Seq<PathV>)| JobSpecV::Copy { sources: g.1, dest: g.0 },
        ),
{
    let ghost all = action_views(actions@);
    let mut dests: Vec<VPath> = Vec::new();
    let mut sources: Vec<Vec<VPath>> = Vec::new();
    let mut i: usize = 0;
    assert(all.take(0) =~= Seq::<(PathV, PathV)>::empty());
    while i < actions.len()
        invariant
            all == action_views(actions@),
            i <= actions@.len(),
            dests@.len() == sources@.len(),
            groups_spec(all.take(i as int)) == Seq::new(
                dests@.len(),
                |k: int| (dests@[k]@, path_views(sources@[k]@)),
            ),
        decreases actions@.len() - i,
    {
        let action = &actions[i];
        let ghost g = groups_spec(all.take(i as int));
        let ghost t = all.take(i + 1);
        proof {
            assert(t.drop_last() =~= all.take(i as int));
            assert(t.last() == (action.from@, action.dest_dir@));
        }
        // The last group going to this folder: groups never share a folder.
        let mut k = dests.len();
        assert(g.take(k as int) =~= g);
        while k > 0 && !same_path(&dests[k - 1], &action.dest_dir)
            invariant
                k <= dests@.len(),
                dests@.len() == sources@.len(),
                g == Seq::new(dests@.len(), |q: int| (dests@[q]@, path_views(sources@[q]@))),
                group_of(g, action.dest_dir@) == group_of(g.take(k as int), action.dest_dir@),
            decreases k,
        {
            assert(g.take(k as int).drop_last() =~= g.take(k - 1));
            k -= 1;
        }
        proof {
            if k == dests@.len() {
                assert(g.take(k as int) =~= g);
            }
        }
        if k > 0 {
            proof {
                assert(g.take(k as int).last() == g[k - 1]);
                assert(group_of(g, action.dest_dir@) == Some(k - 1));
            }
            let mut group = sources.remove(k - 1);
            let ghost before = path_views(group@);
            group.push(action.from.clone());
            sources.insert(k - 1, group);
            proof {
                assert(path_views(sources@[k - 1]@) =~= before.push(action.from@));
                assert(groups_spec(t) =~= Seq::new(
                    dests@.len(),
                    |q: int| (dests@[q]@, path_views(sources@[q]@)),
                ));
            }
        } else {
            proof {
                assert(group_of(g, action.dest_dir@) == group_of(g.take(0), action.dest_dir@));
            }
            dests.push(action.dest_dir.clone());
            let one = vec![action.from.clone()];
            sources.push(one);
            proof {
                assert(path_views(one@) =~= seq![action.from@]);
                assert(groups_spec(t) =~= Seq::new(
                    dests@.len(),
                    |q: int| (dests@[q]@, path_views(sources@[q]@)),
                ));
            }
        }
        i += 1;
    }
    assert(all.take(actions@.len() as int) =~= all);
    let ghost g = groups_spec(all);
    let mut jobs: Vec<JobSpec> = Vec::new();
    let mut q: usize = 0;
    while q < dests.len()
        invariant
            q <= dests@.len(),
            dests@.len() == sources@.len(),
            g == Seq::new(dests@.len(), |k: int| (dests@[k]@, path_views(sources@[k]@))),
            job_views(jobs@) == g.take(q as int).map_values(
                |x: (PathV, Seq<PathV>)| JobSpecV::Copy { sources: x.1, dest: x.0 },
            ),
        decreases dests@.len() - q,
    {
        let job = JobSpec::Copy { sources: clone_paths(&sources[q]), dest: dests[q].clone() };
        let ghost before = job_views(jobs@);
        jobs.push(job);
        q += 1;
        proof {
            assert(job_views(jobs@) =~= before.push(job@));
            assert(job_views(jobs@) =~= g.take(q as int).map_values(
                |x: (PathV, Seq<PathV>)| JobSpecV::Copy { sources: x.1, dest: x.0 },
            ));
        }
    }
    assert(g.take(dests@.len() as int) =~= g);
    jobs
}

/// A copy of a list of paths.
fn clone_paths(v: &Vec<VPath>) -> (r: Vec<VPath>)
    ensures
        path_views(r@) == path_views(v@),
{
    let mut r: Vec<VPath> = Vec::new();
    let mut i: usize = 0;
    while i < v.len()
        invariant
            i <= v@.len(),
            path_views(r@) == path_views(v@).take(i as int),
        decreases v@.len() - i,
    {
        let ghost before = path_views(r@);
        r.push(v[i].clone());
        i += 1;
        assert(path_views(r@) =~= before.push(v@[i - 1]@));
        assert(path_views(r@) =~= path_views(v@).take(i as int));
    }
    assert(path_views(v@).take(v@.len() as int) =~= path_views(v@));
    r
}

} // verus!

verus! {

// ---------------------------------------------------------------------------------------------
// Where a sync reads and writes
// ---------------------------------------------------------------------------------------------

/// A child of a path inside `root` is inside `root` too.
proof fn lemma_join_stays_inside(p: PathV, root: PathV, name: Seq<char>)
    requires
        spec_starts_with(p, root),
    ensures
        spec_starts_with(spec_join(p, name), root),
{
    let c = spec_join(p, name);
    let n = root.layers.len();
    if p.layers.len() > 0 {
        let last = p.layers.len() - 1;
        let l = p.layers.last();
        assert(c.layers.len() == p.layers.len());
        if n > 0 {
            assert(c.layers.take(n - 1) =~= p.layers.take(n - 1));
            if n - 1 == last {
                let theirs = root.layers[n - 1];
                assert(l.parts.push(name).take(theirs.parts.len() as int) =~= l.parts.take(theirs.parts.len() as int));
            } else {
                assert(c.layers[n - 1] == p.layers[n - 1]);
            }
        }
    } else {
        match (p.base, root.base) {
            (BaseV::Local(x), BaseV::Local(y)) => {
                assert(x.push(name).take(y.len() as int) =~= x.take(y.len() as int));
            },
            (BaseV::Remote(_, _, x), BaseV::Remote(_, _, y)) => {
                assert(x.push(name).take(y.len() as int) =~= x.take(y.len() as int));
            },
            _ => {},
        }
    }
}

/// Joining names onto `root` never leaves it.
proof fn lemma_join_all_inside(root: PathV, parts: Seq<Seq<char>>)
    ensures
        join_all_spec(root, parts) matches Some(d) ==> spec_starts_with(d, root),
    decreases parts.len(),
{
    if parts.len() == 0 {
        lemma_join_starts_with(root, Seq::empty());
    } else {
        lemma_join_all_inside(root, parts.drop_last());
        if let Some(p) = join_all_spec(root, parts.drop_last()) {
            lemma_join_stays_inside(p, root, parts.last());
        }
    }
}

/// The path an entry has on `side`.
pub open spec fn side_path(e: DiffEntryV, side: Side) -> PathV {
    match side {
        Side::Left => e.left.unwrap().path,
        Side::Right => e.right.unwrap().path,
    }
}

/// The root of the side `side` is copied to.
pub open spec fn other_root(side: Side, left_root: PathV, right_root: PathV) -> PathV {
    match side {
        Side::Left => right_root,
        Side::Right => left_root,
    }
}

/// Whether the action (source, destination folder) copies entry `e` the way
/// `direction` says: from the side it picks, into the other side's tree.
pub open spec fn copies_across(
    e: DiffEntryV,
    direction: SyncDirection,
    action: (PathV, PathV),
    left_root: PathV,
    right_root: PathV,
) -> bool {
    &&& source_side_spec(e, direction) matches Some(side)
    &&& action.0 == side_path(e, side)
    &&& spec_starts_with(action.1, other_root(side, left_root, right_root))
}

/// Whether `action` copies one of `entries` across, as `direction` says.
pub open spec fn copied_from_some(
    entries: Seq<DiffEntryV>,
    direction: SyncDirection,
    action: (PathV, PathV),
    left_root: PathV,
    right_root: PathV,
) -> bool {
    exists|i: int| 0 <= i < entries.len() && #[trigger] copies_across(entries[i], direction, action, left_root, right_root)
}

/// Every action of a sync copies one of the entries from the side its direction
/// picks into a folder of the other side's tree: a left-to-right sync reads only
/// the left and writes only below the right root, never touching what is only on
/// the right, and the other way round.
pub proof fn lemma_sync_copies_across(
    entries: Seq<DiffEntryV>,
    direction: SyncDirection,
    left_root: PathV,
    right_root: PathV,
)
    ensures
        plan_spec(entries, direction, left_root, right_root) matches Some(actions) ==> forall|k: int|
            0 <= k < actions.len() ==> #[trigger] copied_from_some(entries, direction, actions[k], left_root, right_root),
    decreases entries.len(),
{
    if entries.len() == 0 {
        assert(plan_spec(entries, direction, left_root, right_root) == Some(Seq::<(PathV, PathV)>::empty()));
    } else {
        let init = entries.drop_last();
        lemma_sync_copies_across(init, direction, left_root, right_root);
        if let Some(actions) = plan_spec(entries, direction, left_root, right_root) {
            let done = plan_spec(init, direction, left_root, right_root).unwrap();
            let e = entries.last();
            assert forall|k: int| 0 <= k < actions.len() implies #[trigger] copied_from_some(entries, direction, actions[k], left_root, right_root)
            by {
                if k < done.len() {
                    assert(actions[k] == done[k]);
                    assert(copied_from_some(init, direction, done[k], left_root, right_root));
                    let i = choose|i: int|
                        0 <= i < init.len() && #[trigger] copies_across(init[i], direction, done[k], left_root, right_root);
                    assert(init[i] == entries[i]);
                    assert(copies_across(entries[i], direction, actions[k], left_root, right_root));
                } else {
                    let side = source_side_spec(e, direction).unwrap();
                    let dest_root = other_root(side, left_root, right_root);
                    lemma_join_all_inside(dest_root, e.rel_path.drop_last());
                    assert(entries[entries.len() - 1] == e);
                    assert(copies_across(entries[entries.len() - 1], direction, actions[k], left_root, right_root));
                }
            }
        }
    }
}

} // verus!
