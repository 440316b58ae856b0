//! Turning an archive's flat list of entries into something you can browse.
//!
//! Archives don't really have folders. A ZIP is a list of names like
//! `photos/2024/img.jpg`, and whether `photos/` and `photos/2024/` appear as
//! entries of their own is up to whichever program wrote the file. To show a
//! panel we need the opposite: the direct children of one folder. This module
//! does that conversion once per archive, and refuses the paths that would let
//! an archive write outside the folder you extract it into.
//!
//! Paths inside the archive are lists of names; the root is the empty list.
//! Times are nanoseconds since the Unix epoch.
use vstd::prelude::*;

use crate::text::{chars_of, split_chars, split_on, char_vecs, string_of, strings, strings_eq, clone_strings};

verus! {

/// One entry exactly as the archive stores it, before we make sense of it.
#[derive(Debug)]
pub struct RawEntry {
    /// The stored name, e.g. `photos/2024/img.jpg`, or `photos/` for a folder.
    pub name: String,
    pub size: u64,
    pub modified: Option<i128>,
    /// How the format reader finds this entry's data again.
    pub slot: usize,
}

/// One file or folder inside an archive.
#[derive(Debug, PartialEq, Eq)]
pub struct Node {
    pub name: String,
    pub is_dir: bool,
    pub size: u64,
    pub modified: Option<i128>,
    /// Where the data is. `None` for a folder that the archive never mentioned
    /// but that has to exist because something inside it does.
    pub slot: Option<usize>,
}

pub struct RawV {
    pub name: Seq<char>,
    pub size: u64,
    pub modified: Option<i128>,
    pub slot: usize,
}

pub struct NodeV {
    pub name: Seq<char>,
    pub is_dir: bool,
    pub size: u64,
    pub modified: Option<i128>,
    pub slot: Option<usize>,
}

impl View for RawEntry {
    type V = RawV;

    open spec fn view(&self) -> RawV {
        RawV { name: self.name@, size: self.size, modified: self.modified, slot: self.slot }
    }
}

impl View for Node {
    type V = NodeV;

    open spec fn view(&self) -> NodeV {
        NodeV { name: self.name@, is_dir: self.is_dir, size: self.size, modified: self.modified, slot: self.slot }
    }
}

impl Clone for Node {
    fn clone(&self) -> (r: Self)
        ensures
            r@ == self@,
    {
        Node { name: self.name.clone(), is_dir: self.is_dir, size: self.size, modified: self.modified, slot: self.slot }
    }
}

impl Clone for RawEntry {
    fn clone(&self) -> (r: Self)
        ensures
            r@ == self@,
    {
        RawEntry { name: self.name.clone(), size: self.size, modified: self.modified, slot: self.slot }
    }
}

/// A path inside the archive.
pub type Key = Seq<Seq<char>>;

// ---------------------------------------------------------------------------------------------
// Lists of (path, value), each path at most once
// ---------------------------------------------------------------------------------------------

/// Where `k` is in `s`.
pub open spec fn find_key<X>(s: Seq<(Key, X)>, k: Key) -> Option<int>
    decreases s.len(),
{
    if s.len() == 0 {
        None
    } else if s.last().0 == k {
        Some(s.len() - 1)
    } else {
        find_key(s.drop_last(), k)
    }
}

/// The value at `k`.
pub open spec fn lookup<X>(s: Seq<(Key, X)>, k: Key) -> Option<X> {
    match find_key(s, k) {
        Some(i) => Some(s[i].1),
        None => None,
    }
}

pub proof fn lemma_find_key<X>(s: Seq<(Key, X)>, k: Key)
    ensures
        find_key(s, k) matches Some(i) ==> 0 <= i < s.len() && s[i].0 == k,
        find_key(s, k) is None ==> forall|i: int| 0 <= i < s.len() ==> s[i].0 != k,
    decreases s.len(),
{
    if s.len() > 0 {
        lemma_find_key(s.drop_last(), k);
        assert forall|i: int| 0 <= i < s.len() - 1 implies s[i] == s.drop_last()[i] by {}
    }
}

// ---------------------------------------------------------------------------------------------
// Building, as mathematics
// ---------------------------------------------------------------------------------------------

/// What is known while building: every node by path, the paths of each folder's
/// children in the order they first appeared, and the names refused.
pub struct BuildV {
    pub nodes: Seq<(Key, NodeV)>,
    pub kids: Seq<(Key, Seq<Key>)>,
    pub refused: Seq<Seq<char>>,
}

/// Makes sure `k` has a (possibly empty) list of children.
pub open spec fn touch_kids(kids: Seq<(Key, Seq<Key>)>, k: Key) -> Seq<(Key, Seq<Key>)> {
    match find_key(kids, k) {
        Some(_) => kids,
        None => kids.push((k, Seq::empty())),
    }
}

/// Adds `child` to the children of `parent`.
pub open spec fn add_kid(kids: Seq<(Key, Seq<Key>)>, parent: Key, child: Key) -> Seq<(Key, Seq<Key>)> {
    match find_key(kids, parent) {
        Some(i) => kids.update(i, (parent, kids[i].1.push(child))),
        None => kids.push((parent, seq![child])),
    }
}

/// Puts `node` at `parts`. A file never replaces a folder: the folder's contents
/// would become unreachable, and you can't open a file as one anyway.
pub open spec fn put_spec(b: BuildV, parts: Key, node: NodeV) -> BuildV {
    match find_key(b.nodes, parts) {
        Some(i) => if b.nodes[i].1.is_dir && !node.is_dir {
            b
        } else {
            BuildV {
                nodes: b.nodes.update(i, (parts, node)),
                kids: if node.is_dir {
                    touch_kids(b.kids, parts)
                } else {
                    b.kids
                },
                ..b
            }
        },
        None => {
            let kids1 = add_kid(b.kids, parts.drop_last(), parts);
            BuildV {
                nodes: b.nodes.push((parts, node)),
                kids: if node.is_dir {
                    touch_kids(kids1, parts)
                } else {
                    kids1
                },
                ..b
            }
        },
    }
}

/// A folder that only exists because something inside it does.
pub open spec fn invented(parts: Key) -> NodeV {
    NodeV { name: parts.last(), is_dir: true, size: 0, modified: None, slot: None }
}

/// Makes sure every folder above `parts`, from depth `depth` down, exists,
/// inventing the ones the archive never mentioned. A file found where a folder
/// has to be is replaced by one: the archive contradicts itself, and keeping the
/// folder keeps its contents reachable.
pub open spec fn ancestors_spec(b: BuildV, parts: Key, depth: int) -> BuildV
    decreases parts.len() - depth,
{
    if depth < 1 || depth >= parts.len() {
        b
    } else {
        ancestors_spec(ancestor_step(b, parts, depth), parts, depth + 1)
    }
}

/// Makes sure the folder at depth `depth` above `parts` exists.
pub open spec fn ancestor_step(b: BuildV, parts: Key, depth: int) -> BuildV {
    let branch = parts.take(depth);
    match find_key(b.nodes, branch) {
        Some(i) => if b.nodes[i].1.is_dir {
            b
        } else {
            BuildV { nodes: b.nodes.update(i, (branch, invented(branch))), kids: touch_kids(b.kids, branch), ..b }
        },
        None => put_spec(b, branch, invented(branch)),
    }
}

pub open spec fn dot_dot_piece() -> Seq<char> {
    seq!['.', '.']
}

pub open spec fn dot_piece() -> Seq<char> {
    seq!['.']
}

/// The usable pieces among `pieces`: empty and `.` pieces are dropped, and a `..`
/// refuses the whole name.
pub open spec fn usable_pieces(pieces: Seq<Seq<char>>) -> Option<Key>
    decreases pieces.len(),
{
    if pieces.len() == 0 {
        Some(Seq::empty())
    } else {
        match usable_pieces(pieces.drop_last()) {
            None => None,
            Some(p) => {
                let x = pieces.last();
                if x == dot_dot_piece() {
                    None
                } else if x.len() == 0 || x == dot_piece() {
                    Some(p)
                } else {
                    Some(p.push(x))
                }
            },
        }
    }
}

/// A stored name split into usable parts, or `None` if it is refused. Empty and
/// `.` parts are dropped, which handles the `./x` names `tar` writes and the
/// leading `/` some archives contain. A `..` part is refused outright: that's
/// the "zip slip" trick for writing outside the folder being extracted, and no
/// honest archive needs it. A name with no usable part is refused too.
pub open spec fn archive_parts(name: Seq<char>) -> Option<Key> {
    match usable_pieces(split_on(name, '/')) {
        Some(p) => if p.len() > 0 {
            Some(p)
        } else {
            None
        },
        None => None,
    }
}

/// The node a stored entry becomes at `parts`: a name ending in `/` is a folder.
pub open spec fn raw_node(raw: RawV, parts: Key) -> NodeV {
    let is_dir = raw.name.len() > 0 && raw.name.last() == '/';
    NodeV {
        name: parts.last(),
        is_dir,
        size: if is_dir {
            0
        } else {
            raw.size
        },
        modified: raw.modified,
        slot: Some(raw.slot),
    }
}

/// One more stored entry taken in.
pub open spec fn step_spec(b: BuildV, raw: RawV) -> BuildV {
    match archive_parts(raw.name) {
        None => BuildV { refused: b.refused.push(raw.name), ..b },
        Some(parts) => put_spec(ancestors_spec(b, parts, 1), parts, raw_node(raw, parts)),
    }
}

/// The start: an empty root folder.
pub open spec fn empty_build() -> BuildV {
    BuildV { nodes: Seq::empty(), kids: seq![(Seq::<Seq<char>>::empty(), Seq::<Key>::empty())], refused: Seq::empty() }
}

/// Everything known after taking in `raws` in order.
pub open spec fn build_spec(raws: Seq<RawV>) -> BuildV
    decreases raws.len(),
{
    if raws.len() == 0 {
        empty_build()
    } else {
        step_spec(build_spec(raws.drop_last()), raws.last())
    }
}

/// The nodes at `keys`, in order; a key with no node is left out.
pub open spec fn nodes_at(nodes: Seq<(Key, NodeV)>, keys: Seq<Key>) -> Seq<NodeV>
    decreases keys.len(),
{
    if keys.len() == 0 {
        Seq::empty()
    } else {
        let rest = nodes_at(nodes, keys.drop_last());
        match lookup(nodes, keys.last()) {
            Some(n) => rest.push(n),
            None => rest,
        }
    }
}

/// What an [`Index`] holds: each folder's children, every node by path, and the
/// names refused.
pub struct IndexV {
    pub children: Seq<(Key, Seq<NodeV>)>,
    pub nodes: Seq<(Key, NodeV)>,
    pub refused: Seq<Seq<char>>,
}

/// The index made from what was built.
pub open spec fn finish_spec(b: BuildV) -> IndexV {
    IndexV {
        children: b.kids.map_values(|x: (Key, Seq<Key>)| (x.0, nodes_at(b.nodes, x.1))),
        nodes: b.nodes,
        refused: b.refused,
    }
}

/// The index of an archive whose stored entries are `raws`.
pub open spec fn index_of(raws: Seq<RawV>) -> IndexV {
    finish_spec(build_spec(raws))
}

// ---------------------------------------------------------------------------------------------
// Laws
// ---------------------------------------------------------------------------------------------

/// Once a folder, always a folder: taking in more entries never turns a folder into
/// a file, whatever order the archive lists them in.
pub proof fn lemma_folders_stay_folders(b: BuildV, raw: RawV, k: Key)
    requires
        lookup(b.nodes, k) matches Some(n) && n.is_dir,
    ensures
        lookup(step_spec(b, raw).nodes, k) matches Some(n) && n.is_dir,
{
    match archive_parts(raw.name) {
        None => {},
        Some(parts) => {
            lemma_ancestors_keep_folders(b, parts, 1, k);
            let b1 = ancestors_spec(b, parts, 1);
            lemma_put_keeps_folders(b1, parts, raw_node(raw, parts), k);
        },
    }
}

proof fn lemma_same_keys<X, Y>(s: Seq<(Key, X)>, t: Seq<(Key, Y)>, q: Key)
    requires
        s.len() == t.len(),
        forall|j: int| 0 <= j < s.len() ==> #[trigger] s[j].0 == t[j].0,
    ensures
        find_key(s, q) == find_key(t, q),
    decreases s.len(),
{
    if s.len() > 0 {
        assert forall|j: int| 0 <= j < s.len() - 1 implies #[trigger] s.drop_last()[j].0 == t.drop_last()[j].0 by {
            assert(s[j].0 == t[j].0);
        }
        lemma_same_keys(s.drop_last(), t.drop_last(), q);
    }
}

proof fn lemma_update_lookup<X>(s: Seq<(Key, X)>, i: int, k: Key, v: X, q: Key)
    requires
        find_key(s, k) == Some(i),
    ensures
        lookup(s.update(i, (k, v)), q) == (if q == k { Some(v) } else { lookup(s, q) }),
{
    lemma_find_key(s, k);
    lemma_find_key(s, q);
    let t = s.update(i, (k, v));
    assert forall|j: int| 0 <= j < s.len() implies #[trigger] s[j].0 == t[j].0 by {}
    lemma_same_keys(s, t, q);
}

proof fn lemma_push_lookup<X>(s: Seq<(Key, X)>, k: Key, v: X, q: Key)
    ensures
        lookup(s.push((k, v)), q) == (if q == k { Some(v) } else { lookup(s, q) }),
{
    lemma_find_key(s, q);
    assert(s.push((k, v)).drop_last() =~= s);
}

proof fn lemma_put_keeps_folders(b: BuildV, parts: Key, node: NodeV, k: Key)
    requires
        lookup(b.nodes, k) matches Some(n) && n.is_dir,
    ensures
        lookup(put_spec(b, parts, node).nodes, k) matches Some(n) && n.is_dir,
{
    lemma_find_key(b.nodes, parts);
    match find_key(b.nodes, parts) {
        Some(i) => {
            lemma_update_lookup(b.nodes, i, parts, node, k);
        },
        None => {
            lemma_push_lookup(b.nodes, parts, node, k);
        },
    }
}

proof fn lemma_ancestors_keep_folders(b: BuildV, parts: Key, depth: int, k: Key)
    requires
        lookup(b.nodes, k) matches Some(n) && n.is_dir,
    ensures
        lookup(ancestors_spec(b, parts, depth).nodes, k) matches Some(n) && n.is_dir,
    decreases parts.len() - depth,
{
    if 1 <= depth < parts.len() {
        let branch = parts.take(depth);
        let b1 = ancestor_step(b, parts, depth);
        match find_key(b.nodes, branch) {
            Some(i) => {
                if !b.nodes[i].1.is_dir {
                    lemma_update_lookup(b.nodes, i, branch, invented(branch), k);
                }
            },
            None => {
                lemma_put_keeps_folders(b, branch, invented(branch), k);
            },
        }
        lemma_ancestors_keep_folders(b1, parts, depth + 1, k);
    }
}

/// Every folder above each node is there, as a folder.
pub open spec fn ancestors_are_folders(nodes: Seq<(Key, NodeV)>) -> bool {
    forall|k: Key, d: int|
        #![trigger lookup(nodes, k), k.take(d)]
        lookup(nodes, k) is Some && 1 <= d < k.len() ==> (lookup(nodes, k.take(d)) matches Some(n) && n.is_dir)
}

/// Every folder strictly above `parts` is there, as a folder.
pub open spec fn folders_above(nodes: Seq<(Key, NodeV)>, parts: Key, upto: int) -> bool {
    forall|d: int| 1 <= d < upto && d < parts.len() ==> (lookup(nodes, #[trigger] parts.take(d)) matches Some(n) && n.is_dir)
}

proof fn lemma_put_keeps_ancestors(b: BuildV, parts: Key, node: NodeV)
    requires
        ancestors_are_folders(b.nodes),
        folders_above(b.nodes, parts, parts.len() as int),
    ensures
        ancestors_are_folders(put_spec(b, parts, node).nodes),
{
    let c = put_spec(b, parts, node);
    lemma_find_key(b.nodes, parts);
    assert forall|k: Key, d: int|
        #![trigger lookup(c.nodes, k), k.take(d)]
        lookup(c.nodes, k) is Some && 1 <= d < k.len() implies (lookup(c.nodes, k.take(d)) matches Some(n) && n.is_dir) by {
        assert(k.take(d).len() == d);
        match find_key(b.nodes, parts) {
            Some(i) => {
                if b.nodes[i].1.is_dir && !node.is_dir {
                    assert(c == b);
                    assert(lookup(b.nodes, k) is Some);
                } else {
                    lemma_update_lookup(b.nodes, i, parts, node, k);
                    lemma_update_lookup(b.nodes, i, parts, node, k.take(d));
                    if k == parts {
                        assert(lookup(b.nodes, parts.take(d)) matches Some(n) && n.is_dir);
                    } else {
                        assert(lookup(b.nodes, k) is Some);
                        assert(lookup(b.nodes, k.take(d)) matches Some(n) && n.is_dir);
                        if k.take(d) == parts {
                            assert(b.nodes[i].1.is_dir);
                        }
                    }
                }
            },
            None => {
                lemma_push_lookup(b.nodes, parts, node, k);
                lemma_push_lookup(b.nodes, parts, node, k.take(d));
                if k == parts {
                    assert(lookup(b.nodes, parts.take(d)) matches Some(n) && n.is_dir);
                } else {
                    assert(lookup(b.nodes, k) is Some);
                    assert(lookup(b.nodes, k.take(d)) matches Some(n) && n.is_dir);
                }
            },
        }
    }
}

/// One step of making the folders above `parts`: the one at depth `depth` is
/// there afterwards, and nothing that was a folder stops being one.
proof fn lemma_ancestor_step(b: BuildV, parts: Key, depth: int)
    requires
        1 <= depth < parts.len(),
        ancestors_are_folders(b.nodes),
        folders_above(b.nodes, parts, depth),
    ensures
        ancestors_are_folders(ancestor_step(b, parts, depth).nodes),
        folders_above(ancestor_step(b, parts, depth).nodes, parts, depth + 1),
        folders_above(b.nodes, parts.take(depth), depth),
{
    let branch = parts.take(depth);
    let b1 = ancestor_step(b, parts, depth);
    assert(folders_above(b.nodes, branch, branch.len() as int)) by {
        assert forall|d: int| 1 <= d < branch.len() && d < branch.len() implies (lookup(
            b.nodes,
            #[trigger] branch.take(d),
        ) matches Some(n) && n.is_dir) by {
            assert(branch.take(d) =~= parts.take(d));
        }
    }
    lemma_find_key(b.nodes, branch);
    match find_key(b.nodes, branch) {
        Some(i) => {
            if !b.nodes[i].1.is_dir {
                assert(b1 == put_spec(b, branch, invented(branch)));
                lemma_put_keeps_ancestors(b, branch, invented(branch));
                lemma_update_lookup(b.nodes, i, branch, invented(branch), branch);
            }
        },
        None => {
            lemma_put_keeps_ancestors(b, branch, invented(branch));
            lemma_push_lookup(b.nodes, branch, invented(branch), branch);
        },
    }
    assert(lookup(b1.nodes, branch) matches Some(n) && n.is_dir);
    assert forall|d: int| 1 <= d < depth + 1 && d < parts.len() implies (lookup(
        b1.nodes,
        #[trigger] parts.take(d),
    ) matches Some(n) && n.is_dir) by {
        if d < depth {
            assert(lookup(b.nodes, parts.take(d)) matches Some(n) && n.is_dir);
            lemma_put_keeps_folders(b, branch, invented(branch), parts.take(d));
            match find_key(b.nodes, branch) {
                Some(i) => {
                    if !b.nodes[i].1.is_dir {
                        lemma_update_lookup(b.nodes, i, branch, invented(branch), parts.take(d));
                    }
                },
                None => {},
            }
        }
    }
}

proof fn lemma_ancestors_made(b: BuildV, parts: Key, depth: int)
    requires
        1 <= depth,
        ancestors_are_folders(b.nodes),
        folders_above(b.nodes, parts, depth),
    ensures
        ancestors_are_folders(ancestors_spec(b, parts, depth).nodes),
        folders_above(ancestors_spec(b, parts, depth).nodes, parts, parts.len() as int),
    decreases parts.len() - depth,
{
    if depth < parts.len() {
        lemma_ancestor_step(b, parts, depth);
        lemma_ancestors_made(ancestor_step(b, parts, depth), parts, depth + 1);
    }
}

proof fn lemma_step_keeps_ancestors(b: BuildV, raw: RawV)
    requires
        ancestors_are_folders(b.nodes),
    ensures
        ancestors_are_folders(step_spec(b, raw).nodes),
{
    match archive_parts(raw.name) {
        None => {},
        Some(parts) => {
            lemma_ancestors_made(b, parts, 1);
            let b1 = ancestors_spec(b, parts, 1);
            lemma_put_keeps_ancestors(b1, parts, raw_node(raw, parts));
        },
    }
}

/// Every folder above a file or folder in an archive can be browsed to, whether
/// or not the archive lists it: it is there, and it is a folder.
pub proof fn lemma_every_folder_above_is_there(raws: Seq<RawV>)
    ensures
        ancestors_are_folders(index_of(raws).nodes),
    decreases raws.len(),
{
    if raws.len() == 0 {
        assert forall|k: Key, d: int|
            #![trigger lookup(empty_build().nodes, k), k.take(d)]
            lookup(empty_build().nodes, k) is Some && 1 <= d < k.len() implies (lookup(empty_build().nodes, k.take(d)) matches Some(n) && n.is_dir) by {}
    } else {
        lemma_every_folder_above_is_there(raws.drop_last());
        lemma_step_keeps_ancestors(build_spec(raws.drop_last()), raws.last());
    }
}

/// A name with a `..` among its `/`-separated pieces is refused: an archive can
/// never place anything outside the folder it is extracted into.
pub proof fn lemma_climbing_out_is_refused(b: BuildV, raw: RawV)
    requires
        split_on(raw.name, '/').contains(dot_dot_piece()),
    ensures
        step_spec(b, raw).refused == b.refused.push(raw.name),
        step_spec(b, raw).nodes == b.nodes,
{
    let pieces = split_on(raw.name, '/');
    let j = choose|j: int| 0 <= j < pieces.len() && pieces[j] == dot_dot_piece();
    lemma_usable_pieces_refuse(pieces, j);
}

proof fn lemma_usable_pieces_refuse(pieces: Seq<Seq<char>>, j: int)
    requires
        0 <= j < pieces.len(),
        pieces[j] == dot_dot_piece(),
    ensures
        usable_pieces(pieces) is None,
    decreases pieces.len(),
{
    if j < pieces.len() - 1 {
        lemma_usable_pieces_refuse(pieces.drop_last(), j);
    }
}

proof fn lemma_ancestors_keep_longer(b: BuildV, parts: Key, depth: int, k: Key)
    requires
        k.len() >= parts.len(),
    ensures
        lookup(ancestors_spec(b, parts, depth).nodes, k) == lookup(b.nodes, k),
    decreases parts.len() - depth,
{
    if 1 <= depth < parts.len() {
        let branch = parts.take(depth);
        assert(branch.len() == depth);
        assert(k != branch);
        let b1 = ancestor_step(b, parts, depth);
        match find_key(b.nodes, branch) {
            Some(i) => {
                if !b.nodes[i].1.is_dir {
                    lemma_update_lookup(b.nodes, i, branch, invented(branch), k);
                }
            },
            None => {
                lemma_find_key(b.nodes, branch);
                lemma_push_lookup(b.nodes, branch, invented(branch), k);
            },
        }
        lemma_ancestors_keep_longer(b1, parts, depth + 1, k);
    }
}

/// Of two stored entries with one name, the later wins, as extracting both
/// would leave the later one; except that a file never replaces a folder, whose
/// contents would otherwise be out of reach.
pub proof fn lemma_last_entry_wins(b: BuildV, raw: RawV)
    ensures
        archive_parts(raw.name) matches Some(p) ==> lookup(step_spec(b, raw).nodes, p) == (if !raw_node(raw, p).is_dir
            && (lookup(b.nodes, p) matches Some(n) && n.is_dir) {
            lookup(b.nodes, p)
        } else {
            Some(raw_node(raw, p))
        }),
{
    if let Some(p) = archive_parts(raw.name) {
        let b1 = ancestors_spec(b, p, 1);
        let node = raw_node(raw, p);
        lemma_ancestors_keep_longer(b, p, 1, p);
        lemma_find_key(b1.nodes, p);
        match find_key(b1.nodes, p) {
            Some(i) => {
                lemma_update_lookup(b1.nodes, i, p, node, p);
            },
            None => {
                lemma_push_lookup(b1.nodes, p, node, p);
            },
        }
    }
}

// ---------------------------------------------------------------------------------------------
// Only folders have listings
// ---------------------------------------------------------------------------------------------

/// Every list of children belongs to the root or to a folder.
pub open spec fn kids_are_folders(b: BuildV) -> bool {
    forall|i: int|
        0 <= i < b.kids.len() ==> (#[trigger] b.kids[i]).0.len() == 0 || (lookup(b.nodes, b.kids[i].0) matches Some(n)
            && n.is_dir)
}

proof fn lemma_touch_keys(kids: Seq<(Key, Seq<Key>)>, k: Key)
    ensures
        forall|i: int|
            0 <= i < touch_kids(kids, k).len() ==> (i < kids.len() && (#[trigger] touch_kids(kids, k)[i]).0 == kids[i].0)
                || touch_kids(kids, k)[i].0 == k,
{
}

proof fn lemma_add_keys(kids: Seq<(Key, Seq<Key>)>, parent: Key, child: Key)
    ensures
        forall|i: int|
            0 <= i < add_kid(kids, parent, child).len() ==> (i < kids.len() && (#[trigger] add_kid(kids, parent, child)[
                i]).0 == kids[i].0) || add_kid(kids, parent, child)[i].0 == parent,
{
    lemma_find_key(kids, parent);
}

proof fn lemma_put_kids_folders(b: BuildV, parts: Key, node: NodeV)
    requires
        kids_are_folders(b),
        parts.len() >= 1,
        folders_above(b.nodes, parts, parts.len() as int),
    ensures
        kids_are_folders(put_spec(b, parts, node)),
{
    let c = put_spec(b, parts, node);
    lemma_find_key(b.nodes, parts);
    let parent = parts.drop_last();
    if parts.len() >= 2 {
        assert(parts.take(parts.len() - 1) =~= parent);
        assert(lookup(b.nodes, parts.take(parts.len() - 1)) matches Some(n) && n.is_dir);
    }
    match find_key(b.nodes, parts) {
        Some(i) => {
            if !(b.nodes[i].1.is_dir && !node.is_dir) {
                lemma_touch_keys(b.kids, parts);
                assert forall|j: int| 0 <= j < c.kids.len() implies (#[trigger] c.kids[j]).0.len() == 0 || (lookup(
                    c.nodes,
                    c.kids[j].0,
                ) matches Some(n) && n.is_dir) by {
                    lemma_update_lookup(b.nodes, i, parts, node, c.kids[j].0);
                    if j < b.kids.len() && c.kids[j].0 == b.kids[j].0 {
                        if c.kids[j].0.len() != 0 {
                            assert(lookup(b.nodes, b.kids[j].0) matches Some(n) && n.is_dir);
                            if b.kids[j].0 == parts {
                                assert(b.nodes[i].1.is_dir);
                            }
                        }
                    }
                }
            }
        },
        None => {
            let kids1 = add_kid(b.kids, parent, parts);
            lemma_add_keys(b.kids, parent, parts);
            lemma_touch_keys(kids1, parts);
            assert forall|j: int| 0 <= j < c.kids.len() implies (#[trigger] c.kids[j]).0.len() == 0 || (lookup(
                c.nodes,
                c.kids[j].0,
            ) matches Some(n) && n.is_dir) by {
                let kk = c.kids[j].0;
                lemma_push_lookup(b.nodes, parts, node, kk);
                if kk == parts {
                } else if kk == parent {
                    if parent.len() != 0 {
                        lemma_put_keeps_folders(b, parts, node, parent);
                    }
                } else {
                    assert(j < kids1.len() && c.kids[j].0 == kids1[j].0);
                    assert(j < b.kids.len() && kids1[j].0 == b.kids[j].0);
                }
            }
        },
    }
}

proof fn lemma_ancestors_kids_folders(b: BuildV, parts: Key, depth: int)
    requires
        1 <= depth,
        kids_are_folders(b),
        ancestors_are_folders(b.nodes),
        folders_above(b.nodes, parts, depth),
    ensures
        kids_are_folders(ancestors_spec(b, parts, depth)),
    decreases parts.len() - depth,
{
    if depth < parts.len() {
        let branch = parts.take(depth);
        let b1 = ancestor_step(b, parts, depth);
        lemma_ancestor_step(b, parts, depth);
        assert(folders_above(b.nodes, branch, branch.len() as int));
        match find_key(b.nodes, branch) {
            Some(i) => {
                if !b.nodes[i].1.is_dir {
                    assert(b1 == put_spec(b, branch, invented(branch)));
                    lemma_put_kids_folders(b, branch, invented(branch));
                }
            },
            None => {
                lemma_put_kids_folders(b, branch, invented(branch));
            },
        }
        lemma_ancestors_kids_folders(b1, parts, depth + 1);
    }
}

proof fn lemma_step_kids_folders(b: BuildV, raw: RawV)
    requires
        kids_are_folders(b),
        ancestors_are_folders(b.nodes),
    ensures
        kids_are_folders(step_spec(b, raw)),
{
    if let Some(parts) = archive_parts(raw.name) {
        lemma_ancestors_kids_folders(b, parts, 1);
        lemma_ancestors_made(b, parts, 1);
        lemma_put_kids_folders(ancestors_spec(b, parts, 1), parts, raw_node(raw, parts));
    }
}

proof fn lemma_build_kids_folders(raws: Seq<RawV>)
    ensures
        kids_are_folders(build_spec(raws)),
        ancestors_are_folders(build_spec(raws).nodes),
    decreases raws.len(),
{
    if raws.len() == 0 {
        lemma_every_folder_above_is_there(raws);
    } else {
        lemma_build_kids_folders(raws.drop_last());
        lemma_step_kids_folders(build_spec(raws.drop_last()), raws.last());
        lemma_step_keeps_ancestors(build_spec(raws.drop_last()), raws.last());
    }
}

/// Only a folder, or the root, has a listing: asking for the children of a
/// file, or of a path the archive doesn't hold, finds nothing.
pub proof fn lemma_only_folders_have_listings(raws: Seq<RawV>, dir: Key)
    ensures
        lookup(index_of(raws).children, dir) is Some ==> dir.len() == 0 || (lookup(index_of(raws).nodes, dir) matches Some(
            n,
        ) && n.is_dir),
{
    let b = build_spec(raws);
    let ix = index_of(raws);
    lemma_build_kids_folders(raws);
    assert forall|j: int| 0 <= j < ix.children.len() implies #[trigger] ix.children[j].0 == b.kids[j].0 by {}
    lemma_same_keys(ix.children, b.kids, dir);
    lemma_find_key(b.kids, dir);
}

// ---------------------------------------------------------------------------------------------
// Listings
// ---------------------------------------------------------------------------------------------

/// Each folder's list of children holds only paths one level below it.
pub open spec fn kids_below(kids: Seq<(Key, Seq<Key>)>) -> bool {
    forall|i: int, j: int|
        0 <= i < kids.len() && 0 <= j < kids[i].1.len() ==> (#[trigger] kids[i].1[j]).len() >= 1
            && kids[i].1[j].drop_last() == kids[i].0
}

/// Every node lies below the root and is among its parent folder's children.
pub open spec fn nodes_listed(nodes: Seq<(Key, NodeV)>, kids: Seq<(Key, Seq<Key>)>) -> bool {
    forall|k: Key|
        #[trigger] lookup(nodes, k) is Some ==> k.len() >= 1 && (find_key(kids, k.drop_last()) matches Some(p)
            && kids[p].1.contains(k))
}

pub open spec fn listing_wf(b: BuildV) -> bool {
    kids_below(b.kids) && nodes_listed(b.nodes, b.kids)
}

/// `kids2` keeps every folder of `kids` where it was, with all of its children.
pub open spec fn kids_grow(kids: Seq<(Key, Seq<Key>)>, kids2: Seq<(Key, Seq<Key>)>) -> bool {
    &&& kids.len() <= kids2.len()
    &&& forall|q: Key| #![trigger find_key(kids, q)] find_key(kids, q) is Some ==> find_key(kids2, q) == find_key(kids, q)
    &&& forall|p: int, k: Key| 0 <= p < kids.len() && #[trigger] kids[p].1.contains(k) ==> kids2[p].1.contains(k)
}

proof fn lemma_listed_grow(nodes: Seq<(Key, NodeV)>, kids: Seq<(Key, Seq<Key>)>, kids2: Seq<(Key, Seq<Key>)>)
    requires
        nodes_listed(nodes, kids),
        kids_grow(kids, kids2),
    ensures
        nodes_listed(nodes, kids2),
{
    assert forall|k: Key| #[trigger] lookup(nodes, k) is Some implies k.len() >= 1 && (find_key(
        kids2,
        k.drop_last(),
    ) matches Some(p) && kids2[p].1.contains(k)) by {
        let p = find_key(kids, k.drop_last())->0;
        lemma_find_key(kids, k.drop_last());
        assert(kids[p].1.contains(k));
    }
}

proof fn lemma_touch_kids(kids: Seq<(Key, Seq<Key>)>, k: Key)
    requires
        kids_below(kids),
    ensures
        kids_below(touch_kids(kids, k)),
        kids_grow(kids, touch_kids(kids, k)),
{
    lemma_find_key(kids, k);
    let t = touch_kids(kids, k);
    if find_key(kids, k) is None {
        assert(t.drop_last() =~= kids);
        assert forall|q: Key| #![trigger find_key(kids, q)] find_key(kids, q) is Some implies find_key(t, q)
            == find_key(kids, q) by {
            lemma_find_key(kids, q);
            let p = find_key(kids, q)->0;
            assert(kids[p].0 == q);
        }
        assert forall|p: int, x: Key| 0 <= p < kids.len() && #[trigger] kids[p].1.contains(x) implies t[p].1.contains(x) by {
            assert(t[p] == kids[p]);
        }
        assert forall|i: int, j: int| 0 <= i < t.len() && 0 <= j < t[i].1.len() implies (#[trigger] t[i].1[j]).len()
            >= 1 && t[i].1[j].drop_last() == t[i].0 by {
            if i < kids.len() {
                assert(t[i] == kids[i]);
                assert(kids[i].1[j] == t[i].1[j]);
            }
        }
    }
}

proof fn lemma_add_kid(kids: Seq<(Key, Seq<Key>)>, parent: Key, child: Key)
    requires
        kids_below(kids),
        child.len() >= 1,
        child.drop_last() == parent,
    ensures
        kids_below(add_kid(kids, parent, child)),
        kids_grow(kids, add_kid(kids, parent, child)),
        find_key(add_kid(kids, parent, child), parent) matches Some(p) && add_kid(kids, parent, child)[p].1.contains(
            child,
        ),
{
    lemma_find_key(kids, parent);
    let a = add_kid(kids, parent, child);
    match find_key(kids, parent) {
        Some(i) => {
            assert forall|j: int| 0 <= j < kids.len() implies #[trigger] kids[j].0 == a[j].0 by {}
            assert forall|q: Key| #![trigger find_key(kids, q)] find_key(kids, q) is Some implies find_key(a, q)
                == find_key(kids, q) by {
                lemma_same_keys(kids, a, q);
            }
            assert forall|p: int, x: Key| 0 <= p < kids.len() && #[trigger] kids[p].1.contains(x) implies a[p].1.contains(x) by {
                if p == i {
                    let j = choose|j: int| 0 <= j < kids[p].1.len() && kids[p].1[j] == x;
                    assert(a[p].1[j] == x);
                }
            }
            lemma_same_keys(kids, a, parent);
            assert(a[i].1[kids[i].1.len() as int] == child);
            assert forall|i2: int, j: int| 0 <= i2 < a.len() && 0 <= j < a[i2].1.len() implies (#[trigger] a[i2].1[j]).len()
                >= 1 && a[i2].1[j].drop_last() == a[i2].0 by {
                if i2 != i || j < kids[i].1.len() {
                    assert(a[i2].1[j] == kids[i2].1[j]);
                }
            }
        },
        None => {
            assert(a.drop_last() =~= kids);
            assert forall|q: Key| #![trigger find_key(kids, q)] find_key(kids, q) is Some implies find_key(a, q)
                == find_key(kids, q) by {
                lemma_find_key(kids, q);
                let p = find_key(kids, q)->0;
                assert(kids[p].0 == q);
            }
            assert forall|p: int, x: Key| 0 <= p < kids.len() && #[trigger] kids[p].1.contains(x) implies a[p].1.contains(x) by {
                assert(a[p] == kids[p]);
            }
            assert(a[kids.len() as int].1[0] == child);
            assert forall|i: int, j: int| 0 <= i < a.len() && 0 <= j < a[i].1.len() implies (#[trigger] a[i].1[j]).len()
                >= 1 && a[i].1[j].drop_last() == a[i].0 by {
                if i < kids.len() {
                    assert(a[i] == kids[i]);
                    assert(kids[i].1[j] == a[i].1[j]);
                }
            }
        },
    }
}

proof fn lemma_put_listed(b: BuildV, parts: Key, node: NodeV)
    requires
        listing_wf(b),
        parts.len() >= 1,
    ensures
        listing_wf(put_spec(b, parts, node)),
{
    let c = put_spec(b, parts, node);
    lemma_find_key(b.nodes, parts);
    match find_key(b.nodes, parts) {
        Some(i) => {
            if !(b.nodes[i].1.is_dir && !node.is_dir) {
                if node.is_dir {
                    lemma_touch_kids(b.kids, parts);
                    lemma_listed_grow(b.nodes, b.kids, c.kids);
                }
                assert forall|k: Key| #[trigger] lookup(c.nodes, k) is Some implies k.len() >= 1 && (find_key(
                    c.kids,
                    k.drop_last(),
                ) matches Some(p) && c.kids[p].1.contains(k)) by {
                    lemma_update_lookup(b.nodes, i, parts, node, k);
                    lemma_update_lookup(b.nodes, i, parts, node, parts);
                    assert(lookup(b.nodes, parts) is Some);
                    assert(lookup(b.nodes, k) is Some);
                }
            }
        },
        None => {
            let kids1 = add_kid(b.kids, parts.drop_last(), parts);
            lemma_add_kid(b.kids, parts.drop_last(), parts);
            lemma_listed_grow(b.nodes, b.kids, kids1);
            if node.is_dir {
                lemma_touch_kids(kids1, parts);
            }
            assert(kids_grow(kids1, c.kids)) by {
                if !node.is_dir {
                    assert(c.kids == kids1);
                }
            }
            lemma_listed_grow(b.nodes, kids1, c.kids);
            let p0 = find_key(kids1, parts.drop_last())->0;
            lemma_find_key(kids1, parts.drop_last());
            assert(kids1[p0].1.contains(parts));
            assert(c.kids[p0].1.contains(parts));
            assert forall|k: Key| #[trigger] lookup(c.nodes, k) is Some implies k.len() >= 1 && (find_key(
                c.kids,
                k.drop_last(),
            ) matches Some(p) && c.kids[p].1.contains(k)) by {
                lemma_push_lookup(b.nodes, parts, node, k);
                if k != parts {
                    assert(lookup(b.nodes, k) is Some);
                }
            }
        },
    }
}

proof fn lemma_ancestors_listed(b: BuildV, parts: Key, depth: int)
    requires
        listing_wf(b),
        1 <= depth,
    ensures
        listing_wf(ancestors_spec(b, parts, depth)),
    decreases parts.len() - depth,
{
    if depth < parts.len() {
        let branch = parts.take(depth);
        let b1 = ancestor_step(b, parts, depth);
        match find_key(b.nodes, branch) {
            Some(i) => {
                if !b.nodes[i].1.is_dir {
                    assert(b1 == put_spec(b, branch, invented(branch)));
                    lemma_put_listed(b, branch, invented(branch));
                }
            },
            None => {
                lemma_put_listed(b, branch, invented(branch));
            },
        }
        lemma_ancestors_listed(b1, parts, depth + 1);
    }
}

proof fn lemma_step_listed(b: BuildV, raw: RawV)
    requires
        listing_wf(b),
    ensures
        listing_wf(step_spec(b, raw)),
{
    match archive_parts(raw.name) {
        None => {},
        Some(parts) => {
            lemma_ancestors_listed(b, parts, 1);
            lemma_put_listed(ancestors_spec(b, parts, 1), parts, raw_node(raw, parts));
        },
    }
}

proof fn lemma_build_listed(raws: Seq<RawV>)
    ensures
        listing_wf(build_spec(raws)),
    decreases raws.len(),
{
    if raws.len() == 0 {
        let e = empty_build();
        assert forall|i: int, j: int| 0 <= i < e.kids.len() && 0 <= j < e.kids[i].1.len() implies (
        #[trigger] e.kids[i].1[j]).len() >= 1 && e.kids[i].1[j].drop_last() == e.kids[i].0 by {
            assert(e.kids[i].1.len() == 0);
        }
    } else {
        lemma_build_listed(raws.drop_last());
        lemma_step_listed(build_spec(raws.drop_last()), raws.last());
    }
}

proof fn lemma_nodes_at_has(nodes: Seq<(Key, NodeV)>, keys: Seq<Key>, k: Key)
    requires
        keys.contains(k),
        lookup(nodes, k) is Some,
    ensures
        nodes_at(nodes, keys).contains(lookup(nodes, k)->0),
    decreases keys.len(),
{
    let rest = nodes_at(nodes, keys.drop_last());
    if keys.last() == k {
        assert(nodes_at(nodes, keys) == rest.push(lookup(nodes, k)->0));
        assert(nodes_at(nodes, keys).last() == lookup(nodes, k)->0);
    } else {
        let j = choose|j: int| 0 <= j < keys.len() && keys[j] == k;
        assert(keys.drop_last()[j] == k);
        lemma_nodes_at_has(nodes, keys.drop_last(), k);
        let m = choose|m: int| 0 <= m < rest.len() && rest[m] == lookup(nodes, k)->0;
        match lookup(nodes, keys.last()) {
            Some(n) => assert(rest.push(n)[m] == rest[m]),
            None => {},
        }
    }
}

proof fn lemma_nodes_at_from(nodes: Seq<(Key, NodeV)>, keys: Seq<Key>, n: NodeV)
    requires
        nodes_at(nodes, keys).contains(n),
    ensures
        exists|k: Key| keys.contains(k) && lookup(nodes, k) == Some(n),
    decreases keys.len(),
{
    if keys.len() > 0 {
        let rest = nodes_at(nodes, keys.drop_last());
        let last = keys.last();
        assert(keys[keys.len() - 1] == last);
        let m = choose|m: int| 0 <= m < nodes_at(nodes, keys).len() && nodes_at(nodes, keys)[m] == n;
        if lookup(nodes, last) == Some(n) {
        } else {
            match lookup(nodes, last) {
                Some(x) => assert(rest.push(x)[m] == rest[m]),
                None => {},
            }
            assert(rest.contains(n));
            lemma_nodes_at_from(nodes, keys.drop_last(), n);
            let k = choose|k: Key| keys.drop_last().contains(k) && lookup(nodes, k) == Some(n);
            let j = choose|j: int| 0 <= j < keys.drop_last().len() && keys.drop_last()[j] == k;
            assert(keys[j] == k);
        }
    }
}

/// A folder's listing holds only entries one level below it.
pub open spec fn listings_hold_children(ix: IndexV) -> bool {
    forall|dir: Key, n: NodeV|
        lookup(ix.children, dir) is Some && #[trigger] lookup(ix.children, dir)->0.contains(n) ==> exists|k: Key|
            k.len() >= 1 && k.drop_last() == dir && #[trigger] lookup(ix.nodes, k) == Some(n)
}

/// Every entry shows up in the listing of the folder it is in.
pub open spec fn entries_are_listed(ix: IndexV) -> bool {
    forall|k: Key|
        #[trigger] lookup(ix.nodes, k) is Some ==> lookup(ix.children, k.drop_last()) is Some && lookup(
            ix.children,
            k.drop_last(),
        )->0.contains(lookup(ix.nodes, k)->0)
}

/// Browsing an archive shows exactly what is in it: each folder's listing holds
/// only entries one level below that folder, and every entry shows up in the
/// listing of the folder it is in.
pub proof fn lemma_listings_are_direct_children(raws: Seq<RawV>)
    ensures
        listings_hold_children(index_of(raws)),
        entries_are_listed(index_of(raws)),
{
    let b = build_spec(raws);
    let ix = index_of(raws);
    lemma_build_listed(raws);
    assert forall|q: Key| find_key(ix.children, q) == find_key(b.kids, q) by {
        assert forall|j: int| 0 <= j < ix.children.len() implies #[trigger] ix.children[j].0 == b.kids[j].0 by {}
        lemma_same_keys(ix.children, b.kids, q);
    }
    assert forall|dir: Key, n: NodeV|
        lookup(ix.children, dir) is Some && #[trigger] lookup(ix.children, dir)->0.contains(n) implies exists|k: Key|
            k.len() >= 1 && k.drop_last() == dir && #[trigger] lookup(ix.nodes, k) == Some(n) by {
        lemma_find_key(ix.children, dir);
        let p = find_key(ix.children, dir)->0;
        assert(ix.children[p] == (b.kids[p].0, nodes_at(b.nodes, b.kids[p].1)));
        lemma_nodes_at_from(b.nodes, b.kids[p].1, n);
        let k = choose|k: Key| b.kids[p].1.contains(k) && lookup(b.nodes, k) == Some(n);
        let j = choose|j: int| 0 <= j < b.kids[p].1.len() && b.kids[p].1[j] == k;
        assert(b.kids[p].1[j].len() >= 1);
    }
    assert forall|k: Key| #[trigger] lookup(ix.nodes, k) is Some implies lookup(ix.children, k.drop_last()) is Some
        && lookup(ix.children, k.drop_last())->0.contains(lookup(ix.nodes, k)->0) by {
        let p = find_key(b.kids, k.drop_last())->0;
        lemma_find_key(b.kids, k.drop_last());
        assert(ix.children[p] == (b.kids[p].0, nodes_at(b.nodes, b.kids[p].1)));
        lemma_nodes_at_has(b.nodes, b.kids[p].1, k);
    }
}

// ---------------------------------------------------------------------------------------------
// Each entry listed once, by its own name
// ---------------------------------------------------------------------------------------------

/// What the build keeps true about names and folders: a node is named by the
/// last part of its path; a folder has no size and a list of children; every
/// path in a list of children has a node, and no list holds a path twice; the
/// root always has a list.
pub open spec fn index_wf(b: BuildV) -> bool {
    &&& forall|k: Key| #[trigger] lookup(b.nodes, k) is Some ==> lookup(b.nodes, k)->0.name == k.last()
    &&& forall|k: Key|
        #[trigger] lookup(b.nodes, k) is Some && lookup(b.nodes, k)->0.is_dir ==> lookup(b.nodes, k)->0.size == 0
            && find_key(b.kids, k) is Some
    &&& forall|i: int, j: int|
        0 <= i < b.kids.len() && 0 <= j < b.kids[i].1.len() ==> lookup(b.nodes, #[trigger] b.kids[i].1[j]) is Some
    &&& forall|i: int, x: int, y: int|
        0 <= i < b.kids.len() && 0 <= x < y < b.kids[i].1.len() ==> #[trigger] b.kids[i].1[x]
            != #[trigger] b.kids[i].1[y]
    &&& find_key(b.kids, Seq::<Seq<char>>::empty()) is Some
}

proof fn lemma_touch_lists(kids: Seq<(Key, Seq<Key>)>, k: Key)
    ensures
        touch_kids(kids, k).len() >= kids.len(),
        forall|i: int| 0 <= i < kids.len() ==> #[trigger] touch_kids(kids, k)[i] == kids[i],
        forall|i: int| kids.len() <= i < touch_kids(kids, k).len() ==> (#[trigger] touch_kids(kids, k)[i]).1.len() == 0,
{
}

proof fn lemma_add_lists(kids: Seq<(Key, Seq<Key>)>, parent: Key, child: Key)
    ensures
        add_kid(kids, parent, child).len() >= kids.len(),
        forall|i: int, j: int|
            0 <= i < add_kid(kids, parent, child).len() && 0 <= j < add_kid(kids, parent, child)[i].1.len() ==> (
            #[trigger] add_kid(kids, parent, child)[i].1[j]) == child || (i < kids.len() && j < kids[i].1.len()
                && add_kid(kids, parent, child)[i].1[j] == kids[i].1[j]),
        forall|i: int, j: int|
            0 <= i < kids.len() && 0 <= j < kids[i].1.len() ==> j < add_kid(kids, parent, child)[i].1.len()
                && #[trigger] add_kid(kids, parent, child)[i].1[j] == kids[i].1[j],
        forall|i: int| 0 <= i < kids.len() ==> (#[trigger] add_kid(kids, parent, child)[i]).1.len() <= kids[i].1.len() + 1,
        forall|i: int|
            kids.len() <= i < add_kid(kids, parent, child).len() ==> (#[trigger] add_kid(kids, parent, child)[i]).1.len() == 1,
{
    lemma_find_key(kids, parent);
}

proof fn lemma_put_index_wf(b: BuildV, parts: Key, node: NodeV)
    requires
        index_wf(b),
        listing_wf(b),
        parts.len() >= 1,
        node.name == parts.last(),
        node.is_dir ==> node.size == 0,
    ensures
        index_wf(put_spec(b, parts, node)),
{
    let c = put_spec(b, parts, node);
    lemma_find_key(b.nodes, parts);
    lemma_find_key(b.kids, Seq::<Seq<char>>::empty());
    match find_key(b.nodes, parts) {
        Some(i) => {
            if !(b.nodes[i].1.is_dir && !node.is_dir) {
                lemma_touch_kids(b.kids, parts);
                lemma_touch_lists(b.kids, parts);
                lemma_touch_keys(b.kids, parts);
                assert forall|k: Key| #[trigger] lookup(c.nodes, k) is Some implies lookup(c.nodes, k)->0.name == k.last()
                    && (lookup(c.nodes, k)->0.is_dir ==> lookup(c.nodes, k)->0.size == 0 && find_key(c.kids, k) is Some) by {
                    lemma_update_lookup(b.nodes, i, parts, node, k);
                    if k != parts {
                        assert(lookup(b.nodes, k) is Some);
                    } else if node.is_dir {
                        lemma_find_key(c.kids, parts);
                    }
                }
                assert forall|ii: int, j: int| 0 <= ii < c.kids.len() && 0 <= j < c.kids[ii].1.len() implies lookup(
                    c.nodes,
                    #[trigger] c.kids[ii].1[j],
                ) is Some by {
                    lemma_update_lookup(b.nodes, i, parts, node, c.kids[ii].1[j]);
                    assert(ii < b.kids.len() && c.kids[ii] == b.kids[ii]);
                    assert(lookup(b.nodes, b.kids[ii].1[j]) is Some);
                }
                assert forall|ii: int, x: int, y: int|
                    0 <= ii < c.kids.len() && 0 <= x < y < c.kids[ii].1.len() implies #[trigger] c.kids[ii].1[x]
                        != #[trigger] c.kids[ii].1[y] by {
                    assert(ii < b.kids.len() && c.kids[ii] == b.kids[ii]);
                    assert(b.kids[ii].1[x] != b.kids[ii].1[y]);
                }
            }
        },
        None => {
            let parent = parts.drop_last();
            let kids1 = add_kid(b.kids, parent, parts);
            lemma_add_kid(b.kids, parent, parts);
            lemma_add_lists(b.kids, parent, parts);
            lemma_touch_kids(kids1, parts);
            lemma_touch_lists(kids1, parts);
            lemma_find_key(kids1, Seq::<Seq<char>>::empty());
            assert(kids_grow(kids1, c.kids)) by {
                if !node.is_dir {
                    assert(c.kids == kids1);
                }
            }
            assert forall|k: Key| #[trigger] lookup(c.nodes, k) is Some implies lookup(c.nodes, k)->0.name == k.last()
                && (lookup(c.nodes, k)->0.is_dir ==> lookup(c.nodes, k)->0.size == 0 && find_key(c.kids, k) is Some) by {
                lemma_push_lookup(b.nodes, parts, node, k);
                if k != parts {
                    assert(lookup(b.nodes, k) is Some);
                    if lookup(b.nodes, k)->0.is_dir {
                        assert(find_key(b.kids, k) is Some);
                        assert(find_key(kids1, k) == find_key(b.kids, k));
                    }
                } else if node.is_dir {
                    lemma_find_key(c.kids, parts);
                }
            }
            // A path with no node is in no list, so adding it keeps each list free of repeats.
            assert forall|ii: int, j: int| 0 <= ii < b.kids.len() && 0 <= j < b.kids[ii].1.len() implies #[trigger] b.kids[ii].1[j]
                != parts by {
                assert(lookup(b.nodes, b.kids[ii].1[j]) is Some);
            }
            assert forall|ii: int, j: int| 0 <= ii < c.kids.len() && 0 <= j < c.kids[ii].1.len() implies lookup(
                c.nodes,
                #[trigger] c.kids[ii].1[j],
            ) is Some by {
                let kk = c.kids[ii].1[j];
                lemma_push_lookup(b.nodes, parts, node, kk);
                assert(ii < kids1.len() && c.kids[ii] == kids1[ii]);
                if kk != parts {
                    assert(ii < b.kids.len() && j < b.kids[ii].1.len() && kids1[ii].1[j] == b.kids[ii].1[j]);
                    assert(lookup(b.nodes, b.kids[ii].1[j]) is Some);
                }
            }
            assert forall|ii: int, x: int, y: int|
                0 <= ii < c.kids.len() && 0 <= x < y < c.kids[ii].1.len() implies #[trigger] c.kids[ii].1[x]
                    != #[trigger] c.kids[ii].1[y] by {
                assert(ii < kids1.len() && c.kids[ii] == kids1[ii]);
                let a = kids1[ii].1[x];
                let d = kids1[ii].1[y];
                if a == parts && d == parts {
                    // Only the one place added can hold the new child.
                    if ii < b.kids.len() {
                        if x < b.kids[ii].1.len() {
                            assert(kids1[ii].1[x] == b.kids[ii].1[x]);
                            assert(b.kids[ii].1[x] != parts);
                        }
                    }
                } else if a != parts && d != parts {
                    assert(b.kids[ii].1[x] != b.kids[ii].1[y]);
                }
            }
        },
    }
}

proof fn lemma_ancestors_index_wf(b: BuildV, parts: Key, depth: int)
    requires
        index_wf(b),
        listing_wf(b),
        1 <= depth,
    ensures
        index_wf(ancestors_spec(b, parts, depth)),
        listing_wf(ancestors_spec(b, parts, depth)),
    decreases parts.len() - depth,
{
    if depth < parts.len() {
        let branch = parts.take(depth);
        let b1 = ancestor_step(b, parts, depth);
        match find_key(b.nodes, branch) {
            Some(i) => {
                if !b.nodes[i].1.is_dir {
                    assert(b1 == put_spec(b, branch, invented(branch)));
                    lemma_put_index_wf(b, branch, invented(branch));
                    lemma_put_listed(b, branch, invented(branch));
                }
            },
            None => {
                lemma_put_index_wf(b, branch, invented(branch));
                lemma_put_listed(b, branch, invented(branch));
            },
        }
        lemma_ancestors_index_wf(b1, parts, depth + 1);
    }
}

proof fn lemma_build_index_wf(raws: Seq<RawV>)
    ensures
        index_wf(build_spec(raws)),
        listing_wf(build_spec(raws)),
    decreases raws.len(),
{
    if raws.len() == 0 {
        lemma_build_listed(raws);
        let e = empty_build();
        assert(find_key(e.kids, Seq::<Seq<char>>::empty()) == Some(0int));
    } else {
        let b = build_spec(raws.drop_last());
        lemma_build_index_wf(raws.drop_last());
        if let Some(parts) = archive_parts(raws.last().name) {
            lemma_ancestors_index_wf(b, parts, 1);
            lemma_put_index_wf(ancestors_spec(b, parts, 1), parts, raw_node(raws.last(), parts));
        }
        lemma_build_listed(raws);
    }
}

proof fn lemma_nodes_at_all(nodes: Seq<(Key, NodeV)>, keys: Seq<Key>)
    requires
        forall|j: int| 0 <= j < keys.len() ==> lookup(nodes, #[trigger] keys[j]) is Some,
    ensures
        nodes_at(nodes, keys).len() == keys.len(),
        forall|j: int| 0 <= j < keys.len() ==> Some(#[trigger] nodes_at(nodes, keys)[j]) == lookup(nodes, keys[j]),
    decreases keys.len(),
{
    if keys.len() > 0 {
        let init = keys.drop_last();
        assert forall|j: int| 0 <= j < init.len() implies lookup(nodes, #[trigger] init[j]) is Some by {
            assert(init[j] == keys[j]);
        }
        lemma_nodes_at_all(nodes, init);
        assert(lookup(nodes, keys[keys.len() - 1]) is Some);
        assert forall|j: int| 0 <= j < keys.len() implies Some(#[trigger] nodes_at(nodes, keys)[j]) == lookup(nodes, keys[j]) by {
            if j < init.len() {
                assert(init[j] == keys[j]);
            }
        }
    }
}

/// No listing shows two entries by one name.
pub open spec fn listings_have_distinct_names(ix: IndexV) -> bool {
    forall|dir: Key, x: int, y: int|
        lookup(ix.children, dir) is Some && 0 <= x < y < lookup(ix.children, dir)->0.len() ==> (
        #[trigger] lookup(ix.children, dir)->0[x]).name != (#[trigger] lookup(ix.children, dir)->0[y]).name
}

/// Each entry shows the last part of its path as its name, a folder has no size
/// and can be listed, the root can always be listed, and no listing shows two
/// entries by one name, so with [`lemma_listings_are_direct_children`] every
/// entry shows up exactly once, in the listing of its folder.
pub proof fn lemma_each_entry_listed_once(raws: Seq<RawV>)
    ensures
        lookup(index_of(raws).children, Seq::<Seq<char>>::empty()) is Some,
        forall|k: Key|
            #[trigger] lookup(index_of(raws).nodes, k) is Some ==> lookup(index_of(raws).nodes, k)->0.name == k.last()
                && (lookup(index_of(raws).nodes, k)->0.is_dir ==> lookup(index_of(raws).nodes, k)->0.size == 0
                && lookup(index_of(raws).children, k) is Some),
        listings_have_distinct_names(index_of(raws)),
{
    let b = build_spec(raws);
    let ix = index_of(raws);
    lemma_build_index_wf(raws);
    assert forall|j: int| 0 <= j < ix.children.len() implies #[trigger] ix.children[j].0 == b.kids[j].0 by {}
    assert forall|q: Key| find_key(ix.children, q) == find_key(b.kids, q) by {
        lemma_same_keys(ix.children, b.kids, q);
    }
    assert forall|dir: Key, x: int, y: int|
        lookup(ix.children, dir) is Some && 0 <= x < y < lookup(ix.children, dir)->0.len() implies (
        #[trigger] lookup(ix.children, dir)->0[x]).name != (#[trigger] lookup(ix.children, dir)->0[y]).name by {
        lemma_find_key(ix.children, dir);
        let p = find_key(ix.children, dir)->0;
        let keys = b.kids[p].1;
        assert(ix.children[p] == (b.kids[p].0, nodes_at(b.nodes, keys)));
        assert forall|j: int| 0 <= j < keys.len() implies lookup(b.nodes, #[trigger] keys[j]) is Some by {
            assert(lookup(b.nodes, b.kids[p].1[j]) is Some);
        }
        lemma_nodes_at_all(b.nodes, keys);
        assert(keys[x] != keys[y]) by {
            assert(b.kids[p].1[x] != b.kids[p].1[y]);
        }
        assert(keys[x].len() >= 1 && keys[x].drop_last() == b.kids[p].0) by {
            assert(b.kids[p].1[x] == keys[x]);
        }
        assert(keys[y].len() >= 1 && keys[y].drop_last() == b.kids[p].0) by {
            assert(b.kids[p].1[y] == keys[y]);
        }
        assert(lookup(b.nodes, keys[x]) is Some);
        assert(lookup(b.nodes, keys[y]) is Some);
        if keys[x].last() == keys[y].last() {
            assert(keys[x] =~= keys[x].drop_last().push(keys[x].last()));
            assert(keys[y] =~= keys[y].drop_last().push(keys[y].last()));
        }
    }
}

// ---------------------------------------------------------------------------------------------
// Building, as code
// ---------------------------------------------------------------------------------------------

pub open spec fn key_views(v: Seq<Vec<String>>) -> Seq<Key> {
    v.map_values(|k: Vec<String>| strings(k@))
}

pub open spec fn node_list(v: Seq<(Vec<String>, Node)>) -> Seq<(Key, NodeV)> {
    v.map_values(|x: (Vec<String>, Node)| (strings(x.0@), x.1@))
}

pub open spec fn kid_list(v: Seq<(Vec<String>, Vec<Vec<String>>)>) -> Seq<(Key, Seq<Key>)> {
    v.map_values(|x: (Vec<String>, Vec<Vec<String>>)| (strings(x.0@), key_views(x.1@)))
}

pub open spec fn node_views(v: Seq<Node>) -> Seq<NodeV> {
    v.map_values(|n: Node| n@)
}

pub open spec fn child_list(v: Seq<(Vec<String>, Vec<Node>)>) -> Seq<(Key, Seq<NodeV>)> {
    v.map_values(|x: (Vec<String>, Vec<Node>)| (strings(x.0@), node_views(x.1@)))
}

/// Builds an [`Index`] one entry at a time.
///
/// Children are kept as a list of paths while building, so that replacing an
/// entry (a folder the archive listed late, a duplicate name) only has to
/// touch one place. The nodes are copied into the folder listings at the end.
struct Builder {
    nodes: Vec<(Vec<String>, Node)>,
    /// Paths of each folder's children, in the order they first appeared.
    kids: Vec<(Vec<String>, Vec<Vec<String>>)>,
    refused: Vec<String>,
}

impl View for Builder {
    type V = BuildV;

    closed spec fn view(&self) -> BuildV {
        BuildV { nodes: node_list(self.nodes@), kids: kid_list(self.kids@), refused: strings(self.refused@) }
    }
}

/// Where `k` is among the nodes.
fn find_node(nodes: &Vec<(Vec<String>, Node)>, k: &Vec<String>) -> (r: Option<usize>)
    ensures
        r matches Some(j) ==> find_key(node_list(nodes@), strings(k@)) == Some(j as int),
        r is None ==> find_key(node_list(nodes@), strings(k@)) is None,
{
    let ghost all = node_list(nodes@);
    let mut i = nodes.len();
    assert(all.take(i as int) =~= all);
    while i > 0
        invariant
            i <= nodes@.len(),
            all == node_list(nodes@),
            find_key(all, strings(k@)) == find_key(all.take(i as int), strings(k@)),
        decreases i,
    {
        assert(all.take(i as int).last() == all[i - 1]);
        if strings_eq(&nodes[i - 1].0, k) {
            return Some(i - 1);
        }
        assert(all.take(i as int).drop_last() =~= all.take(i - 1));
        i -= 1;
    }
    None
}

/// Where `k` is among the folders' child lists.
fn find_kids(kids: &Vec<(Vec<String>, Vec<Vec<String>>)>, k: &Vec<String>) -> (r: Option<usize>)
    ensures
        r matches Some(j) ==> find_key(kid_list(kids@), strings(k@)) == Some(j as int),
        r is None ==> find_key(kid_list(kids@), strings(k@)) is None,
{
    let ghost all = kid_list(kids@);
    let mut i = kids.len();
    assert(all.take(i as int) =~= all);
    while i > 0
        invariant
            i <= kids@.len(),
            all == kid_list(kids@),
            find_key(all, strings(k@)) == find_key(all.take(i as int), strings(k@)),
        decreases i,
    {
        assert(all.take(i as int).last() == all[i - 1]);
        if strings_eq(&kids[i - 1].0, k) {
            return Some(i - 1);
        }
        assert(all.take(i as int).drop_last() =~= all.take(i - 1));
        i -= 1;
    }
    None
}

fn clone_keys(v: &Vec<Vec<String>>) -> (r: Vec<Vec<String>>)
    ensures
        key_views(r@) == key_views(v@),
{
    let mut r: Vec<Vec<String>> = Vec::new();
    let mut i: usize = 0;
    while i < v.len()
        invariant
            i <= v@.len(),
            key_views(r@) == key_views(v@).take(i as int),
        decreases v@.len() - i,
    {
        let ghost before = key_views(r@);
        r.push(clone_strings(&v[i]));
        i += 1;
        assert(key_views(r@) =~= before.push(strings(v@[i - 1]@)));
    }
    assert(key_views(v@).take(v@.len() as int) =~= key_views(v@));
    r
}

/// The first `n` names of `parts`.
fn prefix(parts: &Vec<String>, n: usize) -> (r: Vec<String>)
    requires
        n <= parts@.len(),
    ensures
        strings(r@) == strings(parts@).take(n as int),
{
    let mut r: Vec<String> = Vec::new();
    let mut i: usize = 0;
    while i < n
        invariant
            i <= n <= parts@.len(),
            strings(r@) == strings(parts@).take(i as int),
        decreases n - i,
    {
        let ghost before = strings(r@);
        r.push(parts[i].clone());
        i += 1;
        assert(strings(r@) =~= before.push(parts@[i - 1]@));
        assert(strings(r@) =~= strings(parts@).take(i as int));
    }
    r
}

impl Builder {
    /// Makes sure `k` has a (possibly empty) list of children.
    fn touch_kids(&mut self, k: &Vec<String>)
        ensures
            final(self)@ == (BuildV { kids: touch_kids(old(self)@.kids, strings(k@)), ..old(self)@ }),
    {
        match find_kids(&self.kids, k) {
            Some(_) => {},
            None => {
                let ghost before = kid_list(self.kids@);
                let empty: Vec<Vec<String>> = Vec::new();
                self.kids.push((clone_strings(k), empty));
                assert(key_views(empty@) =~= Seq::<Key>::empty());
                assert(kid_list(self.kids@) =~= before.push((strings(k@), Seq::<Key>::empty())));
            },
        }
    }

    /// Adds `child` to the children of `parent`.
    fn add_kid(&mut self, parent: &Vec<String>, child: &Vec<String>)
        ensures
            final(self)@ == (BuildV { kids: add_kid(old(self)@.kids, strings(parent@), strings(child@)), ..old(self)@ }),
    {
        let ghost before = kid_list(self.kids@);
        match find_kids(&self.kids, parent) {
            Some(i) => {
                proof {
                    lemma_find_key(before, strings(parent@));
                }
                let mut list = clone_keys(&self.kids[i].1);
                let ghost l0 = key_views(list@);
                list.push(clone_strings(child));
                assert(key_views(list@) =~= l0.push(strings(child@)));
                let key = clone_strings(&self.kids[i].0);
                assert(strings(key@) == strings(parent@));
                assert(key_views(list@) == before[i as int].1.push(strings(child@)));
                self.kids.set(i, (key, list));
                assert(kid_list(self.kids@) =~= before.update(
                    i as int,
                    (strings(parent@), before[i as int].1.push(strings(child@))),
                ));
            },
            None => {
                let one = vec![clone_strings(child)];
                assert(key_views(one@) =~= seq![strings(child@)]);
                self.kids.push((clone_strings(parent), one));
                assert(kid_list(self.kids@) =~= before.push((strings(parent@), seq![strings(child@)])));
            },
        }
    }

    /// Puts `node` at `parts`, unless that would make a file of a folder.
    fn put(&mut self, parts: &Vec<String>, node: Node)
        requires
            parts@.len() >= 1,
        ensures
            final(self)@ == put_spec(old(self)@, strings(parts@), node@),
    {
        let ghost b = self@;
        let ghost key = strings(parts@);
        proof {
            lemma_find_key(b.nodes, key);
        }
        match find_node(&self.nodes, parts) {
            Some(i) => {
                if self.nodes[i].1.is_dir && !node.is_dir {
                    return;
                }
                let is_dir = node.is_dir;
                let ghost nv = node@;
                self.nodes.set(i, (clone_strings(parts), node));
                assert(node_list(self.nodes@) =~= b.nodes.update(i as int, (key, nv)));
                if is_dir {
                    self.touch_kids(parts);
                }
            },
            None => {
                let parent = prefix(parts, parts.len() - 1);
                assert(strings(parts@).take(parts@.len() - 1) =~= key.drop_last());
                self.add_kid(&parent, parts);
                let is_dir = node.is_dir;
                let ghost nv = node@;
                let ghost before = node_list(self.nodes@);
                self.nodes.push((clone_strings(parts), node));
                assert(node_list(self.nodes@) =~= before.push((key, nv)));
                if is_dir {
                    self.touch_kids(parts);
                }
            },
        }
    }

    /// Makes sure every folder above `parts` exists, inventing the ones the
    /// archive never mentioned.
    fn make_ancestors(&mut self, parts: &Vec<String>)
        ensures
            final(self)@ == ancestors_spec(old(self)@, strings(parts@), 1),
    {
        let mut depth: usize = 1;
        while depth < parts.len()
            invariant
                1 <= depth,
                ancestors_spec(old(self)@, strings(parts@), 1) == ancestors_spec(self@, strings(parts@), depth as int),
            decreases parts@.len() - depth,
        {
            let branch = prefix(parts, depth);
            let ghost b = self@;
            let ghost key = strings(branch@);
            proof {
                lemma_find_key(b.nodes, key);
                assert(key.last() == parts@[depth - 1]@);
            }
            let name = parts[depth - 1].clone();
            let folder = Node { name, is_dir: true, size: 0, modified: None, slot: None };
            assert(folder@ == invented(key));
            match find_node(&self.nodes, &branch) {
                Some(i) => {
                    if !self.nodes[i].1.is_dir {
                        self.nodes.set(i, (clone_strings(&branch), folder));
                        assert(node_list(self.nodes@) =~= b.nodes.update(i as int, (key, invented(key))));
                        self.touch_kids(&branch);
                    }
                },
                None => {
                    self.put(&branch, folder);
                },
            }
            depth += 1;
        }
    }
}

/// Splits a stored name into usable parts, or refuses it.
fn normalize(name: &str) -> (r: Option<Vec<String>>)
    ensures
        match archive_parts(name@) {
            Some(p) => r matches Some(v) && strings(v@) == p,
            None => r is None,
        },
{
    let chars = chars_of(name);
    let pieces = split_chars(&chars, '/');
    let ghost all = char_vecs(pieces@);
    let mut parts: Vec<String> = Vec::new();
    let mut i: usize = 0;
    assert(all.take(0) =~= Seq::<Seq<char>>::empty());
    while i < pieces.len()
        invariant
            all == char_vecs(pieces@),
            all == split_on(name@, '/'),
            i <= pieces@.len(),
            usable_pieces(all.take(i as int)) == Some(strings(parts@)),
        decreases pieces@.len() - i,
    {
        let piece = &pieces[i];
        let ghost t = all.take(i + 1);
        proof {
            assert(t.drop_last() =~= all.take(i as int));
            assert(t.last() == piece@);
        }
        let is_dot_dot = piece.len() == 2 && piece[0] == '.' && piece[1] == '.';
        let is_dot = piece.len() == 1 && piece[0] == '.';
        proof {
            assert(is_dot_dot == (piece@ == dot_dot_piece())) by {
                if piece@ == dot_dot_piece() {
                    assert(piece@[0] == '.' && piece@[1] == '.');
                }
                if is_dot_dot {
                    assert(piece@ =~= dot_dot_piece());
                }
            }
            assert(is_dot == (piece@ == dot_piece())) by {
                if is_dot {
                    assert(piece@ =~= dot_piece());
                }
            }
        }
        if is_dot_dot {
            proof {
                lemma_usable_pieces_refuse(all, i as int);
            }
            return None;
        }
        if piece.len() != 0 && !is_dot {
            let ghost before = strings(parts@);
            parts.push(string_of(piece));
            assert(strings(parts@) =~= before.push(piece@));
        }
        i += 1;
    }
    assert(all.take(pieces@.len() as int) =~= all);
    if parts.len() == 0 {
        None
    } else {
        Some(parts)
    }
}

/// A browsable tree built from an archive's flat list of entries.
#[derive(Debug)]
pub struct Index {
    /// The children of each folder, keyed by the folder's path. The root is `[]`.
    children: Vec<(Vec<String>, Vec<Node>)>,
    /// Every entry by full path, so a single file can be looked up directly.
    nodes: Vec<(Vec<String>, Node)>,
    /// Entries we refused to index, so the UI can say something is missing
    /// instead of quietly pretending the archive was smaller than it is.
    refused: Vec<String>,
}

impl View for Index {
    type V = IndexV;

    closed spec fn view(&self) -> IndexV {
        IndexV { children: child_list(self.children@), nodes: node_list(self.nodes@), refused: strings(self.refused@) }
    }
}

pub open spec fn raw_views(v: Seq<RawEntry>) -> Seq<RawV> {
    v.map_values(|r: RawEntry| r@)
}

impl Index {
    pub fn build(entries: Vec<RawEntry>) -> (r: Index)
        ensures
            r@ == index_of(raw_views(entries@)),
    {
        let ghost all = raw_views(entries@);
        let root: Vec<String> = Vec::new();
        let no_kids: Vec<Vec<String>> = Vec::new();
        let mut builder = Builder { nodes: Vec::new(), kids: vec![(root, no_kids)], refused: Vec::new() };
        proof {
            assert(strings(root@) =~= Seq::<Seq<char>>::empty());
            assert(key_views(no_kids@) =~= Seq::<Key>::empty());
            assert(builder@.kids =~= empty_build().kids);
            assert(builder@.nodes =~= empty_build().nodes);
            assert(builder@.refused =~= empty_build().refused);
            assert(all.take(0) =~= Seq::<RawV>::empty());
        }
        let mut i: usize = 0;
        while i < entries.len()
            invariant
                all == raw_views(entries@),
                i <= entries@.len(),
                builder@ == build_spec(all.take(i as int)),
            decreases entries@.len() - i,
        {
            let raw = &entries[i];
            let ghost t = all.take(i + 1);
            proof {
                assert(t.drop_last() =~= all.take(i as int));
                assert(t.last() == raw@);
            }
            let n = raw.name.as_str();
            match normalize(n) {
                None => {
                    let ghost before = strings(builder.refused@);
                    builder.refused.push(raw.name.clone());
                    assert(strings(builder.refused@) =~= before.push(raw.name@));
                },
                Some(parts) => {
                    let cs = chars_of(n);
                    let is_dir = cs.len() > 0 && cs[cs.len() - 1] == '/';
                    builder.make_ancestors(&parts);
                    let last = parts[parts.len() - 1].clone();
                    let node = Node {
                        name: last,
                        is_dir,
                        size: if is_dir { 0 } else { raw.size },
                        modified: raw.modified,
                        slot: Some(raw.slot),
                    };
                    builder.put(&parts, node);
                },
            }
            i += 1;
        }
        assert(all.take(entries@.len() as int) =~= all);
        finish(builder)
    }

    /// The direct children of a folder, or `None` if there's no folder there.
    pub fn list(&self, dir: &Vec<String>) -> (r: Option<&[Node]>)
        ensures
            match lookup(self@.children, strings(dir@)) {
                Some(kids) => r matches Some(s) && node_views(s@) == kids,
                None => r is None,
            },
    {
        let ghost all = child_list(self.children@);
        let mut i = self.children.len();
        assert(all.take(i as int) =~= all);
        while i > 0
            invariant
                i <= self.children@.len(),
                all == child_list(self.children@),
                find_key(all, strings(dir@)) == find_key(all.take(i as int), strings(dir@)),
            decreases i,
        {
            assert(all.take(i as int).last() == all[i - 1]);
            if strings_eq(&self.children[i - 1].0, dir) {
                return Some(self.children[i - 1].1.as_slice());
            }
            assert(all.take(i as int).drop_last() =~= all.take(i - 1));
            i -= 1;
        }
        None
    }

    /// One entry by its full path inside the archive.
    pub fn get(&self, path: &Vec<String>) -> (r: Option<&Node>)
        ensures
            match lookup(self@.nodes, strings(path@)) {
                Some(n) => r matches Some(x) && x@ == n,
                None => r is None,
            },
    {
        proof {
            lemma_find_key(node_list(self.nodes@), strings(path@));
        }
        match find_node(&self.nodes, path) {
            Some(i) => Some(&self.nodes[i].1),
            None => None,
        }
    }

    /// Stored names the archive contained that we wouldn't index.
    pub fn refused(&self) -> (r: &[String])
        ensures
            strings(r@) == self@.refused,
    {
        self.refused.as_slice()
    }
}

/// The nodes at `keys`, in order, leaving out any key with no node.
fn nodes_for(nodes: &Vec<(Vec<String>, Node)>, keys: &Vec<Vec<String>>) -> (r: Vec<Node>)
    ensures
        node_views(r@) == nodes_at(node_list(nodes@), key_views(keys@)),
{
    let ghost ks = key_views(keys@);
    let mut out: Vec<Node> = Vec::new();
    let mut i: usize = 0;
    assert(ks.take(0) =~= Seq::<Key>::empty());
    assert(node_views(out@) =~= Seq::<NodeV>::empty());
    while i < keys.len()
        invariant
            ks == key_views(keys@),
            i <= keys@.len(),
            node_views(out@) == nodes_at(node_list(nodes@), ks.take(i as int)),
        decreases keys@.len() - i,
    {
        let ghost t = ks.take(i + 1);
        proof {
            assert(t.drop_last() =~= ks.take(i as int));
            assert(t.last() == strings(keys@[i as int]@));
            lemma_find_key(node_list(nodes@), t.last());
        }
        match find_node(nodes, &keys[i]) {
            Some(j) => {
                let ghost before = node_views(out@);
                out.push(nodes[j].1.clone());
                assert(node_views(out@) =~= before.push(nodes@[j as int].1@));
            },
            None => {},
        }
        i += 1;
    }
    assert(ks.take(keys@.len() as int) =~= ks);
    out
}

fn finish(b: Builder) -> (r: Index)
    ensures
        r@ == finish_spec(b@),
{
    let ghost bv = b@;
    let mut children: Vec<(Vec<String>, Vec<Node>)> = Vec::new();
    let mut i: usize = 0;
    while i < b.kids.len()
        invariant
            i <= b.kids@.len(),
            bv == b@,
            child_list(children@) == bv.kids.take(i as int).map_values(
                |x: (Key, Seq<Key>)| (x.0, nodes_at(bv.nodes, x.1)),
            ),
        decreases b.kids@.len() - i,
    {
        let list = nodes_for(&b.nodes, &b.kids[i].1);
        let key = clone_strings(&b.kids[i].0);
        let ghost before = child_list(children@);
        let ghost lv = node_views(list@);
        children.push((key, list));
        proof {
            assert(child_list(children@) =~= before.push((strings(b.kids@[i as int].0@), lv)));
            assert(bv.kids[i as int] == (strings(b.kids@[i as int].0@), key_views(b.kids@[i as int].1@)));
            assert(bv.kids.take(i + 1) =~= bv.kids.take(i as int).push(bv.kids[i as int]));
            assert(child_list(children@) =~= bv.kids.take(i + 1).map_values(
                |x: (Key, Seq<Key>)| (x.0, nodes_at(bv.nodes, x.1)),
            ));
        }
        i += 1;
    }
    assert(bv.kids.take(b.kids@.len() as int) =~= bv.kids);
    Index { children, nodes: b.nodes, refused: b.refused }
}

} // verus!
