//! What the archive backend decides, apart from reading files: which archive a
//! path points into, how an indexed entry is shown, and which archives stay
//! open. Opening an archive means reading its table of contents and building
//! its index, which is worth doing once rather than per keystroke, so a few of
//! the most recently used stay open; one that changed on disk is told apart by
//! its size and time and read again.
use vstd::prelude::*;

use crate::archive::index::{lookup, node_views, Index, Node, NodeV};
use crate::entry::{Entry, EntryKind, EntryV, Permissions};
use crate::sort::entry_views;
use crate::error::Error;
use crate::text::{push_str, str_eq, strings};
use crate::vpath::{same_path, spec_display, spec_file_name, spec_join, spec_outer, valid_name, PathV, VPath};

verus! {

/// How many archives stay open at once. Two panels can show two archives, and
/// a copy between them needs both, so a handful covers the real cases.
pub const KEEP_OPEN: usize = 4;

/// The formats this backend reads.
#[derive(Debug, Clone, Copy, PartialEq, Eq, Structural)]
pub enum ArchiveFormat {
    Zip,
    Tar,
}

/// The reader for an archive of kind `kind` (the scheme of its layer).
pub fn archive_format(kind: &str) -> (r: Option<ArchiveFormat>)
    ensures
        r == (if kind@ == "zip"@ {
            Some(ArchiveFormat::Zip)
        } else if kind@ == "tar"@ {
            Some(ArchiveFormat::Tar)
        } else {
            None
        }),
{
    if str_eq(kind, "zip") {
        Some(ArchiveFormat::Zip)
    } else if str_eq(kind, "tar") {
        Some(ArchiveFormat::Tar)
    } else {
        None
    }
}

/// The error for a path this backend can't open.
pub open spec fn unsupported_here(path: PathV, e: Error) -> bool {
    e matches Error::Unsupported { backend, path: p } && backend@ == "archive"@ && p@ == path
}

/// The archive `path` points into, the archive's kind, and the path inside it.
/// The archive has to be a plain file on the local disk: one inside another
/// archive would have to be extracted first.
pub fn archive_target(path: &VPath) -> (r: Result<(VPath, String, Vec<String>), Error>)
    ensures
        r is Ok <==> (path@.layers.len() > 0 && path@.base is Local && path@.layers.len() == 1),
        r matches Ok((c, kind, inside)) ==> Some(c@) == spec_outer(path@) && kind@ == path@.layers.last().kind
            && strings(inside@) == path@.layers.last().parts,
        r matches Err(e) ==> unsupported_here(path@, e),
{
    proof {
        reveal_strlit("archive");
    }
    let layers = path.layers();
    if layers.len() == 0 {
        return Err(Error::Unsupported { backend: "archive".to_owned(), path: path.clone() });
    }
    let layer = &layers[layers.len() - 1];
    let container = match path.outer() {
        Some(c) => c,
        None => return Err(Error::Unsupported { backend: "archive".to_owned(), path: path.clone() }),
    };
    if container.as_local().is_none() {
        return Err(Error::Unsupported { backend: "archive".to_owned(), path: path.clone() });
    }
    let inside = copy_names(layer.path.parts());
    Ok((container, layer.kind.clone(), inside))
}

fn copy_names(v: &[String]) -> (r: Vec<String>)
    ensures
        strings(r@) == strings(v@),
{
    let mut r: Vec<String> = Vec::new();
    let mut i: usize = 0;
    while i < v.len()
        invariant
            i <= v@.len(),
            strings(r@) == strings(v@.take(i as int)),
        decreases v@.len() - i,
    {
        let ghost before = strings(r@);
        r.push(v[i].clone());
        assert(strings(r@) =~= before.push(v@[i as int]@));
        assert(strings(v@.take(i + 1)) =~= strings(v@.take(i as int)).push(v@[i as int]@));
        i += 1;
    }
    assert(v@.take(v@.len() as int) =~= v@);
    r
}

/// The error for trying to change something inside an archive.
pub fn read_only_error(path: &VPath) -> (r: Error)
    ensures
        r matches Error::InvalidOperation(m) && m@ == spec_display(path@) + " is inside an archive, which is read-only"@,
{
    let mut m = path.to_string();
    push_str(&mut m, " is inside an archive, which is read-only");
    Error::InvalidOperation(m)
}

/// How an indexed entry is shown at `path`: a folder or a file, read-only,
/// hidden when its name starts with a dot, with no creation or access time.
pub open spec fn node_entry_spec(path: PathV, n: NodeV) -> EntryV {
    EntryV {
        name: n.name,
        path,
        kind: if n.is_dir {
            EntryKind::Dir
        } else {
            EntryKind::File
        },
        size: n.size,
        modified: n.modified,
        created: None,
        accessed: None,
        permissions: Permissions { readonly: true, unix_mode: None },
        hidden: n.name.len() > 0 && n.name[0] == '.',
        link_target: None,
    }
}

/// The root of an archive, which stands in for the archive file: a folder by
/// the archive's own name.
pub open spec fn archive_root_spec(path: PathV) -> EntryV {
    EntryV {
        name: match spec_file_name(path) {
            Some(n) => n,
            None => Seq::empty(),
        },
        path,
        kind: EntryKind::Dir,
        size: 0,
        modified: None,
        created: None,
        accessed: None,
        permissions: Permissions { readonly: true, unix_mode: None },
        hidden: false,
        link_target: None,
    }
}

/// An indexed entry as it is shown at `path`.
pub fn node_entry(path: VPath, node: &Node) -> (r: Entry)
    ensures
        r@ == node_entry_spec(path@, node@),
{
    let cs = crate::text::chars_of(node.name.as_str());
    let hidden = cs.len() > 0 && cs[0] == '.';
    Entry {
        name: node.name.clone(),
        path,
        kind: if node.is_dir {
            EntryKind::Dir
        } else {
            EntryKind::File
        },
        size: node.size,
        modified: node.modified,
        created: None,
        accessed: None,
        permissions: Permissions { readonly: true, unix_mode: None },
        hidden,
        link_target: None,
    }
}

/// What looking up `inside` of an opened archive, shown at `path`, gives: the
/// root stands in for the archive file, anything else is its indexed entry or
/// isn't there.
pub fn stat_in(index: &Index, path: VPath, inside: &Vec<String>) -> (r: Result<Entry, Error>)
    ensures
        inside@.len() == 0 ==> (r matches Ok(e) && e@ == archive_root_spec(path@)),
        inside@.len() > 0 ==> match lookup(index@.nodes, strings(inside@)) {
            Some(n) => r matches Ok(e) && e@ == node_entry_spec(path@, n),
            None => r matches Err(Error::NotFound(p)) && p@ == path@,
        },
{
    if inside.len() == 0 {
        let name = match path.file_name() {
            Some(n) => n,
            None => String::new(),
        };
        let e = Entry {
            name,
            path,
            kind: EntryKind::Dir,
            size: 0,
            modified: None,
            created: None,
            accessed: None,
            permissions: Permissions { readonly: true, unix_mode: None },
            hidden: false,
            link_target: None,
        };
        proof {
            assert(e@.name == archive_root_spec(e@.path).name);
        }
        return Ok(e);
    }
    match index.get(inside) {
        Some(node) => Ok(node_entry(path, node)),
        None => Err(Error::NotFound(path)),
    }
}

/// The entries of `nodes`, each shown inside the folder at `dir`.
pub open spec fn listing_spec(dir: PathV, nodes: Seq<NodeV>) -> Seq<EntryV> {
    nodes.map_values(|n: NodeV| node_entry_spec(spec_join(dir, n.name), n))
}

/// The listing of the folder at `inside` of an opened archive, shown at `path`:
/// not found when nothing is there, not a folder when a file is. A name that
/// can't be a path's last part makes the listing fail.
pub fn list_in(index: &Index, path: &VPath, inside: &Vec<String>) -> (r: Result<Vec<Entry>, Error>)
    ensures
        match lookup(index@.children, strings(inside@)) {
            Some(kids) => {
                &&& r is Ok <==> forall|i: int| 0 <= i < kids.len() ==> valid_name(#[trigger] kids[i].name)
                &&& r matches Ok(v) ==> entry_views(v@) == listing_spec(path@, kids)
                &&& r matches Err(e) ==> e is InvalidPath
            },
            None => if lookup(index@.nodes, strings(inside@)) is Some {
                r matches Err(Error::NotADirectory(p)) && p@ == path@
            } else {
                r matches Err(Error::NotFound(p)) && p@ == path@
            },
        },
{
    let nodes = match index.list(inside) {
        Some(nodes) => nodes,
        None => {
            return Err(
                if index.get(inside).is_some() {
                    Error::NotADirectory(path.clone())
                } else {
                    Error::NotFound(path.clone())
                },
            );
        },
    };
    let ghost kids = node_views(nodes@);
    let mut out: Vec<Entry> = Vec::new();
    let mut i: usize = 0;
    while i < nodes.len()
        invariant
            kids == node_views(nodes@),
            lookup(index@.children, strings(inside@)) == Some(kids),
            i <= nodes@.len(),
            entry_views(out@) == listing_spec(path@, kids.take(i as int)),
            forall|j: int| 0 <= j < i ==> valid_name(#[trigger] kids[j].name),
        decreases nodes@.len() - i,
    {
        let child = match path.join(nodes[i].name.as_str()) {
            Ok(c) => c,
            Err(e) => {
                proof {
                    assert(kids[i as int] == nodes@[i as int]@);
                    assert(!valid_name(kids[i as int].name));
                }
                return Err(e);
            },
        };
        let ghost before = entry_views(out@);
        out.push(node_entry(child, &nodes[i]));
        proof {
            assert(entry_views(out@) =~= before.push(out@[i as int]@));
            assert(kids.take(i + 1) =~= kids.take(i as int).push(kids[i as int]));
            assert(listing_spec(path@, kids.take(i + 1)) =~= listing_spec(path@, kids.take(i as int)).push(
                node_entry_spec(spec_join(path@, kids[i as int].name), kids[i as int]),
            ));
        }
        i += 1;
    }
    assert(kids.take(nodes@.len() as int) =~= kids);
    Ok(out)
}

// ---------------------------------------------------------------------------------------------
// The archives kept open
// ---------------------------------------------------------------------------------------------

/// What makes one opened archive different from another, including enough of
/// the file's details to notice that it has been replaced.
#[derive(Debug)]
pub struct ArchiveKey {
    pub container: VPath,
    pub kind: String,
    pub size: u64,
    pub modified: Option<i128>,
}

pub struct ArchiveKeyV {
    pub container: PathV,
    pub kind: Seq<char>,
    pub size: u64,
    pub modified: Option<i128>,
}

impl View for ArchiveKey {
    type V = ArchiveKeyV;

    open spec fn view(&self) -> ArchiveKeyV {
        ArchiveKeyV { container: self.container@, kind: self.kind@, size: self.size, modified: self.modified }
    }
}

/// The archives kept open, most recently used first, each with what was built
/// when it was opened.
pub struct OpenArchives<V> {
    items: Vec<(ArchiveKey, V)>,
}

pub open spec fn item_views<V>(s: Seq<(ArchiveKey, V)>) -> Seq<(ArchiveKeyV, V)> {
    s.map_values(|x: (ArchiveKey, V)| (x.0@, x.1))
}

impl<V> View for OpenArchives<V> {
    type V = Seq<(ArchiveKeyV, V)>;

    closed spec fn view(&self) -> Seq<(ArchiveKeyV, V)> {
        item_views(self.items@)
    }
}

/// Where `key` first is.
pub open spec fn first_match<V>(s: Seq<(ArchiveKeyV, V)>, key: ArchiveKeyV) -> Option<int>
    decreases s.len(),
{
    if s.len() == 0 {
        None
    } else if s[0].0 == key {
        Some(0)
    } else {
        match first_match(s.drop_first(), key) {
            Some(i) => Some(i + 1),
            None => None,
        }
    }
}

/// `s` after `key` is used again: the entry moves to the front.
pub open spec fn bring_forward_spec<V>(s: Seq<(ArchiveKeyV, V)>, key: ArchiveKeyV) -> Seq<(ArchiveKeyV, V)> {
    match first_match(s, key) {
        Some(i) => s.remove(i).insert(0, s[i]),
        None => s,
    }
}

/// The same archive file read as the same kind of archive.
pub open spec fn same_archive(a: ArchiveKeyV, b: ArchiveKeyV) -> bool {
    a.container == b.container && a.kind == b.kind
}

/// `s` after an archive was opened: any older opening of the same archive is
/// dropped, the new one goes in front, and only the most recent few are kept.
pub open spec fn remember_spec<V>(s: Seq<(ArchiveKeyV, V)>, key: ArchiveKeyV, value: V) -> Seq<(ArchiveKeyV, V)> {
    let kept = s.filter(|x: (ArchiveKeyV, V)| !same_archive(x.0, key)).insert(0, (key, value));
    if kept.len() <= KEEP_OPEN {
        kept
    } else {
        kept.take(KEEP_OPEN as int)
    }
}

/// At most a few archives, and never two openings of the same one.
pub open spec fn open_wf<V>(s: Seq<(ArchiveKeyV, V)>) -> bool {
    &&& s.len() <= KEEP_OPEN
    &&& forall|i: int, j: int| 0 <= i < j < s.len() ==> !same_archive(#[trigger] s[i].0, #[trigger] s[j].0)
}

fn same_key(a: &ArchiveKey, b: &ArchiveKey) -> (r: bool)
    ensures
        r == (a@ == b@),
{
    let times_agree = match (a.modified, b.modified) {
        (Some(x), Some(y)) => x == y,
        (None, None) => true,
        _ => false,
    };
    same_path(&a.container, &b.container) && str_eq(a.kind.as_str(), b.kind.as_str()) && a.size == b.size
        && times_agree
}

proof fn lemma_first_match<V>(s: Seq<(ArchiveKeyV, V)>, key: ArchiveKeyV)
    ensures
        first_match(s, key) matches Some(i) ==> 0 <= i < s.len() && s[i].0 == key && forall|j: int|
            0 <= j < i ==> s[j].0 != key,
        first_match(s, key) is None ==> forall|j: int| 0 <= j < s.len() ==> s[j].0 != key,
    decreases s.len(),
{
    if s.len() > 0 {
        lemma_first_match(s.drop_first(), key);
        assert forall|j: int| 0 < j < s.len() implies s[j] == s.drop_first()[j - 1] by {}
    }
}

impl<V> OpenArchives<V> {
    pub fn new() -> (r: Self)
        ensures
            r@ == Seq::<(ArchiveKeyV, V)>::empty(),
            open_wf(r@),
    {
        let r = OpenArchives { items: Vec::new() };
        assert(r@ =~= Seq::<(ArchiveKeyV, V)>::empty());
        r
    }

    /// Looks for an archive opened under `key`; if it's there it becomes the
    /// most recently used.
    pub fn bring_forward(&mut self, key: &ArchiveKey) -> (found: bool)
        ensures
            found == first_match(old(self)@, key@) is Some,
            final(self)@ == bring_forward_spec(old(self)@, key@),
            open_wf(old(self)@) ==> open_wf(final(self)@),
    {
        let ghost before = self@;
        let mut i: usize = 0;
        while i < self.items.len()
            invariant
                before == self@,
                before == old(self)@,
                i <= self.items@.len(),
                forall|j: int| 0 <= j < i ==> before[j].0 != key@,
            decreases self.items@.len() - i,
        {
            if same_key(&self.items[i].0, key) {
                proof {
                    assert(before[i as int] == (self.items@[i as int].0@, self.items@[i as int].1));
                    lemma_first_match(before, key@);
                    if let Some(m) = first_match(before, key@) {
                        if m > i {
                            assert(before[i as int].0 != key@);
                        }
                    }
                    assert(first_match(before, key@) == Some(i as int));
                }
                let item = self.items.remove(i);
                self.items.insert(0, item);
                proof {
                    let after = bring_forward_spec(before, key@);
                    assert(self@ =~= after);
                    if open_wf(before) {
                        assert forall|a: int, b: int| 0 <= a < b < after.len() implies !same_archive(
                            #[trigger] after[a].0,
                            #[trigger] after[b].0,
                        ) by {
                            let oa = if a == 0 { i as int } else if a <= i { a - 1 } else { a };
                            let ob = if b <= i { b - 1 } else { b };
                            assert(after[a] == before[oa] && after[b] == before[ob]);
                            if oa < ob {
                                assert(!same_archive(before[oa].0, before[ob].0));
                            } else {
                                assert(!same_archive(before[ob].0, before[oa].0));
                            }
                        }
                    }
                }
                return true;
            }
            i += 1;
        }
        proof {
            lemma_first_match(before, key@);
            if first_match(before, key@) is Some {
                let m = first_match(before, key@)->0;
                assert(before[m].0 != key@);
            }
        }
        false
    }

    /// The most recently used archive's contents.
    pub fn most_recent(&self) -> (r: Option<&V>)
        ensures
            r matches Some(v) ==> self@.len() > 0 && *v == self@[0].1,
            r is None <==> self@.len() == 0,
    {
        if self.items.len() > 0 {
            Some(&self.items[0].1)
        } else {
            None
        }
    }

    /// Keeps `value`, just opened under `key`, as the most recently used.
    pub fn remember(&mut self, key: ArchiveKey, value: V)
        ensures
            final(self)@ == remember_spec(old(self)@, key@, value),
            open_wf(old(self)@) ==> open_wf(final(self)@),
    {
        let ghost before = self@;
        let ghost kv = key@;
        let mut old_items: Vec<(ArchiveKey, V)> = Vec::new();
        std::mem::swap(&mut old_items, &mut self.items);
        let ghost all = old_items@;
        let mut kept: Vec<(ArchiveKey, V)> = Vec::new();
        let ghost pred = |x: (ArchiveKeyV, V)| !same_archive(x.0, kv);
        let mut taken: usize = 0;
        let n = old_items.len();
        assert(item_views(all) == before);
        while old_items.len() > 0
            invariant
                item_views(all) == before,
                n == all.len(),
                taken + old_items@.len() == n,
                old_items@ == all.skip(taken as int),
                item_views(kept@) == before.take(taken as int).filter(pred),
                kv == key@,
                pred == (|x: (ArchiveKeyV, V)| !same_archive(x.0, kv)),
            decreases old_items@.len(),
        {
            let item = old_items.remove(0);
            proof {
                assert(before.take(taken + 1) =~= before.take(taken as int).push(before[taken as int]));
                before.take(taken as int).lemma_filter_push(before[taken as int], pred);
                assert(item_views(seq![item]) =~= seq![(item.0@, item.1)]);
                assert(all[taken as int] == item);
                assert(old_items@ =~= all.skip(taken + 1));
            }
            let keep = !(same_path(&item.0.container, &key.container) && str_eq(
                item.0.kind.as_str(),
                key.kind.as_str(),
            ));
            if keep {
                let ghost kb = kept@;
                kept.push(item);
                assert(item_views(kept@) =~= item_views(kb).push((item.0@, item.1)));
            }
            taken += 1;
        }
        assert(before.take(n as int) =~= before);
        let ghost filtered = item_views(kept@);
        kept.insert(0, (key, value));
        assert(item_views(kept@) =~= filtered.insert(0, (kv, value)));
        kept.truncate(KEEP_OPEN);
        self.items = kept;
        proof {
            let f = before.filter(pred);
            let r = remember_spec(before, kv, value);
            assert(self@ =~= r);
            if open_wf(before) {
                lemma_filter_keeps_apart(before, kv, pred);
                let ins = f.insert(0, (kv, value));
                assert forall|a: int, b: int| 0 <= a < b < r.len() implies !same_archive(
                    #[trigger] r[a].0,
                    #[trigger] r[b].0,
                ) by {
                    assert(r[a] == ins[a] && r[b] == ins[b]);
                    if a == 0 {
                        assert(ins[b] == f[b - 1]);
                    } else {
                        assert(ins[a] == f[a - 1] && ins[b] == f[b - 1]);
                    }
                }
            }
        }
    }
}

/// Filtering out one archive's openings keeps the rest apart from each other and
/// from it.
proof fn lemma_filter_keeps_apart<V>(
    s: Seq<(ArchiveKeyV, V)>,
    key: ArchiveKeyV,
    pred: spec_fn((ArchiveKeyV, V)) -> bool,
)
    requires
        open_wf(s),
        pred == (|x: (ArchiveKeyV, V)| !same_archive(x.0, key)),
    ensures
        forall|i: int| 0 <= i < s.filter(pred).len() ==> !same_archive(#[trigger] s.filter(pred)[i].0, key),
        forall|i: int, j: int|
            0 <= i < j < s.filter(pred).len() ==> !same_archive(
                #[trigger] s.filter(pred)[i].0,
                #[trigger] s.filter(pred)[j].0,
            ),
    decreases s.len(),
{
    reveal(Seq::filter);
    if s.len() > 0 {
        let d = s.drop_last();
        assert forall|i: int, j: int| 0 <= i < j < d.len() implies !same_archive(#[trigger] d[i].0, #[trigger] d[j].0) by {
            assert(d[i] == s[i] && d[j] == s[j]);
        }
        lemma_filter_keeps_apart(d, key, pred);
        let fd = d.filter(pred);
        if pred(s.last()) {
            assert(s.filter(pred) == fd.push(s.last()));
            assert forall|i: int| 0 <= i < fd.len() implies !same_archive(#[trigger] fd[i].0, s.last().0) by {
                assert(fd.contains(fd[i]));
                d.lemma_filter_contains_rev(pred, fd[i]);
                let m = choose|m: int| 0 <= m < d.len() && d[m] == fd[i];
                assert(s[m] == d[m]);
                assert(!same_archive(s[m].0, s[s.len() - 1].0));
            }
        }
    }
}

} // verus!
