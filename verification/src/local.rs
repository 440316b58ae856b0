//! The backend for the local computer's disks.
use vstd::prelude::*;

use crate::entry::{opt_string_view, Entry, EntryKind, LinkTarget, Permissions};
use crate::text::chars_of;
use crate::vfs::Capabilities;
use crate::vpath::VPath;

verus! {

/// The backend for the local computer's disks. It only accepts plain local
/// paths; paths inside archives or on servers are handled by other backends.
#[derive(Debug, Default, Clone, Copy)]
pub struct LocalFs;

impl LocalFs {
    pub fn new() -> (r: Self) {
        LocalFs
    }

    /// What the local disks allow, on the Unix desktops this build is for:
    /// everything, including watching folders and a trash.
    pub fn capabilities(&self) -> (r: Capabilities)
        ensures
            r == (Capabilities {
                can_write: true,
                has_unix_permissions: true,
                has_symlinks: true,
                can_watch: true,
                has_trash: true,
            }),
    {
        Capabilities { can_write: true, has_unix_permissions: true, has_symlinks: true, can_watch: true, has_trash: true }
    }
}

/// What a folder watch reported, by the kind of operation; the details inside
/// each kind make no difference to whether a panel should look again.
#[derive(Debug, Clone, Copy, PartialEq, Eq, Structural)]
pub enum ChangeKind {
    Any,
    Access,
    Create,
    Modify,
    Remove,
    Other,
}

/// Events that change nothing a panel shows.
///
/// Reading a file fires access events on Linux, so without this a panel would
/// reload itself every time anything opened a file in it, previews included.
pub fn is_noise(kind: ChangeKind) -> (r: bool)
    ensures
        r == (kind is Access),
{
    match kind {
        ChangeKind::Access => true,
        _ => false,
    }
}

/// What the disk says a name is, links not followed.
#[derive(Debug, Clone, Copy, PartialEq, Eq, Structural)]
pub enum DiskKind {
    Dir,
    File,
    Symlink,
    Other,
}

/// What the disk reports about one name, links not followed, as plain values.
/// Times are nanoseconds since the Unix epoch.
#[derive(Debug, Clone, Copy, PartialEq, Eq, Structural)]
pub struct DiskMeta {
    pub kind: DiskKind,
    pub len: u64,
    pub modified: Option<i128>,
    pub created: Option<i128>,
    pub accessed: Option<i128>,
    pub readonly: bool,
    /// The whole `st_mode`, file type bits included.
    pub mode: u32,
}

pub open spec fn disk_link_target(k: DiskKind) -> LinkTarget {
    match k {
        DiskKind::Dir => LinkTarget::Dir,
        DiskKind::File => LinkTarget::File,
        _ => LinkTarget::Other,
    }
}

pub open spec fn disk_kind_spec(meta: DiskMeta, followed: Option<(DiskKind, u64)>) -> EntryKind {
    match meta.kind {
        DiskKind::Dir => EntryKind::Dir,
        DiskKind::File => EntryKind::File,
        DiskKind::Symlink => EntryKind::Symlink {
            target: match followed {
                Some(f) => Some(disk_link_target(f.0)),
                None => None,
            },
        },
        DiskKind::Other => EntryKind::Other,
    }
}

/// The size shown: a link shows what it points at, a folder (or a link to
/// one) shows nothing.
pub open spec fn disk_size_spec(meta: DiskMeta, followed: Option<(DiskKind, u64)>) -> u64 {
    if disk_kind_spec(meta, followed).spec_is_dir_like() {
        0
    } else if meta.kind == DiskKind::Symlink && followed is Some {
        followed.unwrap().1
    } else {
        meta.len
    }
}

/// An [`Entry`] from what the disk said about `name` at `path`. For a link,
/// `link_text` is where it points, as stored, and `followed` what the far end
/// is and how big (`None` for a broken link, which is shown, never hidden).
/// Names starting with a dot are hidden; the permission bits are the low twelve
/// of the mode.
pub fn local_entry(
    name: String,
    path: VPath,
    meta: DiskMeta,
    link_text: Option<String>,
    followed: Option<(DiskKind, u64)>,
) -> (r: Entry)
    ensures
        r@.name == name@,
        r@.path == path@,
        r@.kind == disk_kind_spec(meta, followed),
        r@.size == disk_size_spec(meta, followed),
        r@.modified == meta.modified,
        r@.created == meta.created,
        r@.accessed == meta.accessed,
        r@.permissions == (Permissions { readonly: meta.readonly, unix_mode: Some(meta.mode & 0o7777u32) }),
        r@.hidden == (name@.len() > 0 && name@[0] == '.'),
        r@.link_target == (if meta.kind == DiskKind::Symlink {
            opt_string_view(link_text)
        } else {
            None
        }),
{
    let cs = chars_of(name.as_str());
    let hidden = cs.len() > 0 && cs[0] == '.';
    let mut size = meta.len;
    let (kind, link_target) = match meta.kind {
        DiskKind::Dir => (EntryKind::Dir, None),
        DiskKind::File => (EntryKind::File, None),
        DiskKind::Symlink => {
            let target = match followed {
                Some((DiskKind::Dir, n)) => {
                    size = n;
                    Some(LinkTarget::Dir)
                },
                Some((DiskKind::File, n)) => {
                    size = n;
                    Some(LinkTarget::File)
                },
                Some((_, n)) => {
                    size = n;
                    Some(LinkTarget::Other)
                },
                None => None,
            };
            (EntryKind::Symlink { target }, link_text)
        },
        DiskKind::Other => (EntryKind::Other, None),
    };
    if kind.is_dir_like() {
        size = 0;
    }
    Entry {
        name,
        path,
        kind,
        size,
        modified: meta.modified,
        created: meta.created,
        accessed: meta.accessed,
        permissions: Permissions { readonly: meta.readonly, unix_mode: Some(meta.mode & 0o7777u32) },
        hidden,
        link_target,
    }
}

pub open spec fn plain_kind(k: Option<DiskKind>) -> EntryKind {
    match k {
        Some(DiskKind::Dir) => EntryKind::Dir,
        Some(DiskKind::File) => EntryKind::File,
        Some(DiskKind::Symlink) => EntryKind::Symlink { target: None },
        _ => EntryKind::Other,
    }
}

/// An [`Entry`] for a name whose details couldn't be read, shown rather than
/// dropped: the kind the listing gave (if any), nothing else known, and
/// read-only, since nothing says otherwise.
pub fn unreadable_local_entry(name: String, path: VPath, kind: Option<DiskKind>) -> (r: Entry)
    ensures
        r@.name == name@,
        r@.path == path@,
        r@.kind == plain_kind(kind),
        r@.size == 0,
        r@.modified is None,
        r@.created is None,
        r@.accessed is None,
        r@.permissions == (Permissions { readonly: true, unix_mode: None }),
        r@.hidden == (name@.len() > 0 && name@[0] == '.'),
        r@.link_target is None,
{
    let cs = chars_of(name.as_str());
    let hidden = cs.len() > 0 && cs[0] == '.';
    let kind = match kind {
        Some(DiskKind::Dir) => EntryKind::Dir,
        Some(DiskKind::File) => EntryKind::File,
        Some(DiskKind::Symlink) => EntryKind::Symlink { target: None },
        _ => EntryKind::Other,
    };
    Entry {
        name,
        path,
        kind,
        size: 0,
        modified: None,
        created: None,
        accessed: None,
        permissions: Permissions { readonly: true, unix_mode: None },
        hidden,
        link_target: None,
    }
}

} // verus!
