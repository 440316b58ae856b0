//! The decisions an SFTP backend takes around what it sends and what comes back.
//!
//! The connection, the handshake and every request are network I/O; what the
//! server's replies mean (a listing's names, a file's attributes, a failure's
//! status, a host key's standing) and how paths go on the wire are decided here.
use vstd::prelude::*;

use crate::entry::{opt_string_view, Entry, EntryKind, LinkTarget, Permissions};
use crate::error::Error;
use crate::text::{chars_of, push_str, str_eq};
use crate::vfs::Capabilities;
use crate::vpath::{inner_text, spec_display, Base, BaseV, VPath};

verus! {

/// What the SFTP backend can do: write and keep permissions and links, but not
/// watch folders or use a trash.
pub fn sftp_capabilities() -> (r: Capabilities)
    ensures
        r == (Capabilities {
            can_write: true,
            has_unix_permissions: true,
            has_symlinks: true,
            can_watch: false,
            has_trash: false,
        }),
{
    Capabilities { can_write: true, has_unix_permissions: true, has_symlinks: true, can_watch: false, has_trash: false }
}

/// The connection a path needs and the path to send on the wire: its server's
/// authority and its inner path, for a plain server path; nothing for a local
/// path or one inside an archive.
pub fn remote_target(path: &VPath) -> (r: Option<(String, String)>)
    ensures
        match (path@.layers.len() == 0, path@.base) {
            (true, BaseV::Remote(_, authority, parts)) => r matches Some((a, w)) && a@ == authority && w@ == inner_text(parts),
            _ => r is None,
        },
{
    if path.layers().len() != 0 {
        return None;
    }
    match path.base() {
        Base::Remote { authority, path: inner, .. } => Some((authority.clone(), inner.to_string())),
        Base::Local(_) => None,
    }
}

/// Whether two paths are on the same server.
pub fn same_authority(a: &VPath, b: &VPath) -> (r: bool)
    ensures
        r == match (a@.base, b@.base) {
            (BaseV::Remote(_, x, _), BaseV::Remote(_, y, _)) => x == y,
            _ => false,
        },
{
    match (a.base(), b.base()) {
        (Base::Remote { authority: x, .. }, Base::Remote { authority: y, .. }) => str_eq(x.as_str(), y.as_str()),
        _ => false,
    }
}

/// The wire path of `name` inside the folder whose wire path is `dir`.
pub fn join_wire(dir: &str, name: &str) -> (r: String)
    ensures
        r@ == if dir@.len() > 0 && dir@.last() == '/' {
            dir@ + name@
        } else {
            dir@ + "/"@ + name@
        },
{
    proof {
        reveal_strlit("/");
    }
    let d = chars_of(dir);
    let mut out = String::new();
    push_str(&mut out, dir);
    if !(d.len() > 0 && d[d.len() - 1] == '/') {
        push_str(&mut out, "/");
    }
    push_str(&mut out, name);
    out
}

/// Whether a name a server lists is a real entry: every listing also names the
/// folder itself and its parent.
pub fn is_listed_entry(name: &str) -> (r: bool)
    ensures
        r == !(name@ == "."@ || name@ == ".."@),
{
    !(str_eq(name, ".") || str_eq(name, ".."))
}

/// What a server says a name is.
#[derive(Debug, Clone, Copy, PartialEq, Eq, Structural)]
pub enum RemoteKind {
    Dir,
    File,
    Symlink,
    Other,
}

/// What a server reports about one file, as plain values. Times are
/// nanoseconds since the Unix epoch.
#[derive(Debug, Clone, Copy, PartialEq, Eq, Structural)]
pub struct RemoteMeta {
    pub kind: RemoteKind,
    /// No one may write to it.
    pub readonly: bool,
    pub mode: Option<u32>,
    pub size: u64,
    pub modified: Option<i128>,
    pub accessed: Option<i128>,
}

pub open spec fn link_target_of(k: RemoteKind) -> LinkTarget {
    match k {
        RemoteKind::Dir => LinkTarget::Dir,
        RemoteKind::File => LinkTarget::File,
        _ => LinkTarget::Other,
    }
}

pub open spec fn remote_kind_spec(meta: RemoteMeta, followed: Option<RemoteKind>) -> EntryKind {
    match meta.kind {
        RemoteKind::Dir => EntryKind::Dir,
        RemoteKind::File => EntryKind::File,
        RemoteKind::Symlink => EntryKind::Symlink {
            target: match followed {
                Some(k) => Some(link_target_of(k)),
                None => None,
            },
        },
        RemoteKind::Other => EntryKind::Other,
    }
}

/// An [`Entry`] from what a server said about `name` at `path`. For a link,
/// `link_text` is where it points as the server wrote it, and `followed` what
/// the far end is (`None` for a broken link, which is shown, never hidden).
/// A server keeps no creation time.
pub fn remote_entry(
    name: String,
    path: VPath,
    meta: RemoteMeta,
    link_text: Option<String>,
    followed: Option<RemoteKind>,
) -> (r: Entry)
    ensures
        r@.name == name@,
        r@.path == path@,
        r@.kind == remote_kind_spec(meta, followed),
        r@.size == meta.size,
        r@.modified == meta.modified,
        r@.created is None,
        r@.accessed == meta.accessed,
        r@.permissions == (Permissions { readonly: meta.readonly, unix_mode: meta.mode }),
        r@.hidden == (name@.len() > 0 && name@[0] == '.'),
        r@.link_target == (if meta.kind == RemoteKind::Symlink {
            opt_string_view(link_text)
        } else {
            None
        }),
{
    let cs = chars_of(name.as_str());
    let hidden = cs.len() > 0 && cs[0] == '.';
    let (kind, link_target) = match meta.kind {
        RemoteKind::Dir => (EntryKind::Dir, None),
        RemoteKind::File => (EntryKind::File, None),
        RemoteKind::Symlink => {
            let target = match followed {
                Some(RemoteKind::Dir) => Some(LinkTarget::Dir),
                Some(RemoteKind::File) => Some(LinkTarget::File),
                Some(_) => Some(LinkTarget::Other),
                None => None,
            };
            (EntryKind::Symlink { target }, link_text)
        },
        RemoteKind::Other => (EntryKind::Other, None),
    };
    Entry {
        name,
        path,
        kind,
        size: meta.size,
        modified: meta.modified,
        created: None,
        accessed: meta.accessed,
        permissions: Permissions { readonly: meta.readonly, unix_mode: meta.mode },
        hidden,
        link_target,
    }
}

/// An SFTP modification time: whole seconds since the epoch in 32 bits, a time
/// before the epoch as 0, and one past 2106 saturating rather than wrapping.
pub open spec fn sftp_seconds_spec(nanos: i128) -> u32 {
    if nanos < 0 {
        0
    } else if nanos / 1_000_000_000 > u32::MAX {
        u32::MAX
    } else {
        (nanos / 1_000_000_000) as u32
    }
}

pub fn sftp_seconds(nanos: i128) -> (r: u32)
    ensures
        r == sftp_seconds_spec(nanos),
{
    if nanos < 0 {
        0
    } else {
        let secs = nanos / 1_000_000_000;
        if secs > u32::MAX as i128 {
            u32::MAX
        } else {
            secs as u32
        }
    }
}

/// How a server answered a request that failed.
#[derive(Debug, Clone, Copy, PartialEq, Eq, Structural)]
pub enum SftpStatus {
    NoSuchFile,
    PermissionDenied,
    /// Any other status, or a failure that never got one.
    Other,
}

/// A failed request on `path`, with the server's own description, in the
/// library's terms.
pub fn sftp_failure(path: &VPath, status: SftpStatus, message: String) -> (r: Error)
    ensures
        match status {
            SftpStatus::NoSuchFile => r matches Error::NotFound(p) && p@ == path@,
            SftpStatus::PermissionDenied => r matches Error::PermissionDenied(p) && p@ == path@,
            SftpStatus::Other => r matches Error::InvalidOperation(m) && m@ == spec_display(path@) + ": "@
                + message@,
        },
{
    match status {
        SftpStatus::NoSuchFile => Error::NotFound(path.clone()),
        SftpStatus::PermissionDenied => Error::PermissionDenied(path.clone()),
        SftpStatus::Other => {
            proof {
                reveal_strlit(": ");
            }
            let mut m = path.to_string();
            push_str(&mut m, ": ");
            push_str(&mut m, message.as_str());
            Error::InvalidOperation(m)
        },
    }
}

/// What looking a server's host key up among the trusted ones found.
#[derive(Debug, Clone, Copy, PartialEq, Eq, Structural)]
pub enum HostKeyLookup {
    /// Trusted before, and the same key.
    Matches,
    /// Never seen this host before.
    Unknown,
    /// A different key than the one trusted before, or the list couldn't be read.
    Refused,
}

/// What a server presented to prove who it is.
#[derive(Debug, Clone, Copy, PartialEq, Eq, Structural)]
pub enum PresentedKey {
    /// A certificate, which only a trusted authority could vouch for.
    Certificate,
    /// A bare key, and what looking it up found.
    Key(HostKeyLookup),
}

/// Whether to go on with a server, and whether to remember its key.
#[derive(Debug, Clone, Copy, PartialEq, Eq, Structural)]
pub struct HostKeyVerdict {
    pub trust: bool,
    pub learn: bool,
}

/// Checks a server the way OpenSSH clients do: a known key is trusted, a host
/// never seen before is trusted and remembered (there is nowhere to ask
/// first), and a changed key, an unreadable list or a certificate (nothing
/// here knows a certificate authority to trust) is refused.
pub fn host_key_verdict(presented: PresentedKey) -> (r: HostKeyVerdict)
    ensures
        r == match presented {
            PresentedKey::Certificate => HostKeyVerdict { trust: false, learn: false },
            PresentedKey::Key(HostKeyLookup::Matches) => HostKeyVerdict { trust: true, learn: false },
            PresentedKey::Key(HostKeyLookup::Unknown) => HostKeyVerdict { trust: true, learn: true },
            PresentedKey::Key(HostKeyLookup::Refused) => HostKeyVerdict { trust: false, learn: false },
        },
{
    match presented {
        PresentedKey::Certificate => HostKeyVerdict { trust: false, learn: false },
        PresentedKey::Key(HostKeyLookup::Matches) => HostKeyVerdict { trust: true, learn: false },
        PresentedKey::Key(HostKeyLookup::Unknown) => HostKeyVerdict { trust: true, learn: true },
        PresentedKey::Key(HostKeyLookup::Refused) => HostKeyVerdict { trust: false, learn: false },
    }
}

} // verus!
