//! Sending each path to the backend that can handle it.
use vstd::prelude::*;

use crate::vpath::{BaseV, PathV, VPath, Base};

verus! {

/// The kinds of backend a path can belong to.
#[derive(Debug, Clone, Copy, PartialEq, Eq, Structural)]
pub enum Backend {
    /// The local disks.
    Local,
    /// Inside an archive.
    Archive,
    /// A server.
    Remote,
}

/// The backend that owns a path: a path with archive layers goes inside the
/// archive, otherwise its base decides.
pub open spec fn backend_spec(p: PathV) -> Backend {
    if p.layers.len() > 0 {
        Backend::Archive
    } else {
        match p.base {
            BaseV::Local(_) => Backend::Local,
            BaseV::Remote(..) => Backend::Remote,
        }
    }
}

/// The backend that owns `path`.
pub fn pick(path: &VPath) -> (r: Backend)
    ensures
        r == backend_spec(path@),
{
    if path.layers().len() != 0 {
        return Backend::Archive;
    }
    match path.base() {
        Base::Local(_) => Backend::Local,
        Base::Remote { .. } => Backend::Remote,
    }
}

/// Whether a rename from `from` to `to` can be handed to one backend: neither is
/// inside an archive, and both are on the local disks or both on servers.
/// Anything else is a move between devices, done by copying and deleting.
pub open spec fn renames_within_spec(from: PathV, to: PathV) -> bool {
    &&& from.layers.len() == 0
    &&& to.layers.len() == 0
    &&& match (from.base, to.base) {
        (BaseV::Local(_), BaseV::Local(_)) => true,
        (BaseV::Remote(..), BaseV::Remote(..)) => true,
        _ => false,
    }
}

pub fn renames_within(from: &VPath, to: &VPath) -> (r: bool)
    ensures
        r == renames_within_spec(from@, to@),
{
    let same_kind = match (from.base(), to.base()) {
        (Base::Local(_), Base::Local(_)) => true,
        (Base::Remote { .. }, Base::Remote { .. }) => true,
        _ => false,
    };
    from.layers().len() == 0 && to.layers().len() == 0 && same_kind
}

} // verus!
