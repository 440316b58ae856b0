//! What the headers of a tar archive say, turned into the entries the index is
//! built from. Reading the headers themselves is the `tar` crate's work.
use vstd::prelude::*;

use crate::archive::index::{RawEntry, RawV};
use crate::text::{chars_of, push_char};

verus! {

/// What a tar header is, as far as listing goes.
#[derive(Debug, Clone, Copy, PartialEq, Eq, Structural)]
pub enum TarHeaderKind {
    Dir,
    /// A record that only carries the next entry's long name or extended
    /// attributes, which the reader has already applied to that entry.
    Bookkeeping,
    /// Anything else: a file, a link, a device.
    Other,
}

/// The name the index is given: a folder's ends in a slash, which is how the
/// index tells folders apart and which not every tar writer adds.
pub open spec fn tar_name_spec(kind: TarHeaderKind, name: Seq<char>) -> Seq<char> {
    if kind == TarHeaderKind::Dir && !(name.len() > 0 && name.last() == '/') {
        name.push('/')
    } else {
        name
    }
}

/// The index entry for one tar header found at position `slot`, or `None` for a
/// bookkeeping record, which is no entry of its own. Tar stores whole seconds.
pub fn tar_raw_entry(kind: TarHeaderKind, name: String, size: u64, mtime: Option<u64>, slot: usize) -> (r: Option<
    RawEntry,
>)
    ensures
        r is None <==> kind == TarHeaderKind::Bookkeeping,
        r matches Some(e) ==> e@ == (RawV {
            name: tar_name_spec(kind, name@),
            size,
            modified: match mtime {
                Some(secs) => Some((secs * 1_000_000_000) as i128),
                None => None,
            },
            slot,
        }),
{
    if kind == TarHeaderKind::Bookkeeping {
        return None;
    }
    let mut name = name;
    if kind == TarHeaderKind::Dir {
        let cs = chars_of(name.as_str());
        if !(cs.len() > 0 && cs[cs.len() - 1] == '/') {
            push_char(&mut name, '/');
        }
    }
    let modified = match mtime {
        Some(secs) => Some(secs as i128 * 1_000_000_000),
        None => None,
    };
    Some(RawEntry { name, size, modified, slot })
}

} // verus!
