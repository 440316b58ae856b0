use vstd::prelude::*;

pub mod archive;
pub mod commands;
pub mod compare;
pub mod entry;
pub mod dto;
pub mod duplicates;
pub mod error;
pub mod jobs;
pub mod local;
pub mod text;
pub mod remote;
pub mod roundtrip;
pub mod router;
pub mod search;
pub mod sort;
pub mod vfs;
pub mod view;
pub mod vpath;
pub mod watch;

pub use entry::{Entry, EntryKind, LinkTarget, Permissions};
pub use error::{Error, IoErrorKind, Result};
pub use sort::{natural_cmp, sort_entries, SortKey, SortOrder, SortSpec};
pub use vpath::{Base, InnerPath, Layer, VPath};

verus! {

} // verus!
