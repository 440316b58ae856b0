//! What a storage backend can do.
use vstd::prelude::*;

verus! {

/// What a backend is able to do. The UI uses this to grey out actions that
/// don't make sense (you can't `chmod` a file inside a ZIP, for example).
#[derive(Debug, Clone, Copy, PartialEq, Eq, Structural, Default)]
pub struct Capabilities {
    pub can_write: bool,
    pub has_unix_permissions: bool,
    pub has_symlinks: bool,
    pub can_watch: bool,
    pub has_trash: bool,
}

} // verus!
