//! Comparing two folder trees, and syncing what differs.
pub mod diff;
pub mod sync;
pub mod hash;
pub mod run;
