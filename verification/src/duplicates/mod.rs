//! Finding files whose contents are the same.
pub mod group;
pub mod run;
