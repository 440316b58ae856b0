//! Finding files by name and by what they hold.
pub mod content;
pub mod masks;
pub mod run;
