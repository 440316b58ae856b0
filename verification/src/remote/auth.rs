//! How to prove who you are to an SFTP server.
use vstd::prelude::*;

verus! {

/// A way to authenticate.
#[derive(Debug, Clone, PartialEq, Eq)]
pub enum Auth {
    Password(String),
    /// A private key file, deciphered with `passphrase` if it needs one.
    KeyFile { path: String, passphrase: Option<String> },
}

} // verus!
