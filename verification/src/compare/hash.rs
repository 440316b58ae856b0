//! Hashing a file's contents, to tell "different" from "merely disturbed".
//!
//! A file's size and modified time are a cheap first check, but they can lie:
//! copying a file can leave its size the same and change nothing, or a build
//! tool can touch a file's timestamp without changing a byte of it. Hashing
//! the actual bytes with BLAKE3 is what settles it for sure, at the cost of
//! reading both files in full. Whoever reads the file feeds [`ContentHash`] one
//! piece at a time, so none of it is held whole.
use vstd::prelude::*;

verus! {

#[verifier::external_type_specification]
#[verifier::external_body]
pub struct ExHasher(blake3::Hasher);

/// The BLAKE3 hash of `input`, 32 bytes.
pub uninterp spec fn blake3_digest(input: Seq<u8>) -> Seq<u8>;

/// How much is read at a time.
pub const HASH_CHUNK: usize = 262144;

/// A BLAKE3 hash being computed over bytes that arrive a piece at a time.
pub struct ContentHash {
    hasher: blake3::Hasher,
    /// Everything the hasher has taken in so far.
    input: Ghost<Seq<u8>>,
}

/// `blake3::Hasher::new`: a hasher that has taken in nothing.
#[verifier::external_body]
fn fresh_hasher() -> (r: ContentHash)
    ensures
        r.input@ == Seq::<u8>::empty(),
{
    ContentHash { hasher: blake3::Hasher::new(), input: Ghost(Seq::empty()) }
}

/// `blake3::Hasher::update`: adds `data` to what the hasher has taken in.
#[verifier::external_body]
fn absorb(h: &mut ContentHash, data: &[u8])
    ensures
        final(h).input@ == old(h).input@ + data@,
{
    h.hasher.update(data);
}

/// `blake3::Hasher::finalize`: the hash of all the hasher took in, as its 32 bytes.
#[verifier::external_body]
fn digest_of(h: &ContentHash) -> (r: [u8; 32])
    ensures
        r@ == blake3_digest(h.input@),
{
    h.hasher.finalize().into()
}

impl ContentHash {
    /// What has been hashed so far.
    pub closed spec fn taken(&self) -> Seq<u8> {
        self.input@
    }

    pub fn new() -> (r: ContentHash)
        ensures
            r.taken() == Seq::<u8>::empty(),
    {
        fresh_hasher()
    }

    /// Adds the next piece.
    pub fn update(&mut self, data: &[u8])
        ensures
            final(self).taken() == old(self).taken() + data@,
    {
        absorb(self, data);
    }

    /// The hash of everything added so far.
    pub fn finish(&self) -> (r: [u8; 32])
        ensures
            r@ == blake3_digest(self.taken()),
    {
        digest_of(self)
    }
}

/// Whether two hashes are equal.
pub fn same_hash(a: &[u8; 32], b: &[u8; 32]) -> (r: bool)
    ensures
        r == (a@ == b@),
{
    let mut i: usize = 0;
    while i < 32
        invariant
            i <= 32,
            a@.len() == 32,
            b@.len() == 32,
            forall|k: int| 0 <= k < i ==> a@[k] == b@[k],
        decreases 32 - i,
    {
        if a[i] != b[i] {
            return false;
        }
        i += 1;
    }
    assert(a@ =~= b@);
    true
}

} // verus!
