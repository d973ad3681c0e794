//! Full-content confirmation hashing.
//!
//! A file that survives the size and fingerprint filters is streamed in
//! chunks through a cryptographic hash; the resulting fixed-width digest is
//! treated as proof of byte-for-byte identity. The digest value is named by
//! `digest_of`; the incremental hasher below tracks, in ghost state, exactly
//! which bytes have been absorbed.

use vstd::prelude::*;

verus! {

/// The digest that blake3 computes for a byte string; it depends on the
/// bytes alone.
pub uninterp spec fn digest_of(bytes: Seq<u8>) -> Seq<u8>;

/// Declares `blake3::Hasher` so it can stand in a field; the value is
/// opaque, and only the trusted wrappers below touch it.
#[verifier::external_type_specification]
#[verifier::external_body]
pub struct ExHasher(blake3::Hasher);

/// Relies on `blake3::Hasher::new`: a fresh hasher, absorbed stream empty.
#[verifier::external_body]
fn new_hasher() -> blake3::Hasher {
    blake3::Hasher::new()
}

/// An incremental full-content hasher. `fed()` is the byte stream absorbed
/// so far; the digest of the stream is `digest_of(fed())`.
pub struct ContentHasher {
    inner: blake3::Hasher,
    fed: Ghost<Seq<u8>>,
}

impl ContentHasher {
    /// The bytes absorbed so far.
    pub closed spec fn fed(&self) -> Seq<u8> {
        self.fed@
    }

    /// A fresh hasher; it has absorbed nothing.
    pub fn new() -> (h: ContentHasher)
        ensures
            h.fed() == Seq::<u8>::empty(),
    {
        ContentHasher { inner: new_hasher(), fed: Ghost(Seq::empty()) }
    }

    /// Relies on `blake3::Hasher::update`: absorbing a chunk appends it to
    /// the hashed stream.
    #[verifier::external_body]
    pub fn update(&mut self, chunk: &Vec<u8>)
        ensures
            final(self).fed() == old(self).fed() + chunk@,
    {
        self.inner.update(chunk.as_slice());
    }

    /// Relies on `blake3::Hasher::finalize` and `blake3::Hash::as_bytes`:
    /// the digest is a pure function of the absorbed bytes, 32 bytes wide.
    #[verifier::external_body]
    pub fn finalize(&self) -> (d: Vec<u8>)
        ensures
            d@ == digest_of(self.fed()),
            d@.len() == 32,
    {
        self.inner.finalize().as_bytes().to_vec()
    }
}

/// The digest of a byte string held whole in memory.
pub fn hash_bytes(content: &Vec<u8>) -> (d: Vec<u8>)
    ensures
        d@ == digest_of(content@),
        d@.len() == 32,
{
    let mut h = ContentHasher::new();
    h.update(content);
    proof {
        assert(h.fed() =~= content@);
    }
    h.finalize()
}

} // verus!
