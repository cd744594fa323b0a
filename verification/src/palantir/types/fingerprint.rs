//! Exact-match fingerprints of chunks.

use vstd::prelude::*;
use crate::palantir::types::chunk::Chunk;

verus! {

/// A 32-byte content fingerprint of a chunk.
#[derive(Debug, Clone, Copy, PartialEq, Eq, Hash)]
pub struct Fingerprint {
    hash: [u8; 32],
}

impl Fingerprint {
    /// The bytes of the fingerprint.
    pub closed spec fn bytes(&self) -> Seq<u8> {
        self.hash@
    }

    /// Creates a fingerprint from its 32 bytes.
    pub fn new(hash: [u8; 32]) -> (r: Self)
        ensures
            r.bytes() == hash@,
    {
        Fingerprint { hash }
    }

    /// Two fingerprints are the same exactly when their bytes are.
    pub proof fn lemma_eq_bytes(a: Self, b: Self)
        ensures
            a == b <==> a.bytes() == b.bytes(),
    {
        if a.bytes() == b.bytes() {
            assert(a.hash =~= b.hash);
        }
    }

    /// Returns the 32 bytes of the fingerprint.
    pub fn as_bytes(&self) -> (r: &[u8; 32])
        ensures
            r@ == self.bytes(),
    {
        &self.hash
    }
}

/// Computes the fingerprint of a chunk.
pub trait FingerprintGenerator {
    /// Returns the fingerprint of `chunk`.
    fn generate(&self, chunk: &Chunk) -> Fingerprint;
}

/// A fingerprint generator based on SHA-256.
pub struct Sha256FingerprintGenerator;

} // verus!
