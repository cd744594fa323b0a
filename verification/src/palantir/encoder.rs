//! Delta encoding abstraction of the Palantir pipeline.

use vstd::prelude::*;

verus! {

/// Produces a delta encoding of a new chunk relative to a similar base
/// chunk. For similar chunks the delta is much smaller than the chunk.
///
/// An implementation computes the delta from the two byte strings alone:
/// [`PalantirEncoder::spec_encode`] names what it gives.
pub trait PalantirEncoder {
    /// The delta this encoder gives for `new_chunk` against `base_chunk`.
    spec fn spec_encode(&self, new_chunk: Seq<u8>, base_chunk: Seq<u8>) -> Seq<u8>;

    /// Encodes `new_chunk` as a delta with respect to `base_chunk`.
    fn encode(&self, new_chunk: &[u8], base_chunk: &[u8]) -> (r: Vec<u8>)
        ensures
            r@ == self.spec_encode(new_chunk@, base_chunk@),
    ;
}

} // verus!
