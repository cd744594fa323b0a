//! Chunk digests made of super-features.

use vstd::prelude::*;
use crate::palantir::types::super_feature::SuperFeature;

verus! {

/// A compact digest of a chunk, composed of multiple [`SuperFeature`] values.
///
/// It is produced by a super-feature generator and queries the multi-tier
/// similarity index.
#[derive(Clone)]
pub struct ChunkDigest {
    /// The set of super-features representing this chunk.
    pub super_features: Vec<SuperFeature>,
}

impl ChunkDigest {
    /// Creates a new `ChunkDigest` from a vector of [`SuperFeature`]s.
    pub fn new(super_features: Vec<SuperFeature>) -> (r: Self)
        ensures
            r.super_features@ == super_features@,
    {
        ChunkDigest { super_features }
    }
}

} // verus!
