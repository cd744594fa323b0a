//! Tiered similarity fingerprints.

use vstd::prelude::*;
use crate::palantir::types::chunk::Chunk;

verus! {

/// A single tiered similarity fingerprint.
///
/// Each `SuperFeature` belongs to a tier and carries a hash value derived
/// from a group of raw features. Coarse tiers trade precision for speed;
/// finer tiers are more accurate.
#[derive(Debug, Clone, Copy, PartialEq, Eq, Hash)]
pub struct SuperFeature {
    /// Which tier this feature belongs to (0, 1, 2, ...).
    tier_id: u8,
    /// The hashed super-feature value.
    value: u32,
}

impl SuperFeature {
    /// The tier of the super-feature.
    pub closed spec fn spec_tier_id(&self) -> u8 {
        self.tier_id
    }

    /// The hashed value of the super-feature.
    pub closed spec fn spec_value(&self) -> u32 {
        self.value
    }

    /// Creates a super-feature of tier `tier_id` with hash `value`.
    pub fn new(tier_id: u8, value: u32) -> (r: Self)
        ensures
            r.spec_tier_id() == tier_id,
            r.spec_value() == value,
    {
        SuperFeature { tier_id, value }
    }

    /// Returns the tier index of this super-feature.
    pub fn tier_id(&self) -> (r: u8)
        ensures
            r == self.spec_tier_id(),
    {
        self.tier_id
    }

    /// Returns the hashed value of this super-feature.
    pub fn value(&self) -> (r: u32)
        ensures
            r == self.spec_value(),
    {
        self.value
    }
}

/// Configuration for multi-tier super-feature grouping.
///
/// `tier_list` gives the group size of each tier, ordered from coarsest to
/// finest. With group sizes `[4, 3, 2]` the hasher computes 12 raw features
/// (their least common multiple) and produces 3, 4 and 6 super-features per
/// tier. `features_num`, when set, overrides the number of raw features.
#[derive(Debug, Clone, PartialEq, Eq)]
pub struct TierConfig<const N: usize> {
    /// Group size of each tier, ordered from coarsest to finest.
    pub tier_list: [u32; N],
    /// Number of raw features, when it is not the LCM of `tier_list`.
    pub features_num: Option<usize>,
}

impl<const N: usize> TierConfig<N> {
    /// Creates a new `TierConfig` with the given group sizes per tier.
    pub fn new(tier_list: [u32; N]) -> (r: Self)
        ensures
            r.tier_list@ == tier_list@,
            r.features_num is None,
    {
        TierConfig { tier_list, features_num: None }
    }

    /// Creates a `TierConfig` whose raw feature count is `features_num`.
    pub fn with_features_num(tier_list: [u32; N], features_num: usize) -> (r: Self)
        ensures
            r.tier_list@ == tier_list@,
            r.features_num == Some(features_num),
    {
        TierConfig { tier_list, features_num: Some(features_num) }
    }
}

/// Generates a set of [`SuperFeature`] values from a [`Chunk`].
///
/// An implementation computes the super-features from the chunk's bytes
/// alone: [`SuperFeatureGenerator::spec_generate`] names what it gives.
pub trait SuperFeatureGenerator {
    /// The super-features this generator computes for a chunk with bytes
    /// `data`.
    spec fn spec_generate(&self, data: Seq<u8>) -> Seq<SuperFeature>;

    /// Computes super-features for the given chunk.
    fn generate(&self, chunk: &Chunk) -> (r: Vec<SuperFeature>)
        ensures
            r@ == self.spec_generate(chunk.bytes()),
    ;
}

} // verus!
