//! Core data types for the Palantir similarity detection pipeline.

pub mod block_id;
pub mod chunk;
pub mod chunk_hash;
pub mod fingerprint;
pub mod super_feature;

pub use block_id::BlockID;
pub use chunk::Chunk;
pub use chunk_hash::ChunkDigest;
pub use fingerprint::{Fingerprint, FingerprintGenerator, Sha256FingerprintGenerator};
pub use super_feature::{SuperFeature, SuperFeatureGenerator, TierConfig};
