//! Errors of the Palantir pipeline.

use vstd::prelude::*;

verus! {

/// Errors that can occur in the Palantir pipeline.
#[derive(Debug, Clone, PartialEq, Eq)]
pub enum PalantirError {
    /// The chunking operation failed.
    ChunkError(String),
    /// Hashing or super-feature generation failed.
    HashError(String),
    /// A metadata operation failed.
    MetadataError(String),
}

} // verus!
