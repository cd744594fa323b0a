//! Identifiers of stored blocks.

use vstd::prelude::*;
use crate::sketch::IndexKey;

verus! {

/// Identifies a stored block by the hash of its content.
#[derive(Debug, Clone, Copy, PartialEq, Eq, Hash)]
pub struct BlockID<H> {
    /// The content hash of the block.
    pub hash: H,
}

impl<H> BlockID<H> {
    /// Creates the identifier of the block with content hash `hash`.
    pub fn new(hash: H) -> (r: Self)
        ensures
            r.hash == hash,
    {
        BlockID { hash }
    }
}

impl<H: IndexKey> IndexKey for BlockID<H> {
    fn key_eq(&self, other: &Self) -> (r: bool) {
        self.hash.key_eq(&other.hash)
    }
}

} // verus!
