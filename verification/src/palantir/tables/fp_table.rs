//! Exact-duplicate lookup: fingerprint → stored block.

use vstd::prelude::*;
use std::collections::HashMap;
use crate::palantir::types::BlockID;
use crate::sketch::IndexKey;

verus! {

broadcast use vstd::std_specs::hash::group_hash_axioms;

/// Maps the fingerprint of every stored block to its identifier.
pub struct FPTable<H: IndexKey> {
    index: HashMap<H, BlockID<H>>,
}

impl<H: IndexKey> FPTable<H> {
    /// Fingerprints obey the hash-table key model.
    #[verifier::type_invariant]
    pub open spec fn inv(&self) -> bool {
        vstd::std_specs::hash::obeys_key_model::<H>()
    }

    /// The block recorded for each fingerprint.
    pub closed spec fn entries(&self) -> Map<H, BlockID<H>> {
        self.index@
    }

    /// Creates an empty table; fingerprints must obey the hash-table key
    /// model.
    pub fn new() -> (r: Self)
        requires
            vstd::std_specs::hash::obeys_key_model::<H>(),
        ensures
            r.entries() == Map::<H, BlockID<H>>::empty(),
    {
        FPTable { index: HashMap::new() }
    }

    /// Whether a block with this fingerprint is recorded.
    pub fn contains(&self, fingerprint: &H) -> (r: bool)
        ensures
            r == self.entries().contains_key(*fingerprint),
    {
        proof {
            use_type_invariant(self);
        }
        self.index.contains_key(fingerprint)
    }

    /// The block recorded for `fingerprint`, if any.
    pub fn lookup(&self, fingerprint: &H) -> (r: Option<&BlockID<H>>)
        ensures
            r == (if self.entries().contains_key(*fingerprint) {
                Some(&self.entries()[*fingerprint])
            } else {
                None
            }),
    {
        proof {
            use_type_invariant(self);
        }
        self.index.get(fingerprint)
    }

    /// Records `block_id` under `fingerprint`, replacing an earlier record.
    pub fn insert(&mut self, fingerprint: H, block_id: BlockID<H>)
        ensures
            final(self).entries() == old(self).entries().insert(fingerprint, block_id),
    {
        proof {
            use_type_invariant(&*self);
        }
        let mut index: HashMap<H, BlockID<H>> = HashMap::new();
        std::mem::swap(&mut index, &mut self.index);
        index.insert(fingerprint, block_id);
        self.index = index;
    }

    /// Removes the record of `fingerprint`, returning it.
    pub fn remove(&mut self, fingerprint: &H) -> (r: Option<BlockID<H>>)
        ensures
            final(self).entries() == old(self).entries().remove(*fingerprint),
            r == (if old(self).entries().contains_key(*fingerprint) {
                Some(old(self).entries()[*fingerprint])
            } else {
                None
            }),
    {
        proof {
            use_type_invariant(&*self);
        }
        let mut index: HashMap<H, BlockID<H>> = HashMap::new();
        std::mem::swap(&mut index, &mut self.index);
        let r = index.remove(fingerprint);
        self.index = index;
        r
    }

    /// The number of recorded fingerprints.
    pub fn len(&self) -> (r: usize)
        ensures
            r == self.entries().len(),
    {
        proof {
            use_type_invariant(self);
        }
        self.index.len()
    }

    /// Whether no fingerprint is recorded.
    pub fn is_empty(&self) -> (r: bool)
        ensures
            r == (self.entries().len() == 0),
    {
        proof {
            use_type_invariant(self);
            assert(self.index@.dom().finite());
        }
        let r = self.index.is_empty();
        proof {
            if !r {
                assert(self.index@.dom().len() > 0) by {
                    let k = choose|k: H| self.index@.contains_key(k);
                    vstd::set_lib::lemma_set_empty_equivalency_len(self.index@.dom());
                }
            }
        }
        r
    }
}

} // verus!
