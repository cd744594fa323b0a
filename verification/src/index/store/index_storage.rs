//! In-memory posting-list storage.

use vstd::prelude::*;
use std::collections::{HashMap, HashSet};
use vstd::std_specs::iter::IteratorSpec;
use crate::index::error::IndexError;
use crate::index::store::{keys_for, with_posting, without_posting, InvertedStorage};
use crate::sketch::IndexKey;

verus! {

broadcast use vstd::std_specs::hash::group_hash_axioms;

/// In-memory posting-list storage backed by hash maps.
///
/// It keeps no reverse map of entries: every insertion posts its key, and a
/// key-only removal finds nothing to take out.
pub struct IndexStorage<K: IndexKey, F: IndexKey> {
    postings: HashMap<F, HashSet<K>>,
}

impl<K: IndexKey, F: IndexKey> IndexStorage<K, F> {
    /// Keys and features obey the hash-table key model.
    #[verifier::type_invariant]
    closed spec fn inv(&self) -> bool {
        &&& vstd::std_specs::hash::obeys_key_model::<K>()
        &&& vstd::std_specs::hash::obeys_key_model::<F>()
    }

    /// Creates an empty storage; keys and features must obey the hash-table
    /// key model.
    pub fn new() -> (r: Self)
        requires
            vstd::std_specs::hash::obeys_key_model::<K>(),
            vstd::std_specs::hash::obeys_key_model::<F>(),
        ensures
            r.postings() == Map::<F, Set<K>>::empty(),
            r.entries() == Map::<K, Seq<F>>::empty(),
    {
        let r = IndexStorage { postings: HashMap::new() };
        proof {
            assert(r.postings() =~= Map::<F, Set<K>>::empty());
        }
        r
    }
}

impl<K: IndexKey, F: IndexKey> InvertedStorage<K, F> for IndexStorage<K, F> {
    closed spec fn postings(&self) -> Map<F, Set<K>> {
        self.postings@.map_values(|s: HashSet<K>| s@)
    }

    open spec fn entries(&self) -> Map<K, Seq<F>> {
        Map::empty()
    }

    open spec fn records_entries() -> bool {
        false
    }

    fn posting_list(&self, feature: F) -> (r: Result<Vec<K>, IndexError>) {
        proof {
            use_type_invariant(self);
        }
        let mut out: Vec<K> = Vec::new();
        match self.postings.get(&feature) {
            None => {
                proof {
                    assert(out@.to_set() =~= Set::<K>::empty());
                }
            },
            Some(keys) => {
                let ghost all = vstd::std_specs::hash::spec_hash_keys_iter(keys).remaining().unref();
                for k in it: keys.iter()
                    invariant
                        it.seq().unref() == all,
                        all.to_set() == keys@,
                        all.no_duplicates(),
                        out@.len() == it.index(),
                        forall|j: int| 0 <= j < it.index() ==> out@[j] == *it.seq()[j],
                {
                    out.push(*k);
                }
                proof {
                    assert(out@ =~= all);
                }
            },
        }
        Ok(out)
    }

    fn insert_posting(&mut self, feature: F, key: K) -> (r: Result<(), IndexError>) {
        proof {
            use_type_invariant(&*self);
        }
        let mut postings: HashMap<F, HashSet<K>> = HashMap::new();
        std::mem::swap(&mut postings, &mut self.postings);
        let mut keys = match postings.remove(&feature) {
            Some(s) => s,
            None => HashSet::new(),
        };
        keys.insert(key);
        postings.insert(feature, keys);
        self.postings = postings;
        proof {
            assert(self.postings() =~= with_posting(old(self).postings(), feature, key));
        }
        Ok(())
    }

    fn remove_posting(&mut self, feature: F, key: &K) -> (r: Result<(), IndexError>) {
        proof {
            use_type_invariant(&*self);
        }
        let mut postings: HashMap<F, HashSet<K>> = HashMap::new();
        std::mem::swap(&mut postings, &mut self.postings);
        match postings.remove(&feature) {
            None => {},
            Some(mut keys) => {
                keys.remove(key);
                if keys.is_empty() {
                    proof {
                        assert(keys@ =~= Set::<K>::empty());
                    }
                } else {
                    proof {
                        assert(keys@ != Set::<K>::empty());
                    }
                    postings.insert(feature, keys);
                }
            },
        }
        self.postings = postings;
        proof {
            assert(self.postings() =~= without_posting(old(self).postings(), feature, *key));
        }
        Ok(())
    }

    fn store_entry_features(&mut self, key: K, features: Vec<F>) -> (r: Result<bool, IndexError>) {
        Ok(true)
    }

    fn take_entry_features(&mut self, key: &K) -> (r: Result<Option<Vec<F>>, IndexError>) {
        proof {
            assert(self.entries().remove(*key) =~= self.entries());
        }
        Ok(None)
    }

    fn len_postings(&self) -> (r: Result<usize, IndexError>) {
        proof {
            use_type_invariant(self);
            assert(self.postings().dom() =~= self.postings@.dom());
        }
        Ok(self.postings.len())
    }

    fn clear_postings(&mut self) -> (r: Result<(), IndexError>) {
        proof {
            use_type_invariant(&*self);
        }
        let mut postings: HashMap<F, HashSet<K>> = HashMap::new();
        std::mem::swap(&mut postings, &mut self.postings);
        postings.clear();
        self.postings = postings;
        proof {
            assert(self.postings() =~= Map::<F, Set<K>>::empty());
        }
        Ok(())
    }
}

} // verus!
