//! Posting-list-backed similarity search.

use vstd::prelude::*;
use std::marker::PhantomData;
use crate::index::error::IndexError;
use crate::index::search::{
    candidate_overlaps, count_postings, counts_to_entries, lemma_overlap_le_len, overlap, rank_and_score, ranked,
};
use crate::index::store::{with_entry, without_entry, Store};
use crate::ranking::{has_key, is_top_k};
use crate::sketch::{jaccard_ge, IndexKey, SimilarityScore, Sketch};

verus! {

/// Generic inverted index for similarity search over sketches.
pub struct InvertedSketchIndex<K: IndexKey, S: Sketch, ST: Store<K, S>> {
    store: ST,
    _phantom: PhantomData<(K, S)>,
}

impl<K: IndexKey, S: Sketch, ST: Store<K, S>> InvertedSketchIndex<K, S, ST> {
    /// The storage behind the index.
    pub closed spec fn store(&self) -> ST {
        self.store
    }

    /// Creates an index over `store`.
    pub fn new(store: ST) -> (r: Self)
        ensures
            r.store() == store,
    {
        InvertedSketchIndex { store, _phantom: PhantomData }
    }

    /// Returns the storage behind the index.
    pub fn into_store(self) -> (r: ST)
        ensures
            r == self.store(),
    {
        self.store
    }

    /// Searches for the closest matching key for a query sketch: a candidate
    /// with the highest overlap, or `None` when no key shares a feature with
    /// the query.
    pub fn get(&self, query: &S) -> (r: Result<Option<K>, IndexError>)
        requires
            S::width() * 2 <= usize::MAX,
            vstd::std_specs::hash::obeys_key_model::<K>(),
        ensures
            r matches Ok(o) && {
                let p = self.store().postings();
                let q = query.features();
                &&& o is None <==> forall|key: K| overlap(p, q, key) == 0
                &&& o matches Some(best) ==> overlap(p, q, best) > 0 && forall|key: K|
                    overlap(p, q, key) <= overlap(p, q, best)
            },
    {
        let top = self.top_k(query, 1)?;
        let ghost p = self.store.postings();
        let ghost q = query.features();
        let ghost cands = candidate_overlaps(p, q);
        let ghost rk = top@.map_values(|e: (K, SimilarityScore)| (e.0, e.1.spec_intersection()));
        if top.len() == 0 {
            proof {
                assert forall|key: K| overlap(p, q, key) == 0 by {
                    if overlap(p, q, key) > 0 {
                        assert(cands.contains_key(key));
                        assert(!has_key(rk, key));
                    }
                }
            }
            Ok(None)
        } else {
            let best = top[0].0;
            proof {
                assert(rk[0].0 == best);
                assert(cands.contains_key(rk[0].0));
                assert forall|key: K| overlap(p, q, key) <= overlap(p, q, best) by {
                    if overlap(p, q, key) > 0 && key != best {
                        assert(cands.contains_key(key));
                        if has_key(rk, key) {
                            let i = choose|i: int| 0 <= i < rk.len() && #[trigger] rk[i].0 == key;
                            assert(i == 0);
                        }
                    }
                }
            }
            Ok(Some(best))
        }
    }

    /// Inserts an entry, posting `key` under every feature of `sketch`.
    /// A storage that records entries does not update keys it already holds.
    pub fn put(&mut self, key: &K, sketch: S) -> (r: Result<(), IndexError>)
        ensures
            r is Ok,
            final(self).store().postings() == (if !ST::records_entries() || !old(self).store().entries().contains_key(*key) {
                with_entry(old(self).store().postings(), *key, sketch.features())
            } else {
                old(self).store().postings()
            }),
            final(self).store().entries() == (if ST::records_entries() && !old(self).store().entries().contains_key(*key) {
                old(self).store().entries().insert(*key, sketch.features())
            } else {
                old(self).store().entries()
            }),
    {
        self.store.insert_entry(*key, sketch)
    }

    /// Removes the entry associated with the given key from every posting
    /// list its recorded features name; without a record nothing changes.
    pub fn remove(&mut self, key: &K) -> (r: Result<(), IndexError>)
        ensures
            r is Ok,
            final(self).store().postings() == (if old(self).store().entries().contains_key(*key) {
                without_entry(old(self).store().postings(), *key, old(self).store().entries()[*key])
            } else {
                old(self).store().postings()
            }),
            final(self).store().entries() == old(self).store().entries().remove(*key),
    {
        self.store.remove_entry(key)
    }

    /// Removes all entries from the index.
    pub fn clear(&mut self) -> (r: Result<(), IndexError>)
        ensures
            r is Ok,
            final(self).store().postings() == Map::<S::Feature, Set<K>>::empty(),
            final(self).store().entries() == old(self).store().entries(),
    {
        Store::<K, S>::clear(&mut self.store)
    }

    /// Returns the top `k` keys most similar to the query sketch, highest
    /// similarity first, with their exact scores.
    ///
    /// The candidates are the keys posted under some query feature; each
    /// scores its overlap `o` with the query over a union of `2n - o`.
    pub fn top_k(&self, query: &S, k: usize) -> (r: Result<Vec<(K, SimilarityScore)>, IndexError>)
        requires
            S::width() * 2 <= usize::MAX,
            vstd::std_specs::hash::obeys_key_model::<K>(),
        ensures
            r matches Ok(v) && ranked(v@, candidate_overlaps(self.store().postings(), query.features()), query.features().len(), k as nat),
    {
        let ghost p = self.store.postings();
        let ghost q = query.features();
        if k == 0 || query.is_empty() {
            let v: Vec<(K, SimilarityScore)> = Vec::new();
            proof {
                let r = v@.map_values(|e: (K, SimilarityScore)| (e.0, e.1.spec_intersection()));
                let kk = if q.len() == 0 { 0 } else { k as nat };
                assert forall|key: K| #[trigger] candidate_overlaps(p, q).contains_key(key) && !has_key(r, key)
                    implies r.len() == kk && (kk > 0 ==> candidate_overlaps(p, q)[key] <= r[r.len() - 1].1) by {
                    if q.len() == 0 {
                        assert(overlap(p, q, key) == 0);
                    }
                }
            }
            return Ok(v);
        }
        let n = query.len();
        let fs = query.as_slice();
        let counts = count_postings(&self.store, fs)?;
        let entries = counts_to_entries(&counts);
        let ghost cands = candidate_overlaps(p, q);
        proof {
            assert forall|key: K| #[trigger] cands.contains_key(key) implies counts@.contains_key(key) by {}
            assert forall|key: K| #[trigger] cands.contains_key(key) implies cands[key] <= n by {
                lemma_overlap_le_len(p, q, key);
            }
        }
        let out = rank_and_score(entries, k, n, Ghost(cands));
        Ok(out)
    }
}

} // verus!
