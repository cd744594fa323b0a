//! Similarity lookup for one tier: super-features → stored block.

use vstd::prelude::*;
use crate::heuristic_index::{heuristic_candidates, HeuristicInvertedSketchIndex, SearchConfig};
use crate::index::metrics::{Metric, MetricStorage, MetricsMap};
use crate::index::store::{lemma_with_entry_permutation, with_entry, IndexStorage, InvertedStorage};
use crate::palantir::lifecycle_manager::{DropRule, MetricUpdate};
use crate::palantir::types::{BlockID, SuperFeature};
use crate::sketch::{IndexKey, Sketch, U32Sketch};

verus! {

/// The hashed values of a run of super-features, in order.
pub open spec fn sf_values(fs: Seq<SuperFeature>) -> Seq<u32> {
    fs.map_values(|f: SuperFeature| f.spec_value())
}

/// Whether `r` answers a nearest-block search for `features` in a tier of
/// width `n`: nothing unless exactly `n > 0` super-features are given, and
/// otherwise a heuristic candidate of greatest overlap, or nothing when
/// there is no candidate.
pub open spec fn is_nearest<H>(
    p: Map<u32, Set<BlockID<H>>>,
    cfg: SearchConfig,
    fp: Map<BlockID<H>, Metric>,
    n: nat,
    features: Seq<SuperFeature>,
    r: Option<BlockID<H>>,
) -> bool {
    let cands = heuristic_candidates(p, sf_values(features), cfg, fp);
    if features.len() != n || n == 0 {
        r is None
    } else {
        &&& r is None <==> forall|key: BlockID<H>| !cands.contains_key(key)
        &&& r matches Some(best) ==> cands.contains_key(best) && forall|key: BlockID<H>|
            #[trigger] cands.contains_key(key) ==> cands[key] <= cands[best]
    }
}

/// The super-feature table of one tier of width `N`.
///
/// Blocks are posted under the values of their `N` super-features; every
/// block also carries a lifecycle metric.
pub struct SFTable<H: IndexKey, const N: usize> {
    index: HeuristicInvertedSketchIndex<BlockID<H>, U32Sketch<N>, IndexStorage<BlockID<H>, u32>>,
    metrics: MetricsMap<BlockID<H>>,
}

/// Copies the values of exactly `N` super-features into an array.
fn sf_array<const N: usize>(features: &[SuperFeature]) -> (r: [u32; N])
    requires
        features@.len() == N,
    ensures
        r@ == sf_values(features@),
{
    let mut vals: [u32; N] = [0u32; N];
    let mut i: usize = 0;
    while i < N
        invariant
            features@.len() == N,
            i <= N,
            vals@.len() == N,
            forall|j: int| 0 <= j < i ==> vals@[j] == features@[j].spec_value(),
        decreases N - i,
    {
        vals[i] = features[i].value();
        i += 1;
    }
    proof {
        assert(vals@ =~= sf_values(features@));
    }
    vals
}

impl<H: IndexKey, const N: usize> SFTable<H, N> {
    /// The blocks posted under each super-feature value.
    pub closed spec fn postings(&self) -> Map<u32, Set<BlockID<H>>> {
        self.index.store().postings()
    }

    /// The lifecycle metric of each block.
    pub closed spec fn metrics(&self) -> Map<BlockID<H>, Metric> {
        self.metrics.metrics()
    }

    /// The false-positive metric of each block, kept by the search.
    pub closed spec fn fp_metrics(&self) -> Map<BlockID<H>, Metric> {
        self.index.metrics()
    }

    /// The search configuration.
    pub closed spec fn config(&self) -> SearchConfig {
        self.index.spec_config()
    }

    /// Creates an empty table searching with `config`; block identifiers
    /// must obey the hash-table key model.
    pub fn new(config: SearchConfig) -> (r: Self)
        requires
            vstd::std_specs::hash::obeys_key_model::<BlockID<H>>(),
        ensures
            r.postings() == Map::<u32, Set<BlockID<H>>>::empty(),
            r.metrics() == Map::<BlockID<H>, Metric>::empty(),
            r.fp_metrics() == Map::<BlockID<H>, Metric>::empty(),
            r.config() == config,
    {
        SFTable {
            index: HeuristicInvertedSketchIndex::with_config(IndexStorage::new(), config),
            metrics: MetricsMap::new(),
        }
    }

    /// Posts `block_id` under the values of its `N` super-features and sets
    /// its lifecycle metric.
    pub fn insert(&mut self, block_id: &BlockID<H>, features: &[SuperFeature], metric: Metric)
        requires
            N > 0,
            features@.len() == N,
        ensures
            final(self).postings() == with_entry(old(self).postings(), *block_id, sf_values(features@)),
            final(self).metrics() == old(self).metrics().insert(*block_id, metric),
            final(self).fp_metrics() == old(self).fp_metrics(),
            final(self).config() == old(self).config(),
    {
        let vals = sf_array::<N>(features);
        let sketch = U32Sketch::new(vals);
        match sketch {
            Ok(s) => {
                let _ = self.index.put(block_id, s);
                proof {
                    lemma_with_entry_permutation(old(self).postings(), *block_id, s.features(), vals@);
                }
            },
            Err(_) => {},
        }
        self.metrics.set_metric(block_id, metric);
    }

    /// Drops the lifecycle and false-positive metrics of `block_id`; the
    /// postings keep no record of the block's features, so they stay.
    pub fn remove_block(&mut self, block_id: &BlockID<H>)
        ensures
            final(self).postings() == old(self).postings(),
            final(self).metrics() == old(self).metrics().remove(*block_id),
            final(self).fp_metrics() == old(self).fp_metrics().remove(*block_id),
            final(self).config() == old(self).config(),
    {
        let _ = self.index.remove(block_id);
        self.metrics.remove_metric(block_id);
    }

    /// Drops the metrics of every block posted under the value of `sf`.
    pub fn remove_sf(&mut self, sf: &SuperFeature)
        ensures
            final(self).postings() == old(self).postings(),
            final(self).metrics() == old(self).metrics().remove_keys(
                crate::index::store::keys_for(old(self).postings(), sf.spec_value()),
            ),
            final(self).fp_metrics() == old(self).fp_metrics().remove_keys(
                crate::index::store::keys_for(old(self).postings(), sf.spec_value()),
            ),
            final(self).config() == old(self).config(),
    {
        let value = sf.value();
        let keys: Vec<BlockID<H>> = match self.index.storage().posting_list(value) {
            Ok(v) => v,
            Err(_) => Vec::new(),
        };
        let ghost gone = crate::index::store::keys_for(old(self).postings(), value);
        let n = keys.len();
        let mut i: usize = 0;
        while i < n
            invariant
                n == keys@.len(),
                i <= n,
                keys@.to_set() == gone,
                self.postings() == old(self).postings(),
                self.config() == old(self).config(),
                self.metrics() == old(self).metrics().remove_keys(keys@.take(i as int).to_set()),
                self.fp_metrics() == old(self).fp_metrics().remove_keys(keys@.take(i as int).to_set()),
            decreases n - i,
        {
            let key = keys[i];
            let _ = self.index.remove(&key);
            self.metrics.remove_metric(&key);
            proof {
                crate::index::store::lemma_take_succ_contains(keys@, i as int);
                assert(keys@.take(i + 1).to_set() =~= keys@.take(i as int).to_set().insert(key));
                assert(self.metrics() =~= old(self).metrics().remove_keys(keys@.take(i + 1).to_set()));
                assert(self.fp_metrics() =~= old(self).fp_metrics().remove_keys(keys@.take(i + 1).to_set()));
            }
            i += 1;
        }
        proof {
            assert(keys@.take(n as int) =~= keys@);
        }
    }

    /// The number of distinct super-feature values with postings.
    pub fn len(&self) -> (r: usize)
        ensures
            r == self.postings().len(),
    {
        match self.index.storage().len_postings() {
            Ok(n) => n,
            Err(_) => 0,
        }
    }

    /// Whether no super-feature value has postings.
    pub fn is_empty(&self) -> (r: bool)
        ensures
            r == (self.postings().len() == 0),
    {
        match self.index.storage().len_postings() {
            Ok(n) => n == 0,
            Err(_) => true,
        }
    }

    /// The stored block whose super-features best match `features`.
    pub fn nearest(&self, features: &[SuperFeature]) -> (r: Option<BlockID<H>>)
        requires
            N * 2 <= usize::MAX,
        ensures
            is_nearest(self.postings(), self.config(), self.fp_metrics(), N as nat, features@, r),
    {
        if features.len() != N {
            return None;
        }
        let vals = sf_array::<N>(features);
        match U32Sketch::new(vals) {
            Ok(query) => {
                let r = self.index.get(&query);
                proof {
                    crate::heuristic_index::lemma_candidates_permutation(
                        self.postings(),
                        query.features(),
                        vals@,
                        self.config(),
                        self.fp_metrics(),
                    );
                }
                match r {
                    Ok(found) => found,
                    Err(_) => None,
                }
            },
            Err(_) => None,
        }
    }

    /// The lifecycle metric of `block_id`, if any.
    pub fn get_key_metric(&self, block_id: &BlockID<H>) -> (r: Option<Metric>)
        ensures
            r == (if self.metrics().contains_key(*block_id) { Some(self.metrics()[*block_id]) } else { None }),
    {
        self.metrics.get_metric(block_id)
    }

    /// Sets the lifecycle metric of `block_id`.
    pub fn set_key_metric(&mut self, block_id: &BlockID<H>, value: Metric)
        ensures
            final(self).metrics() == old(self).metrics().insert(*block_id, value),
            final(self).postings() == old(self).postings(),
            final(self).fp_metrics() == old(self).fp_metrics(),
            final(self).config() == old(self).config(),
    {
        self.metrics.set_metric(block_id, value);
    }

    /// Searches like [`SFTable::nearest`] and applies `update` to the
    /// lifecycle metric of the block found, a missing metric counting as
    /// zero.
    pub fn get_with_upd_metric(&mut self, features: &[SuperFeature], update: MetricUpdate) -> (r: Option<
        BlockID<H>,
    >)
        requires
            N * 2 <= usize::MAX,
        ensures
            is_nearest(old(self).postings(), old(self).config(), old(self).fp_metrics(), N as nat, features@, r),
            final(self).metrics() == (match r {
                Some(b) => old(self).metrics().insert(b, update.spec_apply(
                    if old(self).metrics().contains_key(b) { old(self).metrics()[b] } else { 0 },
                )),
                None => old(self).metrics(),
            }),
            final(self).postings() == old(self).postings(),
            final(self).fp_metrics() == old(self).fp_metrics(),
            final(self).config() == old(self).config(),
    {
        let result = self.nearest(features);
        match result {
            Some(b) => {
                let old_metric = match self.metrics.get_metric(&b) {
                    Some(m) => m,
                    None => 0,
                };
                self.metrics.set_metric(&b, update.apply(old_metric));
                Some(b)
            },
            None => None,
        }
    }

    /// Applies `update` to every lifecycle metric, then drops the entries
    /// whose updated metric `rule` rejects.
    pub fn update_and_clean(&mut self, update: MetricUpdate, rule: DropRule) -> (r: Result<(), crate::index::error::IndexError>)
        ensures
            r is Ok,
            final(self).metrics().dom() == old(self).metrics().dom().filter(
                |b: BlockID<H>| !rule.spec_drops(update.spec_apply(old(self).metrics()[b])),
            ),
            forall|b: BlockID<H>| #[trigger] final(self).metrics().contains_key(b) ==> final(self).metrics()[b]
                == update.spec_apply(old(self).metrics()[b]),
            final(self).postings() == old(self).postings(),
            final(self).fp_metrics() == old(self).fp_metrics(),
            final(self).config() == old(self).config(),
    {
        let upd = |m: Metric| -> (u: Metric)
            ensures
                u == update.spec_apply(m),
            { update.apply(m) };
        let clean = |m: Metric| -> (d: bool)
            ensures
                d == rule.spec_drops(m),
            { rule.drops(m) };
        self.metrics.update_and_clean(upd, clean);
        proof {
            let before = old(self).metrics();
            let after = self.metrics();
            assert forall|b: BlockID<H>| #[trigger] after.contains_key(b) implies after[b] == update.spec_apply(
                before[b],
            ) && !rule.spec_drops(update.spec_apply(before[b])) by {
                assert(before.contains_key(b));
            }
            assert forall|b: BlockID<H>| before.contains_key(b) && !after.contains_key(b) implies rule.spec_drops(
                update.spec_apply(#[trigger] before[b]),
            ) by {
                let u = choose|u: Metric| call_ensures(upd, (before[b],), u) && #[trigger] call_ensures(clean, (u,), true);
            }
            assert(after.dom() =~= before.dom().filter(|b: BlockID<H>| !rule.spec_drops(update.spec_apply(before[b]))));
        }
        Ok(())
    }
}

} // verus!
