//! Inverted index with heuristic-guided candidate generation and ranking.

use vstd::prelude::*;
use std::marker::PhantomData;
use crate::index::error::IndexError;
use crate::index::metrics::{Metric, MetricStorage, MetricsMap};
use crate::index::search::{
    candidate_overlaps, count_postings, counts_to_entries, lemma_overlap_le_len, lemma_overlap_permutation,
    lists_counts, overlap, rank_and_score, ranked,
};
use crate::index::store::{keys_for, with_entry, without_entry, Store};
use crate::ranking::{has_key, is_top_k, sort_by_count_asc};
use crate::sketch::{jaccard_ge, IndexKey, SimilarityScore, Sketch};

verus! {

/// Configuration for heuristic-guided similarity search.
///
/// The default disables every heuristic, which keeps the exhaustive
/// overlap-count behaviour.
#[derive(Clone, Copy, Debug, PartialEq, Eq)]
pub struct SearchConfig {
    /// Drop candidates whose Jaccard score cannot reach the threshold
    /// `num / den`: with queries of width `n`, a candidate needs an overlap
    /// `o` with `o / (2n - o) >= num / den`, that is `o * (num + den) >= 2 * n * num`.
    /// `None` disables threshold pruning.
    pub min_jaccard: Option<(u32, u32)>,
    /// Skip query features whose posting list is longer than this value.
    /// `None` probes every query feature.
    pub max_df: Option<usize>,
    /// Probe query features in ascending document-frequency order.
    pub rare_first: bool,
    /// Skip keys whose false-positive metric is at least this value.
    /// `None` disables false-positive filtering.
    pub fp_metric_threshold: Option<u8>,
}

/// The configuration with every heuristic disabled.
pub open spec fn exhaustive_config() -> SearchConfig {
    SearchConfig { min_jaccard: None, max_df: None, rare_first: false, fp_metric_threshold: None }
}

impl SearchConfig {
    /// Creates a config with all heuristics disabled (exhaustive search).
    pub fn new() -> (r: Self)
        ensures
            r == exhaustive_config(),
    {
        SearchConfig { min_jaccard: None, max_df: None, rare_first: false, fp_metric_threshold: None }
    }
}

impl Default for SearchConfig {
    fn default() -> (r: Self)
        ensures
            r == exhaustive_config(),
    {
        SearchConfig::new()
    }
}

/// Whether feature `f` is probed under the document-frequency limit.
pub open spec fn probed<K, F>(p: Map<F, Set<K>>, f: F, max_df: Option<usize>) -> bool {
    match max_df {
        None => true,
        Some(m) => keys_for(p, f).len() <= m,
    }
}

/// The query features that are probed, in query order.
pub open spec fn probed_features<K, F>(p: Map<F, Set<K>>, q: Seq<F>, max_df: Option<usize>) -> Seq<F>
    decreases q.len(),
{
    if q.len() == 0 {
        Seq::empty()
    } else {
        let rest = probed_features(p, q.drop_last(), max_df);
        if probed(p, q.last(), max_df) {
            rest.push(q.last())
        } else {
            rest
        }
    }
}

/// Whether `key` passes the false-positive filter.
pub open spec fn passes_fp<K>(metrics: Map<K, Metric>, threshold: Option<u8>, key: K) -> bool {
    match threshold {
        None => true,
        Some(t) => !metrics.contains_key(key) || metrics[key] < t,
    }
}

/// Whether overlap `o` of a query of width `n` passes the Jaccard threshold.
pub open spec fn passes_min(min_jaccard: Option<(u32, u32)>, o: nat, n: nat) -> bool {
    match min_jaccard {
        None => true,
        Some((num, den)) => o * (num + den) >= 2 * n * num,
    }
}

/// The least overlap that two sketches of width `n` need for a Jaccard
/// similarity of at least `num / den`: `ceil(2 * n * num / (num + den))`,
/// with `0` when `n` or the threshold is zero, `n` for a threshold of one and
/// the unreachable `n + 1` for a threshold above one.
pub open spec fn min_overlap(num: u32, den: u32, n: nat) -> nat {
    if n == 0 || num == 0 {
        0
    } else if num > den {
        n + 1
    } else if num == den {
        n
    } else {
        let a: int = 2 * n * num;
        let b: int = num + den;
        ((a + b - 1) / b) as nat
    }
}

/// Minimum overlap between two sketches of width `n` required for a
/// Jaccard similarity of at least `num / den`.
pub fn min_overlap_for_jaccard(num: u32, den: u32, n: usize) -> (r: usize)
    requires
        n < usize::MAX,
    ensures
        r == min_overlap(num, den, n as nat),
{
    if n == 0 || num == 0 {
        return 0;
    }
    if num > den {
        return n + 1;
    }
    if num == den {
        return n;
    }
    proof {
        assert(2 * (n as int) * (num as int) <= 2 * 0xffff_ffff_ffff_ffffint * 0xffff_ffffint) by (nonlinear_arith)
            requires
                n <= 0xffff_ffff_ffff_ffffint,
                num <= 0xffff_ffffint,
        ;
    }
    let a: u128 = 2 * (n as u128) * (num as u128);
    let b: u128 = num as u128 + den as u128;
    let c: u128 = (a + b - 1) / b;
    proof {
        assert(c <= n) by (nonlinear_arith)
            requires
                c as int == (a + b - 1) as int / b as int,
                a == 2 * n * num,
                b == num + den,
                num < den,
                0 < num,
        {
            assert(a + b - 1 < (n + 1) * b);
        }
    }
    c as usize
}

/// An overlap reaches the Jaccard threshold exactly when it is at least the
/// minimum overlap, for every overlap that two sketches of width `n` can have.
pub proof fn lemma_min_overlap_threshold(num: u32, den: u32, n: nat, o: nat)
    requires
        o <= n,
    ensures
        o >= min_overlap(num, den, n) <==> passes_min(Some((num, den)), o, n),
{
    if n == 0 || num == 0 {
        assert(o * (num + den) >= 2 * n * num) by (nonlinear_arith)
            requires
                n == 0 || num == 0,
        ;
    } else if num > den {
        assert(o * (num + den) < 2 * n * num) by (nonlinear_arith)
            requires
                o <= n,
                num > den,
                n > 0,
        ;
    } else if num == den {
        assert(o >= n <==> o * (num + den) >= 2 * n * num) by (nonlinear_arith)
            requires
                o <= n,
                num == den,
                num > 0,
        ;
    } else {
        let a: int = 2 * n * num;
        let b: int = num + den;
        let c: int = (a + b - 1) / b;
        assert(c * b <= a + b - 1 < (c + 1) * b) by (nonlinear_arith)
            requires
                c == (a + b - 1) / b,
                b > 0,
        ;
        assert(o >= c <==> o * b >= a) by (nonlinear_arith)
            requires
                c * b <= a + b - 1,
                a + b - 1 < (c + 1) * b,
                b > 0,
        ;
    }
}

/// The candidates a heuristic search ranks, with their overlaps: keys posted
/// under some probed feature that pass both filters.
pub open spec fn heuristic_candidates<K, F>(
    p: Map<F, Set<K>>,
    q: Seq<F>,
    cfg: SearchConfig,
    metrics: Map<K, Metric>,
) -> Map<K, nat> {
    let sel = probed_features(p, q, cfg.max_df);
    Map::new(
        |key: K|
            overlap(p, sel, key) > 0 && passes_fp(metrics, cfg.fp_metric_threshold, key) && passes_min(
                cfg.min_jaccard,
                overlap(p, sel, key),
                q.len(),
            ),
        |key: K| overlap(p, sel, key),
    )
}

/// The probed features are some of the query features.
proof fn lemma_probed_len<K, F>(p: Map<F, Set<K>>, q: Seq<F>, max_df: Option<usize>)
    ensures
        probed_features(p, q, max_df).len() <= q.len(),
    decreases q.len(),
{
    if q.len() > 0 {
        lemma_probed_len(p, q.drop_last(), max_df);
    }
}

/// A feature occurs among the probed features as often as in the query when
/// it is probed, and not at all otherwise.
proof fn lemma_probed_count<K, F>(p: Map<F, Set<K>>, q: Seq<F>, max_df: Option<usize>, x: F)
    ensures
        probed_features(p, q, max_df).to_multiset().count(x) == if probed(p, x, max_df) {
            q.to_multiset().count(x)
        } else {
            0
        },
    decreases q.len(),
{
    broadcast use vstd::seq_lib::group_to_multiset_ensures;
    broadcast use vstd::multiset::group_multiset_axioms;

    if q.len() == 0 {
    } else {
        lemma_probed_count(p, q.drop_last(), max_df, x);
        assert(q.drop_last().push(q.last()) =~= q);
    }
}

/// The candidates of a heuristic search do not depend on the order of the
/// query features.
pub proof fn lemma_candidates_permutation<K, F>(
    p: Map<F, Set<K>>,
    a: Seq<F>,
    b: Seq<F>,
    cfg: SearchConfig,
    metrics: Map<K, Metric>,
)
    requires
        a.to_multiset() == b.to_multiset(),
    ensures
        heuristic_candidates(p, a, cfg, metrics) == heuristic_candidates(p, b, cfg, metrics),
{
    broadcast use vstd::seq_lib::group_to_multiset_ensures;

    let sa = probed_features(p, a, cfg.max_df);
    let sb = probed_features(p, b, cfg.max_df);
    assert forall|x: F| sa.to_multiset().count(x) == sb.to_multiset().count(x) by {
        lemma_probed_count(p, a, cfg.max_df, x);
        lemma_probed_count(p, b, cfg.max_df, x);
    }
    assert(sa.to_multiset() =~= sb.to_multiset());
    assert(a.len() == b.len()) by {
        assert(a.to_multiset().len() == a.len());
        assert(b.to_multiset().len() == b.len());
    }
    assert forall|key: K| overlap(p, sa, key) == overlap(p, sb, key) by {
        lemma_overlap_permutation(p, sa, sb, key);
    }
    assert(heuristic_candidates(p, a, cfg, metrics) =~= heuristic_candidates(p, b, cfg, metrics));
}

/// With no document-frequency limit every query feature is probed.
proof fn lemma_probed_all<K, F>(p: Map<F, Set<K>>, q: Seq<F>)
    ensures
        probed_features(p, q, None) == q,
    decreases q.len(),
{
    if q.len() > 0 {
        lemma_probed_all(p, q.drop_last());
        assert(q.drop_last().push(q.last()) =~= q);
    }
}

/// A search with every heuristic disabled has exactly the candidates of the
/// plain posting search.
pub proof fn lemma_exhaustive_is_plain<K, F>(p: Map<F, Set<K>>, q: Seq<F>, metrics: Map<K, Metric>)
    ensures
        heuristic_candidates(p, q, exhaustive_config(), metrics) == candidate_overlaps(p, q),
{
    lemma_probed_all(p, q);
    assert(heuristic_candidates(p, q, exhaustive_config(), metrics) =~= candidate_overlaps(p, q));
}

/// With every heuristic disabled (the default configuration), a heuristic
/// search may answer exactly what the plain posting search may answer over
/// the same postings: the same rankings, with the same scores.
pub proof fn lemma_exhaustive_ranks_as_plain<K, F>(
    p: Map<F, Set<K>>,
    q: Seq<F>,
    metrics: Map<K, Metric>,
    v: Seq<(K, SimilarityScore)>,
    k: nat,
)
    ensures
        ranked(v, heuristic_candidates(p, q, exhaustive_config(), metrics), q.len(), k) <==> ranked(
            v,
            candidate_overlaps(p, q),
            q.len(),
            k,
        ),
{
    lemma_exhaustive_is_plain(p, q, metrics);
}

/// Probing rare features first changes neither the candidates nor their
/// overlaps.
pub proof fn lemma_rare_first_keeps_candidates<K, F>(
    p: Map<F, Set<K>>,
    q: Seq<F>,
    cfg: SearchConfig,
    metrics: Map<K, Metric>,
)
    ensures
        heuristic_candidates(p, q, cfg, metrics) == heuristic_candidates(
            p,
            q,
            SearchConfig { rare_first: !cfg.rare_first, ..cfg },
            metrics,
        ),
{
}

/// Projecting two reorderings of a sequence gives reorderings.
proof fn lemma_first_permutation<A, B>(a: Seq<(A, B)>, b: Seq<(A, B)>)
    requires
        a.to_multiset() == b.to_multiset(),
    ensures
        a.map_values(|e: (A, B)| e.0).to_multiset() == b.map_values(|e: (A, B)| e.0).to_multiset(),
    decreases a.len(),
{
    broadcast use vstd::seq_lib::group_to_multiset_ensures;
    broadcast use vstd::multiset::group_multiset_axioms;

    let fa = a.map_values(|e: (A, B)| e.0);
    let fb = b.map_values(|e: (A, B)| e.0);
    assert(a.to_multiset().len() == a.len());
    assert(b.to_multiset().len() == b.len());
    if a.len() == 0 {
        assert(fa =~= Seq::<A>::empty());
        assert(b.len() == 0);
        assert(fb =~= Seq::<A>::empty());
    } else {
        let x = a.last();
        assert(a.contains(x));
        assert(a.to_multiset().count(x) > 0);
        assert(b.contains(x));
        let i = choose|i: int| 0 <= i < b.len() && b[i] == x;
        assert(a.remove(a.len() - 1) =~= a.drop_last());
        assert(a.drop_last().to_multiset() == a.to_multiset().remove(x));
        assert(b.remove(i).to_multiset() == b.to_multiset().remove(x));
        lemma_first_permutation(a.drop_last(), b.remove(i));
        let fa1 = a.drop_last().map_values(|e: (A, B)| e.0);
        let fb1 = b.remove(i).map_values(|e: (A, B)| e.0);
        assert(fa =~= fa1.push(x.0));
        assert(fb1 =~= fb.remove(i));
        assert(fb.to_multiset() =~= fb.remove(i).to_multiset().insert(x.0)) by {
            assert(fb.remove(i).to_multiset() == fb.to_multiset().remove(fb[i]));
            assert(fb.contains(fb[i]));
        }
    }
}

/// Inverted index with heuristic-guided search and false-positive feedback.
pub struct HeuristicInvertedSketchIndex<K: IndexKey, S: Sketch, ST: Store<K, S>> {
    store: ST,
    config: SearchConfig,
    metrics: MetricsMap<K>,
    _phantom: PhantomData<(K, S)>,
}

impl<K: IndexKey, S: Sketch, ST: Store<K, S>> HeuristicInvertedSketchIndex<K, S, ST> {
    /// The storage behind the index.
    pub closed spec fn store(&self) -> ST {
        self.store
    }

    /// The active search configuration.
    pub closed spec fn spec_config(&self) -> SearchConfig {
        self.config
    }

    /// The false-positive metric of each key.
    pub closed spec fn metrics(&self) -> Map<K, Metric> {
        self.metrics.metrics()
    }

    /// Creates an index over `store` with every heuristic disabled; keys
    /// must obey the hash-table key model.
    pub fn new(store: ST) -> (r: Self)
        requires
            vstd::std_specs::hash::obeys_key_model::<K>(),
        ensures
            r.store() == store,
            r.spec_config() == exhaustive_config(),
            r.metrics() == Map::<K, Metric>::empty(),
    {
        Self::with_config(store, SearchConfig::new())
    }

    /// Creates an index over `store` searching with `config`; keys must
    /// obey the hash-table key model.
    pub fn with_config(store: ST, config: SearchConfig) -> (r: Self)
        requires
            vstd::std_specs::hash::obeys_key_model::<K>(),
        ensures
            r.store() == store,
            r.spec_config() == config,
            r.metrics() == Map::<K, Metric>::empty(),
    {
        HeuristicInvertedSketchIndex { store, config, metrics: MetricsMap::new(), _phantom: PhantomData }
    }

    /// The storage behind the index, for reading.
    pub fn storage(&self) -> (r: &ST)
        ensures
            *r == self.store(),
    {
        &self.store
    }

    /// Returns the storage behind the index.
    pub fn into_store(self) -> (r: ST)
        ensures
            r == self.store(),
    {
        self.store
    }

    /// Replaces the active search configuration.
    pub fn set_config(&mut self, config: SearchConfig)
        ensures
            final(self).spec_config() == config,
            final(self).store() == old(self).store(),
            final(self).metrics() == old(self).metrics(),
    {
        self.config = config;
    }

    /// Returns a copy of the active search configuration.
    pub fn config(&self) -> (r: SearchConfig)
        ensures
            r == self.spec_config(),
    {
        self.config
    }

    /// Increments the false-positive counter of `key`, saturating at
    /// `u8::MAX`; a key without a counter starts from zero.
    pub fn record_false_positive(&mut self, key: &K)
        ensures
            final(self).metrics() == old(self).metrics().insert(*key, {
                let cur = if old(self).metrics().contains_key(*key) { old(self).metrics()[*key] as int } else { 0 };
                if cur < u8::MAX { (cur + 1) as u8 } else { u8::MAX }
            }),
            final(self).store() == old(self).store(),
            final(self).spec_config() == old(self).spec_config(),
    {
        let current = match self.metrics.get_metric(key) {
            Some(m) => m,
            None => 0,
        };
        self.metrics.set_metric(key, current.saturating_add(1));
    }

    /// Clears the false-positive counter of `key` after a successful verify.
    pub fn record_verified(&mut self, key: &K)
        ensures
            final(self).metrics() == old(self).metrics().remove(*key),
            final(self).store() == old(self).store(),
            final(self).spec_config() == old(self).spec_config(),
    {
        self.metrics.remove_metric(key);
    }

    /// Returns the false-positive counter of `key`, if any.
    pub fn get_metric(&self, key: &K) -> (r: Option<Metric>)
        ensures
            r == (if self.metrics().contains_key(*key) { Some(self.metrics()[*key]) } else { None }),
    {
        self.metrics.get_metric(key)
    }

    /// Inserts an entry, posting `key` under every feature of `sketch`.
    pub fn put(&mut self, key: &K, sketch: S) -> (r: Result<(), IndexError>)
        ensures
            r is Ok,
            final(self).store().postings() == (if !ST::records_entries() || !old(self).store().entries().contains_key(*key) {
                with_entry(old(self).store().postings(), *key, sketch.features())
            } else {
                old(self).store().postings()
            }),
            final(self).store().entries() == (if ST::records_entries() && !old(self).store().entries().contains_key(*key) {
                old(self).store().entries().insert(*key, sketch.features())
            } else {
                old(self).store().entries()
            }),
            final(self).metrics() == old(self).metrics(),
            final(self).spec_config() == old(self).spec_config(),
    {
        self.store.insert_entry(*key, sketch)
    }

    /// Removes the entry of `key` from the posting lists its recorded
    /// features name, and drops its false-positive counter.
    pub fn remove(&mut self, key: &K) -> (r: Result<(), IndexError>)
        ensures
            r is Ok,
            final(self).store().postings() == (if old(self).store().entries().contains_key(*key) {
                without_entry(old(self).store().postings(), *key, old(self).store().entries()[*key])
            } else {
                old(self).store().postings()
            }),
            final(self).store().entries() == old(self).store().entries().remove(*key),
            final(self).metrics() == old(self).metrics().remove(*key),
            final(self).spec_config() == old(self).spec_config(),
    {
        self.store.remove_entry(key)?;
        self.metrics.remove_metric(key);
        Ok(())
    }

    /// Counts, for every key, the probed query features it is posted under.
    fn gather_candidates(&self, query: &S, config: &SearchConfig) -> (r: Result<
        std::collections::HashMap<K, usize>,
        IndexError,
    >)
        ensures
            r matches Ok(counts) && {
                let sel = probed_features(self.store().postings(), query.features(), config.max_df);
                &&& forall|key: K| #[trigger] counts@.contains_key(key) <==> overlap(self.store().postings(), sel, key) > 0
                &&& forall|key: K| #[trigger] counts@.contains_key(key) ==> counts@[key] == overlap(
                    self.store().postings(),
                    sel,
                    key,
                )
            },
    {
        proof {
            use_type_invariant(&self.metrics);
        }
        let ghost p = self.store.postings();
        let ghost q = query.features();
        let n = query.len();
        let qs = query.as_slice();
        let mut features: Vec<(S::Feature, usize)> = Vec::new();
        let mut i: usize = 0;
        proof {
            assert(q.take(0) =~= Seq::<S::Feature>::empty());
            assert(features@.map_values(|e: (S::Feature, usize)| e.0) =~= Seq::<S::Feature>::empty());
        }
        while i < n
            invariant
                n == q.len(),
                qs@ == q,
                p == self.store.postings(),
                i <= n,
                features@.map_values(|e: (S::Feature, usize)| e.0) == probed_features(p, q.take(i as int), config.max_df),
            decreases n - i,
        {
            let list = self.store.posting_list(qs[i])?;
            let df = list.len();
            proof {
                list@.unique_seq_to_set();
                assert(q.take(i + 1).drop_last() =~= q.take(i as int));
                assert(q.take(i + 1).last() == q[i as int]);
            }
            let keep = match config.max_df {
                Some(max_df) => df <= max_df,
                None => true,
            };
            if keep {
                let ghost before = features@;
                features.push((qs[i], df));
                proof {
                    assert(features@.map_values(|e: (S::Feature, usize)| e.0) =~= before.map_values(
                        |e: (S::Feature, usize)| e.0,
                    ).push(qs@[i as int]));
                }
            }
            i += 1;
        }
        proof {
            assert(q.take(n as int) =~= q);
        }
        let ghost unsorted = features@;
        if config.rare_first {
            sort_by_count_asc(&mut features);
            proof {
                lemma_first_permutation(features@, unsorted);
            }
        }
        let m = features.len();
        let mut fs: Vec<S::Feature> = Vec::new();
        let mut j: usize = 0;
        while j < m
            invariant
                m == features@.len(),
                j <= m,
                fs@ == features@.map_values(|e: (S::Feature, usize)| e.0).take(j as int),
            decreases m - j,
        {
            fs.push(features[j].0);
            proof {
                let all = features@.map_values(|e: (S::Feature, usize)| e.0);
                assert(all.take(j + 1) =~= all.take(j as int).push(all[j as int]));
            }
            j += 1;
        }
        let ghost sel = probed_features(p, q, config.max_df);
        proof {
            let all = features@.map_values(|e: (S::Feature, usize)| e.0);
            assert(all.take(m as int) =~= all);
            assert(fs@.to_multiset() == sel.to_multiset());
        }
        let counts = count_postings(&self.store, fs.as_slice())?;
        proof {
            assert forall|key: K| overlap(p, fs@, key) == overlap(p, sel, key) by {
                lemma_overlap_permutation(p, fs@, sel, key);
            }
        }
        Ok(counts)
    }

    /// Returns the top `k` keys most similar to the query sketch, highest
    /// similarity first, with their exact scores, under the active
    /// heuristics: only probed features count, and keys failing the
    /// false-positive or minimum-overlap filter are skipped.
    pub fn top_k(&self, query: &S, k: usize) -> (r: Result<Vec<(K, SimilarityScore)>, IndexError>)
        requires
            S::width() * 2 <= usize::MAX,
        ensures
            r matches Ok(v) && ranked(
                v@,
                heuristic_candidates(self.store().postings(), query.features(), self.spec_config(), self.metrics()),
                query.features().len(),
                k as nat,
            ),
    {
        let ghost p = self.store.postings();
        let ghost q = query.features();
        let ghost cands = heuristic_candidates(p, q, self.config, self.metrics());
        if k == 0 || query.is_empty() {
            let v: Vec<(K, SimilarityScore)> = Vec::new();
            proof {
                let r = v@.map_values(|e: (K, SimilarityScore)| (e.0, e.1.spec_intersection()));
                let kk = if q.len() == 0 { 0 } else { k as nat };
                assert forall|key: K| #[trigger] cands.contains_key(key) && !has_key(r, key)
                    implies r.len() == kk && (kk > 0 ==> cands[key] <= r[r.len() - 1].1) by {
                    if q.len() == 0 {
                        lemma_probed_len(p, q, self.config.max_df);
                        lemma_overlap_le_len(p, probed_features(p, q, self.config.max_df), key);
                    }
                }
            }
            return Ok(v);
        }
        proof {
            use_type_invariant(&self.metrics);
        }
        let config = self.config();
        let n = query.len();
        let counts = self.gather_candidates(query, &config)?;
        let all = counts_to_entries(&counts);
        let ghost sel = probed_features(p, q, config.max_df);
        let min_o: usize = match config.min_jaccard {
            Some((num, den)) => min_overlap_for_jaccard(num, den, n),
            None => 0,
        };
        proof {
            assert forall|o: nat| o <= n implies (#[trigger] passes_min(config.min_jaccard, o, n as nat) <==> o
                >= min_o) by {
                if let Some((num, den)) = config.min_jaccard {
                    lemma_min_overlap_threshold(num, den, n as nat, o);
                }
            }
        }
        let len = all.len();
        let mut entries: Vec<(K, usize)> = Vec::new();
        let mut i: usize = 0;
        while i < len
            invariant
                len == all@.len(),
                i <= len,
                config == self.config,
                cands == heuristic_candidates(p, q, config, self.metrics()),
                sel == probed_features(p, q, config.max_df),
                p == self.store.postings(),
                n == q.len(),
                forall|o: nat| o <= n ==> (#[trigger] passes_min(config.min_jaccard, o, n as nat) <==> o >= min_o),
                forall|a: int, b: int| 0 <= a < b < all@.len() ==> #[trigger] all@[a].0 != #[trigger] all@[b].0,
                forall|t: int| 0 <= t < all@.len() ==> counts@.contains_key(#[trigger] all@[t].0) && all@[t].1 == counts@[all@[t].0],
                forall|key: K| #[trigger] counts@.contains_key(key) <==> overlap(p, sel, key) > 0,
                forall|key: K| #[trigger] counts@.contains_key(key) ==> counts@[key] == overlap(p, sel, key),
                forall|a: int, b: int| 0 <= a < b < entries@.len() ==> #[trigger] entries@[a].0 != #[trigger] entries@[b].0,
                forall|t: int| 0 <= t < entries@.len() ==> cands.contains_key(#[trigger] entries@[t].0)
                    && entries@[t].1 == cands[entries@[t].0],
                forall|t: int| 0 <= t < entries@.len() ==> exists|a: int| 0 <= a < i && all@[a].0 == #[trigger] entries@[t].0,
                forall|a: int| 0 <= a < i && cands.contains_key(#[trigger] all@[a].0) ==> has_key(entries@, all@[a].0),
            decreases len - i,
        {
            let (key, o) = all[i];
            let pass_fp = match config.fp_metric_threshold {
                Some(t) => match self.metrics.get_metric(&key) {
                    Some(m) => m < t,
                    None => true,
                },
                None => true,
            };
            let pass_min = o >= min_o;
            proof {
                assert(o == overlap(p, sel, key));
                lemma_probed_len(p, q, config.max_df);
                lemma_overlap_le_len(p, sel, key);
                assert(pass_min == passes_min(config.min_jaccard, o as nat, n as nat));
            }
            let ghost before = entries@;
            if pass_fp && pass_min {
                entries.push((key, o));
                proof {
                    assert(entries@[before.len() as int] == (key, o));
                    assert forall|a: int, b: int| 0 <= a < b < entries@.len() implies #[trigger] entries@[a].0
                        != #[trigger] entries@[b].0 by {
                        if b == before.len() {
                            let c = choose|c: int| 0 <= c < i && all@[c].0 == #[trigger] before[a].0;
                            assert(all@[c].0 != all@[i as int].0);
                        }
                    }
                    assert forall|t: int| 0 <= t < entries@.len() implies exists|a: int| 0 <= a < i + 1 && all@[a].0
                        == #[trigger] entries@[t].0 by {
                        if t == before.len() {
                            assert(all@[i as int].0 == entries@[t].0);
                        } else {
                            let c = choose|c: int| 0 <= c < i && all@[c].0 == #[trigger] before[t].0;
                            assert(all@[c].0 == entries@[t].0);
                        }
                    }
                    assert forall|a: int| 0 <= a < i + 1 && cands.contains_key(#[trigger] all@[a].0) implies has_key(
                        entries@,
                        all@[a].0,
                    ) by {
                        if a < i {
                            let t = choose|t: int| 0 <= t < before.len() && #[trigger] before[t].0 == all@[a].0;
                            assert(entries@[t].0 == all@[a].0);
                        } else {
                            assert(entries@[before.len() as int].0 == all@[a].0);
                        }
                    }
                }
            } else {
                proof {
                    assert(!cands.contains_key(key));
                    assert forall|t: int| 0 <= t < entries@.len() implies exists|a: int| 0 <= a < i + 1 && all@[a].0
                        == #[trigger] entries@[t].0 by {
                        let c = choose|c: int| 0 <= c < i && all@[c].0 == #[trigger] before[t].0;
                    }
                }
            }
            i += 1;
        }
        proof {
            assert forall|key: K| #[trigger] cands.contains_key(key) implies has_key(entries@, key) by {
                assert(counts@.contains_key(key));
                let a = choose|a: int| 0 <= a < all@.len() && #[trigger] all@[a].0 == key;
            }
            assert(lists_counts(entries@, cands));
            assert forall|key: K| #[trigger] cands.contains_key(key) implies cands[key] <= n by {
                lemma_probed_len(p, q, config.max_df);
                lemma_overlap_le_len(p, sel, key);
            }
        }
        let out = rank_and_score(entries, k, n, Ghost(cands));
        Ok(out)
    }

    /// Searches for the closest matching key under the active heuristics,
    /// or `None` when no key is a candidate.
    pub fn get(&self, query: &S) -> (r: Result<Option<K>, IndexError>)
        requires
            S::width() * 2 <= usize::MAX,
        ensures
            r matches Ok(o) && {
                let cands = heuristic_candidates(self.store().postings(), query.features(), self.spec_config(), self.metrics());
                &&& o is None <==> forall|key: K| !cands.contains_key(key)
                &&& o matches Some(best) ==> cands.contains_key(best) && forall|key: K|
                    #[trigger] cands.contains_key(key) ==> cands[key] <= cands[best]
            },
    {
        let top = self.top_k(query, 1)?;
        let ghost cands = heuristic_candidates(self.store().postings(), query.features(), self.spec_config(), self.metrics());
        let ghost rk = top@.map_values(|e: (K, SimilarityScore)| (e.0, e.1.spec_intersection()));
        if top.len() == 0 {
            proof {
                assert forall|key: K| !cands.contains_key(key) by {
                    if cands.contains_key(key) {
                        assert(!has_key(rk, key));
                        if query.features().len() == 0 {
                            lemma_probed_len(self.store().postings(), query.features(), self.spec_config().max_df);
                            lemma_overlap_le_len(self.store().postings(),
                                probed_features(self.store().postings(), query.features(), self.spec_config().max_df), key);
                        }
                    }
                }
            }
            Ok(None)
        } else {
            let best = top[0].0;
            proof {
                assert(rk[0].0 == best);
                assert(cands.contains_key(rk[0].0));
                assert forall|key: K| #[trigger] cands.contains_key(key) implies cands[key] <= cands[best] by {
                    if key != best && has_key(rk, key) {
                        let i = choose|i: int| 0 <= i < rk.len() && #[trigger] rk[i].0 == key;
                        assert(i == 0);
                    }
                }
            }
            Ok(Some(best))
        }
    }

    /// Removes all entries and all false-positive counters.
    pub fn clear(&mut self) -> (r: Result<(), IndexError>)
        ensures
            r is Ok,
            final(self).store().postings() == Map::<S::Feature, Set<K>>::empty(),
            final(self).store().entries() == old(self).store().entries(),
            final(self).metrics() == Map::<K, Metric>::empty(),
            final(self).spec_config() == old(self).spec_config(),
    {
        self.metrics.clear_all();
        Store::<K, S>::clear(&mut self.store)
    }
}

} // verus!
