use marline::heuristic_index::{min_overlap_for_jaccard, HeuristicInvertedSketchIndex, SearchConfig};
use marline::index::store::IndexStorage;
use marline::index::InvertedSketchIndex;
use marline::sketch::{SimilarityScore, U32Sketch, U64Sketch};

type Idx = HeuristicInvertedSketchIndex<u64, U32Sketch<6>, IndexStorage<u64, u32>>;

fn idx() -> Idx {
    HeuristicInvertedSketchIndex::new(IndexStorage::new())
}

fn idx_with(config: SearchConfig) -> Idx {
    HeuristicInvertedSketchIndex::with_config(IndexStorage::new(), config)
}

fn mk(vals: [u32; 6]) -> U32Sketch<6> {
    U32Sketch::new(vals).unwrap()
}

fn jaccard(score: SimilarityScore) -> f64 {
    score.intersection() as f64 / score.union() as f64
}

#[test]
fn min_overlap_half_jaccard_size_six() {
    assert_eq!(min_overlap_for_jaccard(1, 2, 6), 4);
}

#[test]
fn min_overlap_perfect_match() {
    assert_eq!(min_overlap_for_jaccard(1, 1, 6), 6);
}

#[test]
fn min_overlap_zero_threshold() {
    assert_eq!(min_overlap_for_jaccard(0, 1, 6), 0);
}

#[test]
fn min_overlap_above_one_unreachable() {
    assert_eq!(min_overlap_for_jaccard(11, 10, 6), 7);
}

#[test]
fn min_overlap_rounds_up() {
    // 2 * 5 * 1 / (1 + 3) = 2.5, so three shared features are needed.
    assert_eq!(min_overlap_for_jaccard(1, 3, 5), 3);
    assert_eq!(min_overlap_for_jaccard(1, 2, 0), 0);
}

#[test]
fn search_config_default_disables_heuristics() {
    let cfg = SearchConfig::default();
    assert!(cfg.min_jaccard.is_none());
    assert!(cfg.max_df.is_none());
    assert!(!cfg.rare_first);
    assert!(cfg.fp_metric_threshold.is_none());
}

#[test]
fn mod_get_returns_closest_matching_key() {
    let mut index = idx();
    index.put(&1, mk([1, 2, 3, 4, 5, 6])).unwrap();
    index.put(&2, mk([1, 2, 3, 7, 8, 9])).unwrap();

    assert_eq!(index.get(&mk([1, 2, 3, 4, 11, 12])).unwrap(), Some(1));
}

#[test]
fn mod_get_returns_none_on_empty_index() {
    let index = idx();
    assert_eq!(index.get(&mk([1, 2, 3, 4, 5, 6])).unwrap(), None);
}

#[test]
fn mod_top_k_self_match_has_perfect_score() {
    let mut index = idx();
    let sketch = mk([1, 2, 3, 4, 5, 6]);
    index.put(&1, sketch).unwrap();

    let results = index.top_k(&sketch, 5).unwrap();

    assert_eq!(results.len(), 1);
    assert_eq!(results[0].0, 1);
    assert!((jaccard(results[0].1) - 1.0).abs() < 1e-6);
}

#[test]
fn mod_top_k_orders_by_similarity() {
    let mut index = idx();
    index.put(&1, mk([1, 2, 3, 4, 5, 6])).unwrap();
    index.put(&2, mk([1, 2, 3, 7, 8, 9])).unwrap();
    index.put(&3, mk([1, 2, 11, 12, 13, 14])).unwrap();

    let results = index.top_k(&mk([1, 2, 3, 4, 5, 6]), 3).unwrap();

    assert_eq!(results.len(), 3);
    assert!((jaccard(results[0].1) - 1.0).abs() < 1e-6);
    assert!((jaccard(results[1].1) - 3.0 / 9.0).abs() < 1e-6);
    assert!((jaccard(results[2].1) - 2.0 / 10.0).abs() < 1e-6);
}

#[test]
fn mod_top_k_returns_all_when_less_than_k() {
    let mut index = idx();
    let sketch = mk([1, 2, 3, 4, 5, 6]);
    index.put(&42, sketch).unwrap();

    assert_eq!(index.top_k(&sketch, 100).unwrap().len(), 1);
}

#[test]
fn mod_top_k_with_zero_k_returns_empty() {
    let mut index = idx();
    index.put(&42, mk([1, 2, 3, 4, 5, 6])).unwrap();

    assert!(index.top_k(&mk([1, 2, 3, 4, 5, 6]), 0).unwrap().is_empty());
}

#[test]
fn mod_top_k_empty_index_returns_empty() {
    let index = idx();
    assert!(index.top_k(&mk([1, 2, 3, 4, 5, 6]), 5).unwrap().is_empty());
}

#[test]
fn mod_top_k_no_overlap_returns_only_candidates_with_overlap() {
    let mut index = idx();
    index.put(&1, mk([1, 2, 3, 4, 5, 6])).unwrap();
    index.put(&2, mk([7, 8, 9, 10, 11, 12])).unwrap();

    let results = index.top_k(&mk([1, 2, 3, 4, 5, 6]), 5).unwrap();

    assert_eq!(results.len(), 1);
    assert_eq!(results[0].0, 1);
}

#[test]
fn mod_put_overwrite_removes_old_postings() {
    let mut index = idx();
    index.put(&1, mk([1, 2, 3, 4, 5, 6])).unwrap();
    index.put(&1, mk([10, 11, 12, 13, 14, 15])).unwrap();

    assert_eq!(index.get(&mk([1, 2, 3, 4, 5, 6])).unwrap(), Some(1));
    assert_eq!(index.get(&mk([10, 11, 12, 13, 14, 15])).unwrap(), Some(1));
}

#[test]
fn mod_repeated_put_same_key_does_not_duplicate_candidates() {
    let mut index = idx();
    let sketch = mk([1, 2, 3, 4, 5, 6]);

    index.put(&1, sketch).unwrap();
    index.put(&1, sketch).unwrap();

    let results = index.top_k(&sketch, 10).unwrap();
    assert_eq!(results.len(), 1);
    assert_eq!(results[0].0, 1);
}

#[test]
fn remove_clears_postings_and_metrics() {
    let mut index = idx();
    index.put(&1, mk([1, 2, 3, 4, 5, 6])).unwrap();
    index.record_false_positive(&1);
    assert_eq!(index.get_metric(&1), Some(1));

    index.remove(&1).unwrap();
    assert_eq!(index.get_metric(&1), None);
}

#[test]
fn mod_clear_removes_all_entries() {
    let mut index = idx();
    index.put(&1, mk([1, 2, 3, 4, 5, 6])).unwrap();
    index.put(&2, mk([7, 8, 9, 10, 11, 12])).unwrap();

    index.clear().unwrap();

    assert!(index.top_k(&mk([1, 2, 3, 4, 5, 6]), 5).unwrap().is_empty());
}

#[test]
fn heuristic_supports_u64_features() {
    let mut index: HeuristicInvertedSketchIndex<u64, U64Sketch<3>, IndexStorage<u64, u64>> =
        HeuristicInvertedSketchIndex::new(IndexStorage::new());
    let sketch = U64Sketch::<3>::new([10, 20, 30]).unwrap();

    index.put(&1, sketch).unwrap();

    assert_eq!(index.get(&sketch).unwrap(), Some(1));
}

#[test]
fn max_df_skips_frequent_features_but_keeps_exact_match() {
    let mut index = idx_with(SearchConfig { max_df: Some(2), ..SearchConfig::default() });

    for key in 1..=5u64 {
        index
            .put(
                &key,
                mk([
                    1,
                    key as u32 * 10,
                    key as u32 * 10 + 1,
                    key as u32 * 10 + 2,
                    key as u32 * 10 + 3,
                    key as u32 * 10 + 4,
                ]),
            )
            .unwrap();
    }
    index.put(&100, mk([1, 90, 91, 92, 93, 94])).unwrap();

    let results = index.top_k(&mk([1, 90, 91, 92, 93, 94]), 5).unwrap();
    assert!(results.iter().any(|(k, _)| *k == 100));
    assert!(!results.iter().any(|(k, _)| (1..=5).contains(k)));
}

// The Jaccard threshold 0.5, as the ratio 1/2.
#[test]
fn min_jaccard_prunes_weak_candidates() {
    let mut index = idx_with(SearchConfig { min_jaccard: Some((1, 2)), ..SearchConfig::default() });

    index.put(&1, mk([1, 2, 3, 4, 5, 6])).unwrap();
    index.put(&2, mk([1, 2, 11, 12, 13, 14])).unwrap();
    index.put(&3, mk([1, 2, 3, 15, 16, 17])).unwrap();
    index.put(&4, mk([1, 2, 3, 4, 18, 19])).unwrap();

    let results = index.top_k(&mk([1, 2, 3, 4, 5, 6]), 10).unwrap();
    let keys: Vec<u64> = results.iter().map(|(k, _)| *k).collect();

    assert!(keys.contains(&1));
    assert!(keys.contains(&4));
    assert!(!keys.contains(&2));
    assert!(!keys.contains(&3));
}

#[test]
fn rare_first_preserves_exact_scores() {
    let mut index = idx_with(SearchConfig {
        rare_first: true,
        min_jaccard: Some((1, 2)),
        ..SearchConfig::default()
    });

    for key in 1..=8u64 {
        index
            .put(
                &key,
                mk([
                    1,
                    key as u32 * 10,
                    key as u32 * 10 + 1,
                    key as u32 * 10 + 2,
                    key as u32 * 10 + 3,
                    key as u32 * 10 + 4,
                ]),
            )
            .unwrap();
    }

    let target = mk([1, 200, 201, 202, 203, 204]);
    index.put(&99, target).unwrap();

    let results = index.top_k(&target, 5).unwrap();
    assert_eq!(results[0].0, 99);
    assert!((jaccard(results[0].1) - 1.0).abs() < 1e-6);
}

#[test]
fn fp_metric_filters_keys_at_threshold() {
    let mut index = idx_with(SearchConfig { fp_metric_threshold: Some(3), ..SearchConfig::default() });

    let sketch = mk([1, 2, 3, 4, 5, 6]);
    index.put(&1, sketch).unwrap();
    index.put(&2, mk([1, 2, 3, 7, 8, 9])).unwrap();

    index.record_false_positive(&1);
    index.record_false_positive(&1);
    index.record_false_positive(&1);
    assert_eq!(index.get_metric(&1), Some(3));

    let results = index.top_k(&sketch, 5).unwrap();
    assert!(!results.iter().any(|(k, _)| *k == 1));
    assert!(results.iter().any(|(k, _)| *k == 2));
}

#[test]
fn record_verified_clears_fp_metric() {
    let mut index = idx();
    index.put(&1, mk([1, 2, 3, 4, 5, 6])).unwrap();

    index.record_false_positive(&1);
    index.record_false_positive(&1);
    assert_eq!(index.get_metric(&1), Some(2));

    index.record_verified(&1);
    assert_eq!(index.get_metric(&1), None);

    assert_eq!(index.get(&mk([1, 2, 3, 4, 5, 6])).unwrap(), Some(1));
}

#[test]
fn false_positive_counter_saturates() {
    let mut index = idx();
    for _ in 0..300 {
        index.record_false_positive(&7);
    }
    assert_eq!(index.get_metric(&7), Some(u8::MAX));
}

#[test]
fn set_config_replaces_config() {
    let mut index = idx();
    let cfg = SearchConfig { max_df: Some(1), rare_first: true, ..SearchConfig::new() };
    index.set_config(cfg);
    assert_eq!(index.config(), cfg);
}

#[test]
fn exhaustive_search_matches_plain_index() {
    let mut plain: InvertedSketchIndex<u64, U32Sketch<6>, IndexStorage<u64, u32>> =
        InvertedSketchIndex::new(IndexStorage::new());
    let mut heur = idx();
    let entries = [
        (1u64, [1, 2, 3, 4, 5, 6]),
        (2, [1, 2, 3, 40, 50, 60]),
        (3, [7, 8, 9, 10, 11, 12]),
        (4, [1, 20, 30, 40, 50, 60]),
    ];
    for (k, v) in entries {
        plain.put(&k, mk(v)).unwrap();
        heur.put(&k, mk(v)).unwrap();
    }
    let q = mk([1, 2, 3, 4, 50, 99]);
    let a: Vec<(u64, usize)> = plain.top_k(&q, 10).unwrap().iter().map(|(k, s)| (*k, s.intersection())).collect();
    let b: Vec<(u64, usize)> = heur.top_k(&q, 10).unwrap().iter().map(|(k, s)| (*k, s.intersection())).collect();
    let mut sa = a.clone();
    let mut sb = b.clone();
    sa.sort();
    sb.sort();
    assert_eq!(sa, sb);
    assert_eq!(a[0].1, 4);
    assert_eq!(a.len(), 3);
}

#[test]
fn default_search_ranks_as_the_plain_index() {
    let mut h = idx();
    let mut plain: InvertedSketchIndex<u64, U32Sketch<6>, IndexStorage<u64, u32>> =
        InvertedSketchIndex::new(IndexStorage::new());
    let sketches = [
        mk([1, 2, 3, 4, 5, 6]),
        mk([1, 2, 3, 7, 8, 9]),
        mk([1, 2, 10, 11, 12, 13]),
        mk([20, 21, 22, 23, 24, 25]),
    ];
    for (i, s) in sketches.iter().enumerate() {
        h.put(&(i as u64), *s).unwrap();
        plain.put(&(i as u64), *s).unwrap();
    }
    let q = mk([1, 2, 3, 4, 5, 30]);
    let a = h.top_k(&q, 3).unwrap();
    let b = plain.top_k(&q, 3).unwrap();
    assert_eq!(a, b);
    assert_eq!(a.iter().map(|e| e.0).collect::<Vec<u64>>(), vec![0, 1, 2]);
}
