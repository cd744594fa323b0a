use marline::index::store::{IndexStorage, InvertedStorage};
use marline::index::InvertedSketchIndex;
use marline::sketch::{SimilarityScore, U32Sketch, U64Sketch};

fn idx() -> InvertedSketchIndex<u64, U32Sketch<6>, IndexStorage<u64, u32>> {
    InvertedSketchIndex::new(IndexStorage::new())
}

fn mk(vals: [u32; 6]) -> U32Sketch<6> {
    U32Sketch::new(vals).unwrap()
}

fn jaccard(score: SimilarityScore) -> f64 {
    score.intersection() as f64 / score.union() as f64
}

#[test]
fn inverted_get_returns_closest_matching_key() {
    let mut index = idx();
    index.put(&1, mk([1, 2, 3, 4, 5, 6])).unwrap();
    index.put(&2, mk([1, 2, 3, 7, 8, 9])).unwrap();

    assert_eq!(index.get(&mk([1, 2, 3, 4, 11, 12])).unwrap(), Some(1));
}

#[test]
fn inverted_get_returns_none_on_empty_index() {
    let index = idx();
    assert_eq!(index.get(&mk([1, 2, 3, 4, 5, 6])).unwrap(), None);
}

#[test]
fn inverted_top_k_self_match_has_perfect_score() {
    let mut index = idx();
    let sketch = mk([1, 2, 3, 4, 5, 6]);
    index.put(&1, sketch).unwrap();

    let results = index.top_k(&sketch, 5).unwrap();

    assert_eq!(results.len(), 1);
    assert_eq!(results[0].0, 1);
    assert!((jaccard(results[0].1) - 1.0).abs() < 1e-6);
}

#[test]
fn inverted_top_k_orders_by_similarity() {
    let mut index = idx();
    index.put(&1, mk([1, 2, 3, 4, 5, 6])).unwrap();
    index.put(&2, mk([1, 2, 3, 7, 8, 9])).unwrap();
    index.put(&3, mk([1, 2, 11, 12, 13, 14])).unwrap();

    let results = index.top_k(&mk([1, 2, 3, 4, 5, 6]), 3).unwrap();

    assert_eq!(results.len(), 3);
    assert!((jaccard(results[0].1) - 1.0).abs() < 1e-6);
    assert!((jaccard(results[1].1) - 3.0 / 9.0).abs() < 1e-6);
    assert!((jaccard(results[2].1) - 2.0 / 10.0).abs() < 1e-6);
}

#[test]
fn inverted_top_k_returns_all_when_less_than_k() {
    let mut index = idx();
    let sketch = mk([1, 2, 3, 4, 5, 6]);
    index.put(&42, sketch).unwrap();

    assert_eq!(index.top_k(&sketch, 100).unwrap().len(), 1);
}

#[test]
fn inverted_top_k_with_zero_k_returns_empty() {
    let mut index = idx();
    index.put(&42, mk([1, 2, 3, 4, 5, 6])).unwrap();

    assert!(index.top_k(&mk([1, 2, 3, 4, 5, 6]), 0).unwrap().is_empty());
}

#[test]
fn inverted_top_k_empty_index_returns_empty() {
    let index = idx();
    assert!(index.top_k(&mk([1, 2, 3, 4, 5, 6]), 5).unwrap().is_empty());
}

#[test]
fn inverted_top_k_no_overlap_returns_only_candidates_with_overlap() {
    let mut index = idx();
    index.put(&1, mk([1, 2, 3, 4, 5, 6])).unwrap();
    index.put(&2, mk([7, 8, 9, 10, 11, 12])).unwrap();

    let results = index.top_k(&mk([1, 2, 3, 4, 5, 6]), 5).unwrap();

    assert_eq!(results.len(), 1);
    assert_eq!(results[0].0, 1);
}

#[test]
fn inverted_put_overwrite_removes_old_postings() {
    let mut index = idx();
    index.put(&1, mk([1, 2, 3, 4, 5, 6])).unwrap();
    index.put(&1, mk([10, 11, 12, 13, 14, 15])).unwrap();

    // Old postings are NOT cleaned (no sketches to remove from).
    // Key 1 still appears for features [1,2,3,4,5,6] AND [10,11,12,13,14,15].
    // Both queries should find key 1.
    assert_eq!(index.get(&mk([1, 2, 3, 4, 5, 6])).unwrap(), Some(1));
    assert_eq!(index.get(&mk([10, 11, 12, 13, 14, 15])).unwrap(), Some(1));
}

#[test]
fn inverted_repeated_put_same_key_does_not_duplicate_candidates() {
    let mut index = idx();
    let sketch = mk([1, 2, 3, 4, 5, 6]);

    index.put(&1, sketch).unwrap();
    index.put(&1, sketch).unwrap();

    let results = index.top_k(&sketch, 10).unwrap();
    assert_eq!(results.len(), 1);
    assert_eq!(results[0].0, 1);
}

#[test]
fn remove_is_noop() {
    let mut index = idx();
    index.put(&1, mk([1, 2, 3, 4, 5, 6])).unwrap();
    index.remove(&1).unwrap();
    // Key 1 still appears (postings are not cleaned).
    let results = index.top_k(&mk([1, 2, 3, 4, 5, 6]), 5).unwrap();
    assert_eq!(results.len(), 1);
    assert_eq!(results[0].0, 1);
}

#[test]
fn inverted_clear_removes_all_entries() {
    let mut index = idx();
    index.put(&1, mk([1, 2, 3, 4, 5, 6])).unwrap();
    index.put(&2, mk([7, 8, 9, 10, 11, 12])).unwrap();

    index.clear().unwrap();

    assert!(index.top_k(&mk([1, 2, 3, 4, 5, 6]), 5).unwrap().is_empty());
}

#[test]
fn inverted_supports_u64_features() {
    let mut index: InvertedSketchIndex<u64, U64Sketch<3>, IndexStorage<u64, u64>> =
        InvertedSketchIndex::new(IndexStorage::new());
    let sketch = U64Sketch::<3>::new([10, 20, 30]).unwrap();

    index.put(&1, sketch).unwrap();

    assert_eq!(index.get(&sketch).unwrap(), Some(1));
}

#[test]
fn top_k_scores_carry_overlap_and_union() {
    let mut index = idx();
    index.put(&5, mk([1, 2, 3, 4, 50, 60])).unwrap();
    let results = index.top_k(&mk([1, 2, 3, 4, 5, 6]), 1).unwrap();
    assert_eq!(results.len(), 1);
    assert_eq!(results[0].0, 5);
    assert_eq!(results[0].1.intersection(), 4);
    assert_eq!(results[0].1.union(), 8);
}

#[test]
fn top_k_truncates_to_k_highest() {
    let mut index = idx();
    index.put(&1, mk([1, 20, 21, 22, 23, 24])).unwrap();
    index.put(&2, mk([1, 2, 30, 31, 32, 33])).unwrap();
    index.put(&3, mk([1, 2, 3, 40, 41, 42])).unwrap();
    let results = index.top_k(&mk([1, 2, 3, 4, 5, 6]), 2).unwrap();
    let keys: Vec<u64> = results.iter().map(|(k, _)| *k).collect();
    assert_eq!(keys, vec![3, 2]);
}

#[test]
fn into_store_returns_the_postings() {
    let mut index = idx();
    index.put(&9, mk([1, 2, 3, 4, 5, 6])).unwrap();
    let store = index.into_store();
    assert_eq!(store.len_postings().unwrap(), 6);
    assert_eq!(store.posting_list(4).unwrap(), vec![9]);
}

#[test]
fn put_then_get_finds_the_key_written() {
    let mut index = idx();
    let sketch = mk([1, 2, 3, 4, 5, 6]);
    index.put(&42, sketch).unwrap();
    assert_eq!(index.get(&sketch).unwrap(), Some(42));
}

#[test]
fn clear_then_put_finds_the_key_again() {
    let mut index = idx();
    index.put(&1, mk([1, 2, 3, 4, 5, 6])).unwrap();
    index.put(&2, mk([7, 8, 9, 10, 11, 12])).unwrap();
    index.clear().unwrap();
    assert_eq!(index.get(&mk([7, 8, 9, 10, 11, 12])).unwrap(), None);
    index.put(&1, mk([7, 8, 9, 10, 11, 12])).unwrap();
    assert_eq!(index.get(&mk([7, 8, 9, 10, 11, 12])).unwrap(), Some(1));
    assert_eq!(index.get(&mk([1, 2, 3, 4, 5, 6])).unwrap(), None);
}
