use marline::simple_storage::LinearSearchIndex;
use marline::sketch::{SimilarityScore, U32Sketch};

fn mk(vals: [u32; 3]) -> U32Sketch<3> {
    U32Sketch::new(vals).unwrap()
}

fn jaccard(score: SimilarityScore) -> f64 {
    score.intersection() as f64 / score.union() as f64
}

fn with_jaccard(results: Vec<(u64, SimilarityScore)>) -> Vec<(u64, f64)> {
    results.into_iter().map(|(k, s)| (k, jaccard(s))).collect()
}

#[test]
fn put_overwrites_existing_key() {
    let mut index = LinearSearchIndex::new();
    index.put(&1u64, mk([1, 2, 3])).unwrap();
    index.put(&1, mk([10, 11, 12])).unwrap();

    let results = with_jaccard(index.top_k(&mk([10, 11, 12]), 10).unwrap());
    assert_eq!(results, vec![(1, 1.0)]);

    let old_query_results = with_jaccard(index.top_k(&mk([1, 2, 3]), 10).unwrap());
    assert_eq!(old_query_results, vec![(1, 0.0)]);
}

#[test]
fn remove_deletes_all_entries_for_key() {
    let mut index = LinearSearchIndex::new();
    index.put(&1u64, mk([1, 2, 3])).unwrap();
    index.remove(&1).unwrap();

    assert!(index.top_k(&mk([1, 2, 3]), 10).unwrap().is_empty());
}

#[test]
fn linear_top_k_ranks_by_overlap() {
    let mut index = LinearSearchIndex::new();
    index.put(&1u64, mk([1, 7, 8])).unwrap();
    index.put(&2, mk([1, 2, 9])).unwrap();
    index.put(&3, mk([20, 21, 22])).unwrap();
    let results = index.top_k(&mk([1, 2, 3]), 3).unwrap();
    let keys: Vec<u64> = results.iter().map(|(k, _)| *k).collect();
    assert_eq!(keys, vec![2, 1, 3]);
    assert_eq!(results[0].1.intersection(), 2);
    assert_eq!(results[0].1.union(), 4);
    assert_eq!(results[2].1.intersection(), 0);
    assert_eq!(results[2].1.union(), 6);
}

#[test]
fn linear_get_and_clear() {
    let mut index = LinearSearchIndex::new();
    assert_eq!(index.get(&mk([1, 2, 3])).unwrap(), None);
    index.put(&5u64, mk([1, 2, 4])).unwrap();
    index.put(&6, mk([1, 5, 6])).unwrap();
    assert_eq!(index.get(&mk([1, 2, 3])).unwrap(), Some(5));
    index.clear().unwrap();
    assert_eq!(index.get(&mk([1, 2, 3])).unwrap(), None);
}

#[test]
fn linear_top_k_zero_k_is_empty() {
    let mut index = LinearSearchIndex::new();
    index.put(&1u64, mk([1, 2, 3])).unwrap();
    assert!(index.top_k(&mk([1, 2, 3]), 0).unwrap().is_empty());
}
