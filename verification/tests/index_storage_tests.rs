use marline::index::store::{IndexStorage, InvertedStorage};

type Mock = IndexStorage<u64, u32>;

#[test]
fn insert_posting_is_idempotent() {
    let mut store = Mock::new();

    store.insert_posting(100, 42).unwrap();
    store.insert_posting(100, 42).unwrap();

    assert_eq!(store.posting_list(100).unwrap(), vec![42]);
}

#[test]
fn posting_lists_are_independent_by_feature() {
    let mut store = Mock::new();

    store.insert_posting(100, 1).unwrap();
    store.insert_posting(200, 2).unwrap();

    assert_eq!(store.posting_list(100).unwrap(), vec![1]);
    assert_eq!(store.posting_list(200).unwrap(), vec![2]);
}

#[test]
fn remove_posting_removes_empty_feature_bucket() {
    let mut store = Mock::new();

    store.insert_posting(100, 1).unwrap();
    store.remove_posting(100, &1).unwrap();

    assert!(store.posting_list(100).unwrap().is_empty());
    assert_eq!(store.len_postings().unwrap(), 0);
}

#[test]
fn clear_removes_all_postings() {
    let mut store = Mock::new();

    store.insert_posting(1, 1).unwrap();
    store.clear_postings().unwrap();

    assert_eq!(store.len_postings().unwrap(), 0);
}

#[test]
fn remove_posting_keeps_other_keys_of_feature() {
    let mut store = Mock::new();
    store.insert_posting(7, 1).unwrap();
    store.insert_posting(7, 2).unwrap();
    store.remove_posting(7, &1).unwrap();
    assert_eq!(store.posting_list(7).unwrap(), vec![2]);
    assert_eq!(store.len_postings().unwrap(), 1);
}

#[test]
fn entry_features_are_not_recorded() {
    let mut store = Mock::new();
    assert_eq!(store.store_entry_features(1, vec![1, 2]).unwrap(), true);
    assert_eq!(store.store_entry_features(1, vec![1, 2]).unwrap(), true);
    assert_eq!(store.take_entry_features(&1).unwrap(), None);
}

#[test]
fn postings_follow_the_calls_made() {
    let mut store = Mock::new();
    store.insert_posting(1, 10).unwrap();
    store.insert_posting(1, 11).unwrap();
    store.insert_posting(2, 10).unwrap();
    store.remove_posting(1, &10).unwrap();
    assert_eq!(store.posting_list(1).unwrap(), vec![11]);
    assert_eq!(store.posting_list(2).unwrap(), vec![10]);
    assert_eq!(store.len_postings().unwrap(), 2);
    // Removing the last key of a feature drops the feature.
    store.remove_posting(2, &10).unwrap();
    assert_eq!(store.len_postings().unwrap(), 1);
    store.clear_postings().unwrap();
    assert_eq!(store.len_postings().unwrap(), 0);
    assert!(store.posting_list(1).unwrap().is_empty());
    store.insert_posting(1, 10).unwrap();
    assert_eq!(store.posting_list(1).unwrap(), vec![10]);
}
