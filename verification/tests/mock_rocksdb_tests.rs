use marline::palantir::mock_rocksdb::MockRocksDBMap;

#[test]
fn insert_get_and_counters() {
    let mut db = MockRocksDBMap::new();
    assert!(db.is_empty());
    db.insert(vec![1], vec![10, 11]);
    db.insert(vec![2], vec![20]);
    db.insert(vec![1], vec![12, 13, 14]);
    assert_eq!(db.len(), 2);
    assert_eq!(db.get(&[1]), Some(vec![12, 13, 14]));
    assert_eq!(db.get(&[3]), None);
    assert!(db.contains(&[2]));
    assert_eq!(db.total_bytes(), 4);
    assert_eq!(db.insert_count(), 3);
    assert_eq!(db.get_count(), 2);
    db.clear();
    assert_eq!(db.len(), 0);
    assert_eq!(db.clear_count(), 1);
}

#[test]
fn read_after_write_returns_latest_value() {
    let mut m = MockRocksDBMap::new();
    m.insert(b"k".to_vec(), b"one".to_vec());
    m.insert(b"k".to_vec(), b"two".to_vec());
    assert_eq!(m.get(b"k"), Some(b"two".to_vec()));
    assert_eq!(m.len(), 1);
}
