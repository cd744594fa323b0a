use marline::sketch::{Sketch, SketchError, U32Sketch, U64Sketch};

#[test]
fn new_sorts_unsorted_input() {
    let s = U32Sketch::<3>::new([30, 10, 20]).unwrap();
    assert_eq!(s.as_array(), &[10, 20, 30]);
}

#[test]
fn new_preserves_already_sorted() {
    let s = U32Sketch::<3>::new([10, 20, 30]).unwrap();
    assert_eq!(s.as_array(), &[10, 20, 30]);
}

#[test]
fn new_different_permutations_equal() {
    let a = U32Sketch::<6>::new([60, 10, 30, 20, 50, 40]).unwrap();
    let b = U32Sketch::<6>::new([40, 50, 60, 10, 20, 30]).unwrap();
    assert_eq!(a, b);
}

#[test]
fn new_rejects_empty() {
    let err = U32Sketch::<0>::new([]).unwrap_err();
    assert_eq!(err, SketchError::EmptySketch);
}

#[test]
fn as_array_returns_sorted() {
    let s = U32Sketch::<3>::new([30, 10, 20]).unwrap();
    assert_eq!(s.as_array(), &[10, 20, 30]);
}

#[test]
fn as_slice_matches_as_array() {
    let s = U32Sketch::<3>::new([30, 10, 20]).unwrap();
    assert_eq!(s.as_slice(), s.as_array() as &[u32]);
}

#[test]
fn len_returns_n() {
    assert_eq!(U32Sketch::<6>::new([1, 2, 3, 4, 5, 6]).unwrap().len(), 6);
    assert_eq!(U32Sketch::<4>::new([1, 2, 3, 4]).unwrap().len(), 4);
    assert_eq!(U32Sketch::<3>::new([1, 2, 3]).unwrap().len(), 3);
}

#[test]
fn is_empty_for_non_empty() {
    assert!(!U32Sketch::<6>::new([1, 2, 3, 4, 5, 6]).unwrap().is_empty());
}

#[test]
fn iter_returns_all_elements() {
    let s = U32Sketch::<3>::new([30, 10, 20]).unwrap();
    let collected: Vec<u32> = s.iter().collect();
    assert_eq!(collected, vec![10, 20, 30]);
}

#[test]
fn contains_present_value() {
    let s = U32Sketch::<6>::new([10, 20, 30, 40, 50, 60]).unwrap();
    assert!(s.contains(30));
}

#[test]
fn contains_absent_value() {
    let s = U32Sketch::<6>::new([10, 20, 30, 40, 50, 60]).unwrap();
    assert!(!s.contains(99));
}

#[test]
fn full_intersection() {
    let a = U32Sketch::<6>::new([10, 20, 30, 40, 50, 60]).unwrap();
    let b = U32Sketch::<6>::new([10, 20, 30, 40, 50, 60]).unwrap();
    assert_eq!(a.intersection_size(&b), 6);
}

#[test]
fn partial_intersection() {
    let a = U32Sketch::<6>::new([10, 20, 30, 40, 50, 60]).unwrap();
    let b = U32Sketch::<6>::new([10, 20, 30, 70, 80, 90]).unwrap();
    assert_eq!(a.intersection_size(&b), 3);
}

#[test]
fn zero_intersection() {
    let a = U32Sketch::<3>::new([10, 20, 30]).unwrap();
    let b = U32Sketch::<3>::new([40, 50, 60]).unwrap();
    assert_eq!(a.intersection_size(&b), 0);
}

#[test]
fn self_intersection() {
    let a = U32Sketch::<6>::new([10, 20, 30, 40, 50, 60]).unwrap();
    assert_eq!(a.intersection_size(&a), 6);
}

#[test]
fn intersection_is_commutative() {
    let a = U32Sketch::<6>::new([10, 20, 30, 40, 50, 60]).unwrap();
    let b = U32Sketch::<6>::new([10, 20, 30, 70, 80, 90]).unwrap();
    assert_eq!(a.intersection_size(&b), b.intersection_size(&a));
}

#[test]
fn mod_supports_u64_features() {
    let s = U64Sketch::<3>::new([30_u64, 10, 20]).unwrap();
    assert_eq!(s.as_array(), &[10, 20, 30]);
    assert!(s.contains(20));
}

#[test]
fn intersection_counts_repeated_features_with_multiplicity() {
    let a = U32Sketch::<4>::new([5, 5, 5, 7]).unwrap();
    let b = U32Sketch::<4>::new([5, 5, 7, 7]).unwrap();
    assert_eq!(a.intersection_size(&b), 3);
    assert_eq!(b.intersection_size(&a), 3);
}

#[test]
fn contains_first_and_last_elements() {
    let s = U64Sketch::<4>::new([u64::MAX, 0, 7, 3]).unwrap();
    assert_eq!(s.as_array(), &[0, 3, 7, u64::MAX]);
    assert!(s.contains(0));
    assert!(s.contains(u64::MAX));
    assert!(!s.contains(4));
}

#[test]
fn new_keeps_duplicates() {
    let s = U32Sketch::<5>::new([3, 1, 3, 2, 1]).unwrap();
    assert_eq!(s.as_array(), &[1, 1, 2, 3, 3]);
}
