use marline::sketch::SimilarityScore;

fn jaccard(score: SimilarityScore) -> f64 {
    score.intersection() as f64 / score.union() as f64
}

#[test]
fn new_computes_union() {
    let score = SimilarityScore::new(26, 52);
    assert_eq!(score.union(), 78);
}

#[test]
fn new_full_overlap() {
    let score = SimilarityScore::new(100, 100);
    assert_eq!(score.intersection(), 100);
    assert_eq!(score.union(), 100);
}

#[test]
fn new_zero_intersection() {
    let score = SimilarityScore::new(0, 50);
    assert_eq!(score.intersection(), 0);
    assert_eq!(score.union(), 100);
}

#[test]
fn jaccard_similarity_half_overlap() {
    let score = SimilarityScore::new_from_two(5, 10, 5);
    assert!((jaccard(score) - 0.5).abs() < f64::EPSILON);
}

#[test]
fn jaccard_similarity_identical() {
    let score = SimilarityScore::new(10, 10);
    assert!((jaccard(score) - 1.0).abs() < f64::EPSILON);
}

#[test]
fn jaccard_similarity_no_overlap() {
    let score = SimilarityScore::new(0, 5);
    assert!((jaccard(score) - 0.0).abs() < f64::EPSILON);
}

#[test]
fn new_from_two_different_sizes() {
    let score = SimilarityScore::new_from_two(3, 4, 5);
    // union = 4 + 5 - 3 = 6
    assert_eq!(score.union(), 6);
    assert_eq!(score.intersection(), 3);
}

#[test]
fn new_from_two_same_sizes() {
    let from_two = SimilarityScore::new_from_two(5, 10, 10);
    let from_one = SimilarityScore::new(5, 10);
    assert_eq!(from_two.union(), from_one.union());
    assert_eq!(from_two.intersection(), from_one.intersection());
}

#[test]
fn new_accepts_a_union_that_fits_though_twice_the_size_does_not() {
    let size = usize::MAX / 2 + 1;
    let score = SimilarityScore::new(size, size);
    assert_eq!(score.union(), size);
    assert_eq!(score.intersection(), size);
}

#[test]
fn new_from_two_accepts_a_union_that_fits_though_the_sum_does_not() {
    let len = usize::MAX / 2 + 1;
    let score = SimilarityScore::new_from_two(len, len, len);
    assert_eq!(score.union(), len);
    let score = SimilarityScore::new_from_two(2, 5, 3);
    assert_eq!(score.union(), 6);
}
