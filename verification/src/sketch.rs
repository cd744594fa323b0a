//! Sketch data types for similarity search.
//!
//! A sketch is a fixed-size, sorted array of features; similar chunks yield
//! sketches that share many features.

use vstd::prelude::*;

pub mod feature;
pub mod fixed;
pub mod similarity;

pub use feature::{IndexKey, SketchFeature};
pub use similarity::{jaccard_ge, SimilarityScore};
pub use fixed::{multiset_intersection_len, FixedSketch, SketchError, U32Sketch, U64Sketch};

verus! {

/// A fixed-size set of features used in similarity search.
///
/// Implementations keep their features sorted; the set operations below are
/// stated over [`Sketch::features`].
pub trait Sketch: Sized {
    /// Feature element stored in the sketch.
    type Feature: SketchFeature;

    /// The features of the sketch, in ascending order.
    spec fn features(&self) -> Seq<Self::Feature>;

    /// The number of features every sketch of this type holds.
    spec fn width() -> nat;

    /// Every sketch of this type holds exactly `width` features.
    proof fn lemma_width(&self)
        ensures
            self.features().len() == Self::width(),
    ;

    /// Returns the number of elements in the sketch.
    fn len(&self) -> (n: usize)
        ensures
            n == self.features().len(),
            n == Self::width(),
    ;

    /// Returns `true` if the sketch is empty.
    fn is_empty(&self) -> (b: bool)
        ensures
            b == (self.features().len() == 0),
    ;

    /// Returns the sketch elements as a contiguous slice.
    fn as_slice(&self) -> (s: &[Self::Feature])
        ensures
            s@ == self.features(),
    ;

    /// Returns the number of elements present in both sketches, counted with
    /// multiplicity. O(N).
    fn intersection_size(&self, other: &Self) -> (n: usize)
        ensures
            n == multiset_intersection_len(self.features(), other.features()),
    ;

    /// Returns `true` if the sketch contains the given value. O(log N).
    fn contains(&self, value: Self::Feature) -> (b: bool)
        ensures
            b == self.features().contains(value),
    ;
}

} // verus!
