//! Exact similarity scores between sketches.

use vstd::prelude::*;

verus! {

/// The similarity between two sketches.
///
/// Stores intersection and union sizes; the Jaccard similarity is their
/// ratio. A score always has `0 < union` and `intersection <= union`.
#[derive(Clone, Copy, Debug, PartialEq, Eq)]
pub struct SimilarityScore {
    /// The size of the sketch intersection.
    intersection: usize,
    /// The size of the sketch union.
    union: usize,
}

impl SimilarityScore {
    /// Every score has a positive union no smaller than its intersection.
    #[verifier::type_invariant]
    closed spec fn inv(&self) -> bool {
        &&& self.union > 0
        &&& self.intersection <= self.union
    }

    /// The size of the sketch intersection.
    pub closed spec fn spec_intersection(&self) -> nat {
        self.intersection as nat
    }

    /// The size of the sketch union.
    pub closed spec fn spec_union(&self) -> nat {
        self.union as nat
    }

    /// Returns the size of the sketch intersection.
    pub fn intersection(self) -> (r: usize)
        ensures
            r == self.spec_intersection(),
            r <= self.spec_union(),
    {
        proof {
            use_type_invariant(&self);
        }
        self.intersection
    }

    /// Returns the size of the sketch union.
    pub fn union(self) -> (r: usize)
        ensures
            r == self.spec_union(),
            r > 0,
            self.spec_intersection() <= r,
    {
        proof {
            use_type_invariant(&self);
        }
        self.union
    }

    /// Creates a score for two sketches of equal `size`; the union is
    /// `size * 2 - intersection`.
    ///
    /// `size` must be positive, at least `intersection`, and the union must
    /// fit in `usize`.
    pub fn new(intersection: usize, size: usize) -> (s: Self)
        requires
            size > 0,
            intersection <= size,
            size * 2 - intersection <= usize::MAX,
        ensures
            s.spec_intersection() == intersection,
            s.spec_union() == size * 2 - intersection,
    {
        SimilarityScore { intersection, union: size + (size - intersection) }
    }

    /// Creates a score for two sketches of sizes `len_a` and `len_b`; the
    /// union is `len_a + len_b - intersection`.
    ///
    /// The intersection must not exceed the smaller size, and the union must
    /// be positive and fit in `usize`.
    pub fn new_from_two(intersection: usize, len_a: usize, len_b: usize) -> (s: Self)
        requires
            intersection <= len_a,
            intersection <= len_b,
            len_a + len_b - intersection <= usize::MAX,
            len_a + len_b - intersection > 0,
        ensures
            s.spec_intersection() == intersection,
            s.spec_union() == len_a + len_b - intersection,
    {
        SimilarityScore { intersection, union: (len_a - intersection) + len_b }
    }
}

/// `a` is at least as similar as `b`: `a.i / a.u >= b.i / b.u`.
pub open spec fn jaccard_ge(a: SimilarityScore, b: SimilarityScore) -> bool {
    a.spec_intersection() * b.spec_union() >= b.spec_intersection() * a.spec_union()
}

} // verus!
