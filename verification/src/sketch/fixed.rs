//! Fixed-size sketches backed by a sorted array.

use vstd::prelude::*;
use vstd::std_specs::iter::IteratorSpec;
use vstd::multiset::Multiset;
use crate::sketch::feature::SketchFeature;
use crate::sketch::Sketch;
use crate::ranking::lemma_swap_to_multiset;

verus! {

broadcast use vstd::std_specs::vec::axiom_spec_into_iter;

/// Errors that can occur when creating a [`FixedSketch`].
#[derive(Debug, Clone, Copy, PartialEq, Eq)]
pub enum SketchError {
    /// The sketch has zero elements (empty array provided).
    EmptySketch,
}

/// The order in which a sketch keeps its features.
pub open spec fn rank_le<F: SketchFeature>(a: F, b: F) -> bool {
    a.rank() <= b.rank()
}

/// `s` is sorted in ascending feature order.
pub open spec fn is_sorted<F: SketchFeature>(s: Seq<F>) -> bool {
    forall|i: int, j: int| 0 <= i < j < s.len() ==> #[trigger] s[i].rank() <= #[trigger] s[j].rank()
}

/// Fixed-size sketch backed by a sorted array of `N` feature values.
#[derive(Debug, Copy, PartialEq, Eq, Hash)]
pub struct FixedSketch<F: SketchFeature, const N: usize> {
    items: [F; N],
}

impl<F: SketchFeature, const N: usize> FixedSketch<F, N> {
    /// Every sketch holds `N > 0` features in ascending order.
    #[verifier::type_invariant]
    closed spec fn inv(&self) -> bool {
        &&& N > 0
        &&& is_sorted(self.items@)
    }

    /// Creates a new sketch from an array; the input is sorted.
    ///
    /// Fails with [`SketchError::EmptySketch`] exactly when `N == 0`.
    pub fn new(items: [F; N]) -> (res: Result<Self, SketchError>)
        ensures
            N == 0 <==> res is Err,
            res matches Err(e) ==> e == SketchError::EmptySketch,
            res matches Ok(s) ==> {
                &&& is_sorted(s.features())
                &&& s.features().to_multiset() == items@.to_multiset()
            },
    {
        if N == 0 {
            return Err(SketchError::EmptySketch);
        }
        let mut items = items;
        sort_array(&mut items);
        Ok(FixedSketch { items })
    }

    /// Returns the sketch elements as a fixed-size array reference.
    pub fn as_array(&self) -> (r: &[F; N])
        ensures
            r@ == self.features(),
    {
        &self.items
    }

    /// Iterates over the sketch elements in ascending order: the iterator
    /// yields exactly the sketch's features, in order.
    pub fn iter(&self) -> (r: std::vec::IntoIter<F>)
        ensures
            r.remaining() == self.features(),
    {
        let mut v: Vec<F> = Vec::new();
        let mut i: usize = 0;
        while i < N
            invariant
                i <= N,
                N == self.items@.len(),
                v@ == self.items@.take(i as int),
            decreases N - i,
        {
            v.push(self.items[i]);
            i += 1;
            proof {
                assert(v@ =~= self.items@.take(i as int));
            }
        }
        proof {
            assert(v@ =~= self.items@);
        }
        v.into_iter()
    }

}

impl<F: SketchFeature, const N: usize> Clone for FixedSketch<F, N> {
    fn clone(&self) -> (r: Self)
        ensures
            r == *self,
    {
        *self
    }
}

impl<F: SketchFeature, const N: usize> Sketch for FixedSketch<F, N> {
    type Feature = F;

    closed spec fn features(&self) -> Seq<F> {
        self.items@
    }

    open spec fn width() -> nat {
        N as nat
    }

    proof fn lemma_width(&self) {
    }

    /// Returns the number of elements in the sketch.
    fn len(&self) -> (n: usize) {
        N
    }

    /// Returns `true` if the sketch is empty, which a sketch never is.
    fn is_empty(&self) -> (b: bool)
        ensures
            !b,
    {
        proof {
            use_type_invariant(self);
        }
        N == 0
    }

    /// Returns the sketch elements as a contiguous slice.
    fn as_slice(&self) -> (s: &[F]) {
        self.items.as_slice()
    }

    /// Returns the number of elements present in both sketches, counted
    /// with multiplicity. O(N).
    fn intersection_size(&self, other: &Self) -> (n: usize) {
        proof {
            use_type_invariant(self);
            use_type_invariant(other);
        }
        let ghost a = self.items@;
        let ghost b = other.items@;
        let mut left: usize = 0;
        let mut right: usize = 0;
        let mut intersection: usize = 0;
        proof {
            assert(a.subrange(0, N as int) =~= a);
            assert(b.subrange(0, N as int) =~= b);
        }
        while left < N && right < N
            invariant
                a == self.items@,
                b == other.items@,
                a.len() == N,
                b.len() == N,
                left <= N,
                right <= N,
                intersection <= left,
                intersection + merge_count(a.subrange(left as int, N as int), b.subrange(right as int, N as int))
                    == merge_count(a, b),
            decreases 2 * N - left - right,
        {
            let ghost sa = a.subrange(left as int, N as int);
            let ghost sb = b.subrange(right as int, N as int);
            proof {
                assert(sa.drop_first() =~= a.subrange(left + 1, N as int));
                assert(sb.drop_first() =~= b.subrange(right + 1, N as int));
            }
            if self.items[left].less_than(&other.items[right]) {
                left += 1;
            } else if other.items[right].less_than(&self.items[left]) {
                right += 1;
            } else {
                intersection += 1;
                left += 1;
                right += 1;
            }
        }
        proof {
            assert(a.subrange(left as int, N as int).len() == 0 || b.subrange(right as int, N as int).len() == 0);
            lemma_merge_count_is_intersection(a, b);
        }
        intersection
    }

    /// Returns `true` if the sketch contains the given value. O(log N).
    fn contains(&self, value: F) -> (b: bool) {
        proof {
            use_type_invariant(self);
        }
        let ghost s = self.items@;
        let mut lo: usize = 0;
        let mut hi: usize = N;
        while lo < hi
            invariant
                s == self.items@,
                s.len() == N,
                is_sorted(s),
                lo <= hi <= N,
                forall|i: int| 0 <= i < lo ==> #[trigger] s[i].rank() < value.rank(),
                forall|i: int| hi <= i < N ==> value.rank() < #[trigger] s[i].rank(),
            decreases hi - lo,
        {
            let mid = lo + (hi - lo) / 2;
            if self.items[mid].less_than(&value) {
                lo = mid + 1;
            } else if value.less_than(&self.items[mid]) {
                hi = mid;
            } else {
                proof {
                    F::lemma_rank_injective(s[mid as int], value);
                    assert(s[mid as int] == value);
                }
                return true;
            }
        }
        proof {
            if s.contains(value) {
                let k = choose|k: int| 0 <= k < s.len() && s[k] == value;
                assert(s[k].rank() == value.rank());
            }
        }
        false
    }
}

/// Size of the multiset intersection of two feature sequences.
pub open spec fn multiset_intersection_len<F>(a: Seq<F>, b: Seq<F>) -> nat {
    a.to_multiset().intersection_with(b.to_multiset()).len()
}

/// Two sorted sequences with the same features are the same sequence.
pub proof fn lemma_sorted_unique<F: SketchFeature>(a: Seq<F>, b: Seq<F>)
    requires
        is_sorted(a),
        is_sorted(b),
        a.to_multiset() == b.to_multiset(),
    ensures
        a == b,
    decreases a.len(),
{
    broadcast use vstd::seq_lib::group_to_multiset_ensures;
    broadcast use vstd::multiset::group_multiset_axioms;

    assert(a.to_multiset().len() == a.len());
    assert(b.to_multiset().len() == b.len());
    if a.len() == 0 {
        assert(a =~= b);
    } else {
        lemma_to_multiset_first(a);
        lemma_to_multiset_first(b);
        assert(a.contains(a[0]));
        assert(a.to_multiset().count(a[0]) > 0);
        assert(b.contains(a[0]));
        assert(b.contains(b[0]));
        assert(b.to_multiset().count(b[0]) > 0);
        assert(a.contains(b[0]));
        let i = choose|i: int| 0 <= i < b.len() && b[i] == a[0];
        let j = choose|j: int| 0 <= j < a.len() && a[j] == b[0];
        assert(b[0].rank() <= b[i].rank());
        assert(a[0].rank() <= a[j].rank());
        F::lemma_rank_injective(a[0], b[0]);
        assert(a.drop_first().to_multiset() =~= b.drop_first().to_multiset()) by {
            assert(a.drop_first().to_multiset() =~= a.to_multiset().remove(a[0]));
            assert(b.drop_first().to_multiset() =~= b.to_multiset().remove(b[0]));
        }
        lemma_sorted_unique(a.drop_first(), b.drop_first());
        assert(a =~= b) by {
            assert forall|k: int| 0 <= k < a.len() implies a[k] == b[k] by {
                if k > 0 {
                    assert(a[k] == a.drop_first()[k - 1]);
                    assert(b[k] == b.drop_first()[k - 1]);
                }
            }
        }
    }
}

/// Building a sketch from any reordering of the same features gives the
/// same sketch: sketches that hold the features of `a` and of `b` sorted
/// are equal when `b` reorders `a`.
pub proof fn lemma_sketch_order_independent<F: SketchFeature, const N: usize>(
    a: [F; N],
    b: [F; N],
    x: FixedSketch<F, N>,
    y: FixedSketch<F, N>,
)
    requires
        a@.to_multiset() == b@.to_multiset(),
        is_sorted(x.features()),
        x.features().to_multiset() == a@.to_multiset(),
        is_sorted(y.features()),
        y.features().to_multiset() == b@.to_multiset(),
    ensures
        x == y,
{
    lemma_sorted_unique(x.features(), y.features());
    assert(x.items =~= y.items);
}

/// The intersection of two sketches does not depend on their order.
pub proof fn lemma_intersection_commutes<F>(a: Seq<F>, b: Seq<F>)
    ensures
        multiset_intersection_len(a, b) == multiset_intersection_len(b, a),
{
    broadcast use vstd::multiset::group_multiset_axioms;
    broadcast use vstd::multiset::group_multiset_properties;

    assert(a.to_multiset().intersection_with(b.to_multiset()) =~= b.to_multiset().intersection_with(
        a.to_multiset(),
    ));
}

/// A sketch shares every one of its features with itself.
pub proof fn lemma_self_intersection<F>(a: Seq<F>)
    ensures
        multiset_intersection_len(a, a) == a.len(),
{
    broadcast use vstd::multiset::group_multiset_axioms;
    broadcast use vstd::multiset::group_multiset_properties;
    broadcast use vstd::seq_lib::group_to_multiset_ensures;

    assert(a.to_multiset().intersection_with(a.to_multiset()) =~= a.to_multiset());
}

/// Number of matches a merge of two sorted sequences finds.
spec fn merge_count<F: SketchFeature>(a: Seq<F>, b: Seq<F>) -> nat
    decreases a.len() + b.len(),
{
    if a.len() == 0 || b.len() == 0 {
        0
    } else if a[0].rank() < b[0].rank() {
        merge_count(a.drop_first(), b)
    } else if b[0].rank() < a[0].rank() {
        merge_count(a, b.drop_first())
    } else {
        1 + merge_count(a.drop_first(), b.drop_first())
    }
}

/// The multiset of a non-empty sequence is that of its tail plus its head.
proof fn lemma_to_multiset_first<A>(s: Seq<A>)
    requires
        s.len() > 0,
    ensures
        s.to_multiset() == s.drop_first().to_multiset().insert(s[0]),
{
    broadcast use vstd::seq_lib::group_to_multiset_ensures;
    broadcast use vstd::multiset::group_multiset_axioms;

    assert(s.remove(0) =~= s.drop_first());
    assert(s.contains(s[0]));
    assert(s.to_multiset() =~= s.to_multiset().remove(s[0]).insert(s[0]));
}

/// On sorted sequences, merging counts exactly the multiset intersection.
proof fn lemma_merge_count_is_intersection<F: SketchFeature>(a: Seq<F>, b: Seq<F>)
    requires
        is_sorted(a),
        is_sorted(b),
    ensures
        merge_count(a, b) == multiset_intersection_len(a, b),
    decreases a.len() + b.len(),
{
    broadcast use vstd::seq_lib::group_to_multiset_ensures;
    broadcast use vstd::multiset::group_multiset_axioms;
    broadcast use vstd::multiset::group_multiset_properties;

    let ma = a.to_multiset();
    let mb = b.to_multiset();
    if a.len() == 0 {
        assert(ma =~= Multiset::empty());
        assert(ma.intersection_with(mb) =~= Multiset::empty());
    } else if b.len() == 0 {
        assert(mb =~= Multiset::empty());
        assert(ma.intersection_with(mb) =~= Multiset::empty());
    } else {
        let a0 = a[0];
        let b0 = b[0];
        let a1 = a.drop_first();
        let b1 = b.drop_first();
        lemma_to_multiset_first(a);
        lemma_to_multiset_first(b);
        if a0.rank() < b0.rank() {
            lemma_merge_count_is_intersection(a1, b);
            assert(!b.contains(a0)) by {
                if b.contains(a0) {
                    let k = choose|k: int| 0 <= k < b.len() && b[k] == a0;
                    assert(b[0].rank() <= b[k].rank());
                }
            }
            assert(ma.intersection_with(mb) =~= a1.to_multiset().intersection_with(mb));
        } else if b0.rank() < a0.rank() {
            lemma_merge_count_is_intersection(a, b1);
            assert(!a.contains(b0)) by {
                if a.contains(b0) {
                    let k = choose|k: int| 0 <= k < a.len() && a[k] == b0;
                    assert(a[0].rank() <= a[k].rank());
                }
            }
            assert(ma.intersection_with(mb) =~= ma.intersection_with(b1.to_multiset()));
        } else {
            F::lemma_rank_injective(a0, b0);
            lemma_merge_count_is_intersection(a1, b1);
            assert(ma.intersection_with(mb) =~= a1.to_multiset().intersection_with(b1.to_multiset()).insert(a0));
        }
    }
}

/// Sorts an array in place by insertion sort.
fn sort_array<F: SketchFeature, const N: usize>(a: &mut [F; N])
    ensures
        is_sorted(final(a)@),
        final(a)@.to_multiset() == old(a)@.to_multiset(),
{
    if N == 0 {
        return;
    }
    let mut i: usize = 1;
    while i < N
        invariant
            1 <= i <= N,
            a@.len() == N,
            forall|p: int, q: int| 0 <= p < q < i ==> #[trigger] a@[p].rank() <= #[trigger] a@[q].rank(),
            a@.to_multiset() == old(a)@.to_multiset(),
        decreases N - i,
    {
        let mut j: usize = i;
        while j > 0 && a[j].less_than(&a[j - 1])
            invariant
                0 <= j <= i < N,
                a@.len() == N,
                forall|p: int, q: int|
                    0 <= p < q <= i && p != j && q != j ==> #[trigger] a@[p].rank() <= #[trigger] a@[q].rank(),
                forall|q: int| j < q <= i ==> a@[j as int].rank() < #[trigger] a@[q].rank(),
                a@.to_multiset() == old(a)@.to_multiset(),
            decreases j,
        {
            let x = a[j];
            let y = a[j - 1];
            proof {
                lemma_swap_to_multiset(a@, j as int, j - 1);
            }
            a[j] = y;
            a[j - 1] = x;
            j = j - 1;
        }
        i = i + 1;
    }
}

/// A fixed-size sketch of `u32` features.
pub type U32Sketch<const N: usize> = FixedSketch<u32, N>;

/// A fixed-size sketch of `u64` features.
pub type U64Sketch<const N: usize> = FixedSketch<u64, N>;

} // verus!
