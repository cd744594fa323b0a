//! Ordering scored entries for top-k queries.

use vstd::prelude::*;

verus! {

/// Entries in non-increasing order of their counts.
pub open spec fn sorted_desc<T>(s: Seq<(T, usize)>) -> bool {
    forall|i: int, j: int| 0 <= i < j < s.len() ==> #[trigger] s[i].1 >= #[trigger] s[j].1
}

/// Entries in non-decreasing order of their counts.
pub open spec fn sorted_asc<T>(s: Seq<(T, usize)>) -> bool {
    forall|i: int, j: int| 0 <= i < j < s.len() ==> #[trigger] s[i].1 <= #[trigger] s[j].1
}

/// The smaller of two naturals.
pub open spec fn min_nat(a: nat, b: nat) -> nat {
    if a < b {
        a
    } else {
        b
    }
}

/// The (key, count) pairs of scored entries, with counts as naturals.
pub open spec fn counts_of<K>(r: Seq<(K, usize)>) -> Seq<(K, nat)> {
    r.map_values(|e: (K, usize)| (e.0, e.1 as nat))
}

/// `key` is one of the keys of `r`.
pub open spec fn has_key<K, V>(r: Seq<(K, V)>, key: K) -> bool {
    exists|i: int| 0 <= i < r.len() && #[trigger] r[i].0 == key
}

/// `r` lists at most `k` of the candidates in `counts`, each once with its
/// count, highest count first; a candidate is left out only when `r` is full
/// and the candidate counts no more than the last one listed.
pub open spec fn is_top_k<K>(r: Seq<(K, nat)>, counts: Map<K, nat>, k: nat) -> bool {
    &&& r.len() <= k
    &&& forall|i: int, j: int| 0 <= i < j < r.len() ==> #[trigger] r[i].0 != #[trigger] r[j].0
    &&& forall|i: int| 0 <= i < r.len() ==> counts.contains_key(#[trigger] r[i].0) && r[i].1 == counts[r[i].0]
    &&& forall|i: int, j: int| 0 <= i < j < r.len() ==> #[trigger] r[i].1 >= #[trigger] r[j].1
    &&& forall|key: K| #[trigger] counts.contains_key(key) && !has_key(r, key) ==> r.len() == k && (k > 0
        ==> counts[key] <= r[r.len() - 1].1)
}

/// Sorting entries with distinct keys and keeping the first `k` yields the
/// top `k` candidates.
pub proof fn lemma_rank_is_top_k<K>(
    entries: Seq<(K, usize)>,
    s: Seq<(K, usize)>,
    counts: Map<K, nat>,
    k: nat,
)
    requires
        forall|i: int, j: int| 0 <= i < j < entries.len() ==> #[trigger] entries[i].0 != #[trigger] entries[j].0,
        forall|i: int| 0 <= i < entries.len() ==> counts.contains_key(#[trigger] entries[i].0)
            && entries[i].1 == counts[entries[i].0],
        forall|key: K| #[trigger] counts.contains_key(key) ==> has_key(entries, key),
        s.to_multiset() == entries.to_multiset(),
        sorted_desc(s),
    ensures
        is_top_k(counts_of(s.take(min_nat(k, entries.len()) as int)), counts, k),
{
    broadcast use vstd::seq_lib::group_to_multiset_ensures;

    let m = min_nat(k, entries.len()) as int;
    let r = counts_of(s.take(m));
    assert(s.to_multiset().len() == s.len());
    assert(entries.to_multiset().len() == entries.len());
    // every element of s is an element of entries
    assert forall|i: int| 0 <= i < s.len() implies exists|a: int| 0 <= a < entries.len() && entries[a] == #[trigger] s[i] by {
        assert(s.contains(s[i]));
        assert(s.to_multiset().count(s[i]) > 0);
        assert(entries.contains(s[i]));
    }
    // s has distinct keys
    assert(entries.no_duplicates()) by {
        assert forall|i: int, j: int| 0 <= i < entries.len() && 0 <= j < entries.len() && i != j implies entries[i] != entries[j] by {
            if i < j {
                assert(entries[i].0 != entries[j].0);
            } else {
                assert(entries[j].0 != entries[i].0);
            }
        }
    }
    entries.lemma_multiset_has_no_duplicates();
    assert forall|x: (K, usize)| s.to_multiset().contains(x) implies s.to_multiset().count(x) == 1 by {}
    s.lemma_multiset_has_no_duplicates_conv();
    assert forall|i: int, j: int| 0 <= i < j < s.len() implies #[trigger] s[i].0 != #[trigger] s[j].0 by {
        if s[i].0 == s[j].0 {
            let a = choose|a: int| 0 <= a < entries.len() && entries[a] == s[i];
            let b = choose|b: int| 0 <= b < entries.len() && entries[b] == s[j];
            if a < b {
                assert(entries[a].0 != entries[b].0);
            } else if b < a {
                assert(entries[b].0 != entries[a].0);
            }
            assert(s[i] == s[j]);
        }
    }
    assert forall|i: int| 0 <= i < r.len() implies counts.contains_key(#[trigger] r[i].0) && r[i].1 == counts[r[i].0] by {
        let a = choose|a: int| 0 <= a < entries.len() && entries[a] == s[i];
    }
    assert forall|i: int, j: int| 0 <= i < j < r.len() implies #[trigger] r[i].0 != #[trigger] r[j].0 by {
        assert(s[i].0 != s[j].0);
    }
    assert forall|i: int, j: int| 0 <= i < j < r.len() implies #[trigger] r[i].1 >= #[trigger] r[j].1 by {
        assert(s[i].1 >= s[j].1);
    }
    assert forall|key: K| #[trigger] counts.contains_key(key) && !has_key(r, key) implies r.len() == k && (k > 0
        ==> counts[key] <= r[r.len() - 1].1) by {
        let a = choose|a: int| 0 <= a < entries.len() && #[trigger] entries[a].0 == key;
        assert(entries.contains(entries[a]));
        assert(entries.to_multiset().count(entries[a]) > 0);
        assert(s.contains(entries[a]));
        let b = choose|b: int| 0 <= b < s.len() && s[b] == entries[a];
        if b < m {
            assert(r[b].0 == key);
        }
        if m > 0 && b > m - 1 {
            assert(s[m - 1].1 >= s[b].1);
        }
    }
}

/// Replacing one element of a sequence swaps one copy in its multiset.
pub proof fn lemma_update_to_multiset<A>(s: Seq<A>, i: int, v: A)
    requires
        0 <= i < s.len(),
    ensures
        s.update(i, v).to_multiset() == s.to_multiset().remove(s[i]).insert(v),
{
    broadcast use vstd::seq_lib::group_to_multiset_ensures;
    broadcast use vstd::multiset::group_multiset_axioms;

    let t = s.update(i, v);
    assert(t.remove(i) =~= s.remove(i));
    assert(t.to_multiset().count(v) > 0) by {
        assert(t[i] == v);
        assert(t.contains(v));
    }
    assert(t.to_multiset() =~= t.to_multiset().remove(v).insert(v));
}

/// Exchanging two elements of a sequence keeps its multiset.
pub proof fn lemma_swap_to_multiset<A>(s: Seq<A>, i: int, j: int)
    requires
        0 <= i < s.len(),
        0 <= j < s.len(),
    ensures
        s.update(i, s[j]).update(j, s[i]).to_multiset() == s.to_multiset(),
{
    broadcast use vstd::multiset::group_multiset_axioms;

    let s1 = s.update(i, s[j]);
    lemma_update_to_multiset(s, i, s[j]);
    lemma_update_to_multiset(s1, j, s[i]);
    if i == j {
        assert(s.update(i, s[j]).update(j, s[i]) =~= s);
    } else {
        broadcast use vstd::seq_lib::group_to_multiset_ensures;

        let m = s.to_multiset();
        let m1 = m.remove(s[i]).insert(s[j]);
        assert(s1[j] == s[j]);
        assert(m1.remove(s[j]) =~= m.remove(s[i]));
        assert(s.contains(s[i]));
        assert(m.remove(s[i]).insert(s[i]) =~= m);
    }
}

/// Sorts entries by count, highest first; entries with equal counts keep
/// their relative order.
pub fn sort_by_count_desc<T: Copy>(v: &mut Vec<(T, usize)>)
    ensures
        sorted_desc(final(v)@),
        final(v)@.to_multiset() == old(v)@.to_multiset(),
{
    let n = v.len();
    if n == 0 {
        return;
    }
    let mut i: usize = 1;
    while i < n
        invariant
            1 <= i <= n,
            v@.len() == n,
            forall|p: int, q: int| 0 <= p < q < i ==> #[trigger] v@[p].1 >= #[trigger] v@[q].1,
            v@.to_multiset() == old(v)@.to_multiset(),
        decreases n - i,
    {
        let mut j: usize = i;
        while j > 0 && v[j].1 > v[j - 1].1
            invariant
                0 <= j <= i < n,
                v@.len() == n,
                forall|p: int, q: int|
                    0 <= p < q <= i && p != j && q != j ==> #[trigger] v@[p].1 >= #[trigger] v@[q].1,
                forall|q: int| j < q <= i ==> v@[j as int].1 > #[trigger] v@[q].1,
                v@.to_multiset() == old(v)@.to_multiset(),
            decreases j,
        {
            let x = v[j];
            let y = v[j - 1];
            proof {
                lemma_swap_to_multiset(v@, j as int, j - 1);
            }
            v[j] = y;
            v[j - 1] = x;
            j = j - 1;
        }
        i = i + 1;
    }
}

/// Sorts entries by count, lowest first; entries with equal counts keep
/// their relative order.
pub fn sort_by_count_asc<T: Copy>(v: &mut Vec<(T, usize)>)
    ensures
        sorted_asc(final(v)@),
        final(v)@.to_multiset() == old(v)@.to_multiset(),
{
    let n = v.len();
    if n == 0 {
        return;
    }
    let mut i: usize = 1;
    while i < n
        invariant
            1 <= i <= n,
            v@.len() == n,
            forall|p: int, q: int| 0 <= p < q < i ==> #[trigger] v@[p].1 <= #[trigger] v@[q].1,
            v@.to_multiset() == old(v)@.to_multiset(),
        decreases n - i,
    {
        let mut j: usize = i;
        while j > 0 && v[j].1 < v[j - 1].1
            invariant
                0 <= j <= i < n,
                v@.len() == n,
                forall|p: int, q: int|
                    0 <= p < q <= i && p != j && q != j ==> #[trigger] v@[p].1 <= #[trigger] v@[q].1,
                forall|q: int| j < q <= i ==> v@[j as int].1 < #[trigger] v@[q].1,
                v@.to_multiset() == old(v)@.to_multiset(),
            decreases j,
        {
            let x = v[j];
            let y = v[j - 1];
            proof {
                lemma_swap_to_multiset(v@, j as int, j - 1);
            }
            v[j] = y;
            v[j - 1] = x;
            j = j - 1;
        }
        i = i + 1;
    }
}

/// Keeps the `k` entries with the highest counts, highest first.
///
/// The result is the first `min(k, len)` entries of a reordering of `v`
/// sorted by count, highest first.
pub fn rank_by_count<T: Copy>(v: Vec<(T, usize)>, k: usize) -> (r: Vec<(T, usize)>)
    ensures
        exists|s: Seq<(T, usize)>| #![trigger sorted_desc(s)]
            s.to_multiset() == v@.to_multiset() && sorted_desc(s) && r@ == s.take(
                min_nat(k as nat, v@.len()) as int,
            ),
{
    let mut v = v;
    let ghost v0 = v@;
    sort_by_count_desc(&mut v);
    let ghost s = v@;
    v.truncate(k);
    proof {
        broadcast use vstd::seq_lib::group_to_multiset_ensures;

        assert(s.to_multiset().len() == s.len());
        assert(v0.to_multiset().len() == v0.len());
        assert(s.len() == v0.len());
        if k as nat >= s.len() {
            assert(s.take(s.len() as int) =~= s);
        }
        assert(v@ =~= s.take(min_nat(k as nat, v0.len()) as int));
        assert(sorted_desc(s));
    }
    v
}

} // verus!
