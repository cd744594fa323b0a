//! Steps shared by the posting-list searches: counting overlaps, listing
//! candidates and ranking them.

use vstd::prelude::*;
use std::collections::HashMap;
use vstd::std_specs::iter::IteratorSpec;
use crate::index::error::IndexError;
use crate::index::store::{keys_for, lemma_take_succ_contains, with_entry, InvertedStorage};
use crate::ranking::{counts_of, has_key, is_top_k, lemma_rank_is_top_k, min_nat, rank_by_count, sorted_desc};
use crate::sketch::{jaccard_ge, IndexKey, SimilarityScore};

verus! {

broadcast use vstd::std_specs::hash::group_hash_axioms;

/// The number of features of `q` under which `key` is posted.
pub open spec fn overlap<K, F>(p: Map<F, Set<K>>, q: Seq<F>, key: K) -> nat
    decreases q.len(),
{
    if q.len() == 0 {
        0
    } else {
        overlap(p, q.drop_last(), key) + if keys_for(p, q.last()).contains(key) {
            1nat
        } else {
            0nat
        }
    }
}

/// The candidates of a posting search and their overlaps: every key posted
/// under at least one query feature.
pub open spec fn candidate_overlaps<K, F>(p: Map<F, Set<K>>, q: Seq<F>) -> Map<K, nat> {
    Map::new(|key: K| overlap(p, q, key) > 0, |key: K| overlap(p, q, key))
}

/// `v` is what a posting search may answer for a query of `n` features and
/// a count `k`, over the candidates `cands`: the top `k` candidates by
/// overlap (none for an empty query), each scored with its overlap over a
/// union of `2n - overlap`, in order of non-increasing similarity.
pub open spec fn ranked<K>(v: Seq<(K, SimilarityScore)>, cands: Map<K, nat>, n: nat, k: nat) -> bool {
    &&& is_top_k(v.map_values(|e: (K, SimilarityScore)| (e.0, e.1.spec_intersection())), cands, if n == 0 {
        0
    } else {
        k
    })
    &&& forall|i: int| 0 <= i < v.len() ==> (#[trigger] v[i]).1.spec_union() == 2 * n - v[i].1.spec_intersection()
    &&& forall|i: int, j: int| 0 <= i < j < v.len() ==> jaccard_ge(#[trigger] v[i].1, #[trigger] v[j].1)
}

/// `e` lists each candidate of `counts` once, with its count.
pub open spec fn lists_counts<K>(e: Seq<(K, usize)>, counts: Map<K, nat>) -> bool {
    &&& forall|i: int, j: int| 0 <= i < j < e.len() ==> #[trigger] e[i].0 != #[trigger] e[j].0
    &&& forall|i: int| 0 <= i < e.len() ==> counts.contains_key(#[trigger] e[i].0) && e[i].1 == counts[e[i].0]
    &&& forall|key: K| #[trigger] counts.contains_key(key) ==> has_key(e, key)
}

/// A key is posted under at most as many features as the query has.
pub proof fn lemma_overlap_le_len<K, F>(p: Map<F, Set<K>>, q: Seq<F>, key: K)
    ensures
        overlap(p, q, key) <= q.len(),
    decreases q.len(),
{
    if q.len() > 0 {
        lemma_overlap_le_len(p, q.drop_last(), key);
    }
}

/// A key with a positive overlap is posted under one of the query features.
pub proof fn lemma_overlap_witness<K, F>(p: Map<F, Set<K>>, q: Seq<F>, key: K)
    requires
        overlap(p, q, key) > 0,
    ensures
        exists|i: int| 0 <= i < q.len() && #[trigger] keys_for(p, q[i]).contains(key),
    decreases q.len(),
{
    if keys_for(p, q.last()).contains(key) {
        assert(keys_for(p, q[q.len() - 1]).contains(key));
    } else {
        lemma_overlap_witness(p, q.drop_last(), key);
        let i = choose|i: int| 0 <= i < q.drop_last().len() && #[trigger] keys_for(p, q.drop_last()[i]).contains(key);
        assert(keys_for(p, q[i]).contains(key));
    }
}

/// After an entry is posted, a query made of its own features meets it
/// under every one of them: the entry has the greatest overlap possible.
pub proof fn lemma_put_then_full_overlap<K, F>(p: Map<F, Set<K>>, key: K, fs: Seq<F>)
    ensures
        overlap(with_entry(p, key, fs), fs, key) == fs.len(),
        forall|other: K| #[trigger] overlap(with_entry(p, key, fs), fs, other) <= fs.len(),
{
    lemma_full_overlap_prefix(p, key, fs, fs.len() as int);
    assert(fs.take(fs.len() as int) =~= fs);
    assert forall|other: K| #[trigger] overlap(with_entry(p, key, fs), fs, other) <= fs.len() by {
        lemma_overlap_le_len(with_entry(p, key, fs), fs, other);
    }
}

/// Every prefix of an entry's features meets the posted entry fully.
proof fn lemma_full_overlap_prefix<K, F>(p: Map<F, Set<K>>, key: K, fs: Seq<F>, m: int)
    requires
        0 <= m <= fs.len(),
    ensures
        overlap(with_entry(p, key, fs), fs.take(m), key) == m,
    decreases m,
{
    if m > 0 {
        lemma_full_overlap_prefix(p, key, fs, m - 1);
        assert(fs.take(m).drop_last() =~= fs.take(m - 1));
        assert(fs.take(m).last() == fs[m - 1]);
        assert(fs.contains(fs[m - 1]));
    } else {
        assert(fs.take(0).len() == 0);
    }
}

/// In an empty index (a new one, or one just cleared), posting one
/// non-empty entry makes it the only candidate of a query made of its
/// features, meeting it on every feature: a search for the features just
/// written finds the key written.
pub proof fn lemma_put_into_empty_only_candidate<K, F>(key: K, fs: Seq<F>)
    requires
        fs.len() > 0,
    ensures
        forall|other: K| #[trigger] candidate_overlaps(with_entry(Map::<F, Set<K>>::empty(), key, fs), fs).contains_key(
            other,
        ) <==> other == key,
        candidate_overlaps(with_entry(Map::<F, Set<K>>::empty(), key, fs), fs)[key] == fs.len(),
{
    let p = with_entry(Map::<F, Set<K>>::empty(), key, fs);
    lemma_put_then_full_overlap(Map::<F, Set<K>>::empty(), key, fs);
    assert forall|other: K| #[trigger] candidate_overlaps(p, fs).contains_key(other) <==> other == key by {
        if other != key && overlap(p, fs, other) > 0 {
            lemma_overlap_witness(p, fs, other);
            let i = choose|i: int| 0 <= i < fs.len() && #[trigger] keys_for(p, fs[i]).contains(other);
            assert(fs.contains(fs[i]));
            assert(keys_for(Map::<F, Set<K>>::empty(), fs[i]) =~= Set::<K>::empty());
        }
    }
}

/// With no postings, a key meets a query on no feature.
proof fn lemma_overlap_empty<K, F>(q: Seq<F>, key: K)
    ensures
        overlap(Map::<F, Set<K>>::empty(), q, key) == 0,
    decreases q.len(),
{
    if q.len() > 0 {
        lemma_overlap_empty::<K, F>(q.drop_last(), key);
    }
}

/// A cleared index, whose postings are empty, has no candidate for any
/// query: its searches find no key.
pub proof fn lemma_cleared_no_candidates<K, F>(q: Seq<F>)
    ensures
        forall|key: K| #[trigger] overlap(Map::<F, Set<K>>::empty(), q, key) == 0,
        candidate_overlaps(Map::<F, Set<K>>::empty(), q) == Map::<K, nat>::empty(),
{
    assert forall|key: K| #[trigger] overlap(Map::<F, Set<K>>::empty(), q, key) == 0 by {
        lemma_overlap_empty::<K, F>(q, key);
    }
    assert(candidate_overlaps(Map::<F, Set<K>>::empty(), q) =~= Map::<K, nat>::empty());
}

/// Taking out one query feature takes out its contribution to an overlap.
pub proof fn lemma_overlap_remove<K, F>(p: Map<F, Set<K>>, q: Seq<F>, i: int, key: K)
    requires
        0 <= i < q.len(),
    ensures
        overlap(p, q, key) == overlap(p, q.remove(i), key) + if keys_for(p, q[i]).contains(key) {
            1nat
        } else {
            0nat
        },
    decreases q.len(),
{
    if i == q.len() - 1 {
        assert(q.remove(i) =~= q.drop_last());
    } else {
        lemma_overlap_remove(p, q.drop_last(), i, key);
        assert(q.remove(i).drop_last() =~= q.drop_last().remove(i));
        assert(q.remove(i).last() == q.last());
    }
}

/// Overlaps do not depend on the order of the query features.
pub proof fn lemma_overlap_permutation<K, F>(p: Map<F, Set<K>>, a: Seq<F>, b: Seq<F>, key: K)
    requires
        a.to_multiset() == b.to_multiset(),
    ensures
        overlap(p, a, key) == overlap(p, b, key),
    decreases a.len(),
{
    broadcast use vstd::seq_lib::group_to_multiset_ensures;
    broadcast use vstd::multiset::group_multiset_axioms;

    assert(a.to_multiset().len() == a.len());
    assert(b.to_multiset().len() == b.len());
    if a.len() > 0 {
        let x = a.last();
        assert(a.contains(x));
        assert(a.to_multiset().count(x) > 0);
        assert(b.contains(x));
        let i = choose|i: int| 0 <= i < b.len() && b[i] == x;
        assert(a.remove(a.len() - 1) =~= a.drop_last());
        assert(a.drop_last().to_multiset() == a.to_multiset().remove(x));
        assert(b.remove(i).to_multiset() == b.to_multiset().remove(x));
        lemma_overlap_permutation(p, a.drop_last(), b.remove(i), key);
        lemma_overlap_remove(p, b, i, key);
    }
}

/// For scores of two sketches of equal width `n`, a larger overlap is a
/// higher Jaccard similarity.
pub proof fn lemma_overlap_orders_jaccard(a: SimilarityScore, b: SimilarityScore, n: nat)
    requires
        a.spec_intersection() <= n,
        b.spec_intersection() <= n,
        a.spec_union() == 2 * n - a.spec_intersection(),
        b.spec_union() == 2 * n - b.spec_intersection(),
        a.spec_intersection() >= b.spec_intersection(),
    ensures
        jaccard_ge(a, b),
{
    let x = a.spec_intersection() as int;
    let y = b.spec_intersection() as int;
    let m = n as int;
    assert(x * (2 * m - y) >= y * (2 * m - x)) by (nonlinear_arith)
        requires
            x >= y,
            y >= 0,
            m >= 0,
    ;
}

/// Counts, for every key, the features of `fs` under which it is posted.
pub fn count_postings<K: IndexKey, F: IndexKey, ST: InvertedStorage<K, F>>(store: &ST, fs: &[F]) -> (r: Result<
    HashMap<K, usize>,
    IndexError,
>)
    requires
        vstd::std_specs::hash::obeys_key_model::<K>(),
    ensures
        r matches Ok(counts) && {
            &&& forall|key: K| #[trigger] counts@.contains_key(key) <==> overlap(store.postings(), fs@, key) > 0
            &&& forall|key: K| #[trigger] counts@.contains_key(key) ==> counts@[key] == overlap(
                store.postings(),
                fs@,
                key,
            )
        },
{
    let ghost p = store.postings();
    let ghost q = fs@;
    let n = fs.len();
    let mut counts: HashMap<K, usize> = HashMap::new();
    let mut i: usize = 0;
    proof {
        assert(q.take(0) =~= Seq::<F>::empty());
        assert(counts@ =~= Map::<K, usize>::empty());
    }
    while i < n
        invariant
            n == q.len(),
            fs@ == q,
            p == store.postings(),
            i <= n,
            vstd::std_specs::hash::obeys_key_model::<K>(),
            forall|key: K| #[trigger] counts@.contains_key(key) <==> overlap(p, q.take(i as int), key) > 0,
            forall|key: K| #[trigger] counts@.contains_key(key) ==> counts@[key] == overlap(p, q.take(i as int), key),
        decreases n - i,
    {
        let list = match store.posting_list(fs[i]) {
            Ok(list) => list,
            Err(e) => {
                return Err(e);
            },
        };
        let ghost base = counts@;
        let ghost f0 = q[i as int];
        let m = list.len();
        let mut j: usize = 0;
        proof {
            assert(list@.take(0) =~= Seq::<K>::empty());
        }
        while j < m
            invariant
                m == list@.len(),
                list@.no_duplicates(),
                list@.to_set() == keys_for(p, f0),
                j <= m,
                i < n,
                n == q.len(),
                vstd::std_specs::hash::obeys_key_model::<K>(),
                forall|key: K| #[trigger] base.contains_key(key) <==> overlap(p, q.take(i as int), key) > 0,
                forall|key: K| #[trigger] base.contains_key(key) ==> base[key] == overlap(p, q.take(i as int), key),
                forall|key: K| #[trigger] counts@.contains_key(key) <==> (base.contains_key(key) || list@.take(j as int).contains(key)),
                forall|key: K| #[trigger] counts@.contains_key(key) ==> counts@[key] == overlap(p, q.take(i as int), key)
                    + if list@.take(j as int).contains(key) { 1nat } else { 0nat },
            decreases m - j,
        {
            let key = list[j];
            proof {
                lemma_take_succ_contains(list@, j as int);
                lemma_overlap_le_len(p, q.take(i as int), key);
                assert(!list@.take(j as int).contains(key)) by {
                    if list@.take(j as int).contains(key) {
                        let t = choose|t: int| 0 <= t < j && list@.take(j as int)[t] == key;
                        assert(list@[t] == list@[j as int]);
                    }
                }
            }
            let c: usize = match counts.get(&key) {
                Some(c) => *c,
                None => 0,
            };
            counts.insert(key, c + 1);
            j += 1;
        }
        proof {
            assert(list@.take(m as int) =~= list@);
            let t = q.take(i as int);
            let t1 = q.take(i + 1);
            assert(t1.drop_last() =~= t);
            assert(t1.last() == f0);
            assert forall|key: K| #[trigger] counts@.contains_key(key) <==> overlap(p, t1, key) > 0 by {
                assert(list@.contains(key) <==> list@.to_set().contains(key));
            }
            assert forall|key: K| #[trigger] counts@.contains_key(key) implies counts@[key] == overlap(p, t1, key) by {
                assert(list@.contains(key) <==> list@.to_set().contains(key));
            }
        }
        i += 1;
    }
    proof {
        assert(q.take(n as int) =~= q);
    }
    Ok(counts)
}

/// Lists the entries of a count map, each key once.
pub fn counts_to_entries<K: IndexKey>(counts: &HashMap<K, usize>) -> (r: Vec<(K, usize)>)
    requires
        vstd::std_specs::hash::obeys_key_model::<K>(),
    ensures
        forall|i: int, j: int| 0 <= i < j < r@.len() ==> #[trigger] r@[i].0 != #[trigger] r@[j].0,
        forall|i: int| 0 <= i < r@.len() ==> counts@.contains_key(#[trigger] r@[i].0) && r@[i].1 == counts@[r@[i].0],
        forall|key: K| #[trigger] counts@.contains_key(key) ==> has_key(r@, key),
{
    let ghost all = vstd::std_specs::hash::spec_keys_iter(counts).remaining().unref();
    let mut entries: Vec<(K, usize)> = Vec::new();
    for key in it: counts.keys()
        invariant
            it.seq().unref() == all,
            all.to_set() == counts@.dom(),
            all.no_duplicates(),
            entries@.len() == it.index(),
            forall|t: int| 0 <= t < it.index() ==> #[trigger] entries@[t] == (*it.seq()[t], counts@[*it.seq()[t]]),
            vstd::std_specs::hash::obeys_key_model::<K>(),
    {
        let c = *counts.get(key).unwrap();
        entries.push((*key, c));
    }
    proof {
        let ents = entries@;
        assert(ents.len() == all.len());
        assert forall|t: int| 0 <= t < ents.len() implies ents[t].0 == all[t] && ents[t].1 == counts@[all[t]] by {}
        assert forall|a: int, b: int| 0 <= a < b < ents.len() implies #[trigger] ents[a].0 != #[trigger] ents[b].0 by {
            assert(all[a] != all[b]);
        }
        assert forall|t: int| 0 <= t < ents.len() implies counts@.contains_key(#[trigger] ents[t].0)
            && ents[t].1 == counts@[ents[t].0] by {
            assert(all.to_set().contains(all[t]));
        }
        assert forall|key: K| #[trigger] counts@.contains_key(key) implies has_key(ents, key) by {
            assert(all.to_set().contains(key));
            let t = choose|t: int| 0 <= t < all.len() && all[t] == key;
            assert(ents[t].0 == key);
        }
    }
    entries
}

/// Keeps the `k` candidates with the highest overlaps, highest first, and
/// scores each over a union of `2n - overlap`.
pub fn rank_and_score<K: IndexKey>(entries: Vec<(K, usize)>, k: usize, n: usize, cands: Ghost<Map<K, nat>>) -> (r: Vec<
    (K, SimilarityScore),
>)
    requires
        lists_counts(entries@, cands@),
        forall|key: K| #[trigger] cands@.contains_key(key) ==> cands@[key] <= n,
        n > 0,
        n * 2 <= usize::MAX,
    ensures
        is_top_k(r@.map_values(|e: (K, SimilarityScore)| (e.0, e.1.spec_intersection())), cands@, k as nat),
        forall|i: int| 0 <= i < r@.len() ==> (#[trigger] r@[i]).1.spec_union() == 2 * n - r@[i].1.spec_intersection(),
        forall|i: int, j: int| 0 <= i < j < r@.len() ==> jaccard_ge(#[trigger] r@[i].1, #[trigger] r@[j].1),
{
    let ghost ents = entries@;
    let ranked = rank_by_count(entries, k);
    let ghost s = choose|s: Seq<(K, usize)>| #![trigger sorted_desc(s)]
        s.to_multiset() == ents.to_multiset() && sorted_desc(s) && ranked@ == s.take(
            min_nat(k as nat, ents.len()) as int,
        );
    proof {
        lemma_rank_is_top_k(ents, s, cands@, k as nat);
    }
    let ghost rk = counts_of(ranked@);
    let mut out: Vec<(K, SimilarityScore)> = Vec::new();
    let len = ranked.len();
    let mut u: usize = 0;
    while u < len
        invariant
            len == ranked@.len(),
            rk == counts_of(ranked@),
            is_top_k(rk, cands@, k as nat),
            forall|key: K| #[trigger] cands@.contains_key(key) ==> cands@[key] <= n,
            n > 0,
            n * 2 <= usize::MAX,
            u <= len,
            out@.len() == u,
            forall|t: int| 0 <= t < u ==> (#[trigger] out@[t]).0 == rk[t].0 && out@[t].1.spec_intersection() == rk[t].1
                && out@[t].1.spec_union() == 2 * n - rk[t].1,
        decreases len - u,
    {
        let (key, o) = ranked[u];
        proof {
            assert(rk[u as int] == (key, o as nat));
            assert(cands@.contains_key(rk[u as int].0) && rk[u as int].1 == cands@[rk[u as int].0]);
        }
        out.push((key, SimilarityScore::new_from_two(o, n, n)));
        u += 1;
    }
    proof {
        let r = out@.map_values(|e: (K, SimilarityScore)| (e.0, e.1.spec_intersection()));
        assert(r =~= rk);
        assert forall|a: int, b: int| 0 <= a < b < out@.len() implies jaccard_ge(#[trigger] out@[a].1, #[trigger] out@[b].1) by {
            assert(rk[a].1 >= rk[b].1);
            assert(cands@.contains_key(rk[a].0) && rk[a].1 == cands@[rk[a].0]);
            assert(cands@.contains_key(rk[b].0) && rk[b].1 == cands@[rk[b].0]);
            lemma_overlap_orders_jaccard(out@[a].1, out@[b].1, n as nat);
        }
    }
    out
}

} // verus!
