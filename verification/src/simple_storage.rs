//! A linear-search similarity index, the baseline the inverted index is
//! measured against.

use vstd::prelude::*;
use crate::index::error::IndexError;
use crate::ranking::{counts_of, has_key, is_top_k, lemma_rank_is_top_k, min_nat, rank_by_count, sorted_desc};
use crate::sketch::{jaccard_ge, multiset_intersection_len, IndexKey, SimilarityScore, Sketch};
use crate::sketch::fixed::lemma_self_intersection;
use crate::index::search::lemma_overlap_orders_jaccard;

verus! {

/// The overlap of `query` with the sketch stored under each key of `entries`.
pub open spec fn linear_overlaps<K, S: Sketch>(entries: Seq<(K, S)>, q: Seq<S::Feature>) -> Map<K, nat> {
    Map::new(
        |key: K| has_key(entries, key),
        |key: K| {
            let i = choose|i: int| 0 <= i < entries.len() && #[trigger] entries[i].0 == key;
            multiset_intersection_len(q, entries[i].1.features())
        },
    )
}

/// The entries after `key` is put with `sketch`: an entry already held for
/// `key` takes the new sketch in place; otherwise the entry is appended.
pub open spec fn put_entry<K, S>(s: Seq<(K, S)>, key: K, sketch: S) -> Seq<(K, S)> {
    if has_key(s, key) {
        let i = choose|i: int| 0 <= i < s.len() && #[trigger] s[i].0 == key;
        s.update(i, (key, sketch))
    } else {
        s.push((key, sketch))
    }
}

/// The entries after the entry for `key`, if any, is removed.
pub open spec fn remove_entry<K, S>(s: Seq<(K, S)>, key: K) -> Seq<(K, S)> {
    if has_key(s, key) {
        let i = choose|i: int| 0 <= i < s.len() && #[trigger] s[i].0 == key;
        s.remove(i)
    } else {
        s
    }
}

/// A multiset intersection is no larger than either side.
pub proof fn lemma_intersection_len_bound<F>(a: Seq<F>, b: Seq<F>)
    ensures
        multiset_intersection_len(a, b) <= a.len(),
        multiset_intersection_len(a, b) <= b.len(),
{
    broadcast use vstd::seq_lib::group_to_multiset_ensures;
    broadcast use vstd::multiset::group_multiset_properties;

    let ma = a.to_multiset();
    let mb = b.to_multiset();
    let mi = ma.intersection_with(mb);
    assert(mi.subset_of(ma));
    assert(mi.subset_of(mb));
    broadcast use vstd::multiset::group_multiset_axioms;
    assert(ma.sub(mi).len() == ma.len() - mi.len());
    assert(mb.sub(mi).len() == mb.len() - mi.len());
    assert(ma.len() == a.len());
    assert(mb.len() == b.len());
}

/// A search for a sketch just put scores its key with every feature
/// shared, the most that any entry can score.
pub proof fn lemma_linear_put_then_best<K, S: Sketch>(s: Seq<(K, S)>, key: K, sketch: S)
    requires
        forall|i: int, j: int| 0 <= i < j < s.len() ==> #[trigger] s[i].0 != #[trigger] s[j].0,
    ensures
        linear_overlaps(put_entry(s, key, sketch), sketch.features()).contains_key(key),
        linear_overlaps(put_entry(s, key, sketch), sketch.features())[key] == sketch.features().len(),
        forall|other: K| #[trigger] linear_overlaps(put_entry(s, key, sketch), sketch.features()).contains_key(other)
            ==> linear_overlaps(put_entry(s, key, sketch), sketch.features())[other] <= sketch.features().len(),
{
    let u = put_entry(s, key, sketch);
    let q = sketch.features();
    let at = if has_key(s, key) {
        choose|i: int| 0 <= i < s.len() && #[trigger] s[i].0 == key
    } else {
        s.len() as int
    };
    assert(u[at] == (key, sketch));
    assert(0 <= at < u.len());
    assert(u[at].0 == key);
    assert(has_key(u, key));
    assert forall|i: int| 0 <= i < u.len() && #[trigger] u[i].0 == key implies i == at by {
        if i != at {
            assert(s[i].0 == key);
            if has_key(s, key) {
                if i < at {
                    assert(s[i].0 != s[at].0);
                } else {
                    assert(s[at].0 != s[i].0);
                }
            } else {
                assert(has_key(s, key));
            }
        }
    }
    let i = choose|i: int| 0 <= i < u.len() && #[trigger] u[i].0 == key;
    assert(i == at);
    lemma_self_intersection(q);
    assert forall|other: K| #[trigger] linear_overlaps(u, q).contains_key(other) implies linear_overlaps(u, q)[other]
        <= q.len() by {
        let k = choose|k: int| 0 <= k < u.len() && #[trigger] u[k].0 == other;
        lemma_intersection_len_bound(q, u[k].1.features());
    }
}

/// A similarity index that scores every stored entry against the query.
pub struct LinearSearchIndex<K: IndexKey, S: Sketch> {
    entries: Vec<(K, S)>,
}

impl<K: IndexKey, S: Sketch> LinearSearchIndex<K, S> {
    /// Each key is stored at most once.
    #[verifier::type_invariant]
    closed spec fn inv(&self) -> bool {
        forall|i: int, j: int| 0 <= i < j < self.entries@.len() ==> #[trigger] self.entries@[i].0 != #[trigger] self.entries@[j].0
    }

    /// The stored entries, in insertion order.
    pub closed spec fn entries(&self) -> Seq<(K, S)> {
        self.entries@
    }

    /// Creates an empty index.
    pub fn new() -> (r: Self)
        ensures
            r.entries() == Seq::<(K, S)>::empty(),
    {
        LinearSearchIndex { entries: Vec::new() }
    }

    /// Finds the position of the entry for `key`.
    fn find(&self, key: &K) -> (r: Option<usize>)
        ensures
            r matches Some(i) ==> i < self.entries().len() && self.entries()[i as int].0 == *key,
            r is None ==> !has_key(self.entries(), *key),
    {
        let n = self.entries.len();
        let mut i: usize = 0;
        while i < n
            invariant
                n == self.entries@.len(),
                i <= n,
                forall|j: int| 0 <= j < i ==> (#[trigger] self.entries@[j]).0 != *key,
            decreases n - i,
        {
            if self.entries[i].0.key_eq(key) {
                return Some(i);
            }
            i += 1;
        }
        None
    }

    /// Inserts an entry; an entry already held for `key` takes the new
    /// sketch.
    pub fn put(&mut self, key: &K, sketch: S) -> (r: Result<(), IndexError>)
        ensures
            r is Ok,
            final(self).entries() == put_entry(old(self).entries(), *key, sketch),
    {
        proof {
            use_type_invariant(&*self);
        }
        let found = self.find(key);
        let mut v: Vec<(K, S)> = Vec::new();
        std::mem::swap(&mut v, &mut self.entries);
        let ghost s = v@;
        match found {
            Some(i) => {
                v[i] = (*key, sketch);
                proof {
                    let j = choose|j: int| 0 <= j < s.len() && #[trigger] s[j].0 == *key;
                    assert(j == i as int);
                    assert(v@ == put_entry(s, *key, sketch));
                    assert forall|a: int, b: int| 0 <= a < b < v@.len() implies #[trigger] v@[a].0 != #[trigger] v@[b].0 by {
                        assert(s[a].0 != s[b].0);
                    }
                }
            },
            None => {
                v.push((*key, sketch));
                proof {
                    assert forall|a: int, b: int| 0 <= a < b < v@.len() implies #[trigger] v@[a].0 != #[trigger] v@[b].0 by {
                        if b < s.len() {
                            assert(s[a].0 != s[b].0);
                        } else {
                            assert(s[a].0 != *key);
                        }
                    }
                }
            },
        }
        self.entries = v;
        Ok(())
    }

    /// Removes the entry for `key`, if there is one.
    pub fn remove(&mut self, key: &K) -> (r: Result<(), IndexError>)
        ensures
            r is Ok,
            final(self).entries() == remove_entry(old(self).entries(), *key),
            !has_key(final(self).entries(), *key),
    {
        proof {
            use_type_invariant(&*self);
        }
        let found = self.find(key);
        let mut v: Vec<(K, S)> = Vec::new();
        std::mem::swap(&mut v, &mut self.entries);
        let ghost s = v@;
        match found {
            Some(i) => {
                v.remove(i);
                proof {
                    let j = choose|j: int| 0 <= j < s.len() && #[trigger] s[j].0 == *key;
                    assert(j == i as int);
                    assert forall|a: int, b: int| 0 <= a < b < v@.len() implies #[trigger] v@[a].0 != #[trigger] v@[b].0 by {
                        let a0 = if a < i { a } else { a + 1 };
                        let b0 = if b < i { b } else { b + 1 };
                        assert(s[a0].0 != s[b0].0);
                    }
                    assert(!has_key(v@, *key)) by {
                        if has_key(v@, *key) {
                            let t = choose|t: int| 0 <= t < v@.len() && #[trigger] v@[t].0 == *key;
                            let t0 = if t < i { t } else { t + 1 };
                            assert(s[t0].0 == *key);
                            if t0 < i {
                                assert(s[t0].0 != s[i as int].0);
                            } else {
                                assert(s[i as int].0 != s[t0].0);
                            }
                        }
                    }
                }
            },
            None => {},
        }
        self.entries = v;
        Ok(())
    }

    /// Returns the top `k` stored keys most similar to the query sketch,
    /// highest similarity first, with their exact scores; every stored key
    /// is a candidate.
    pub fn top_k(&self, query: &S, k: usize) -> (r: Result<Vec<(K, SimilarityScore)>, IndexError>)
        requires
            S::width() * 2 <= usize::MAX,
            S::width() > 0 || self.entries().len() == 0,
        ensures
            r matches Ok(v) && {
                let q = query.features();
                &&& is_top_k(v@.map_values(|e: (K, SimilarityScore)| (e.0, e.1.spec_intersection())),
                        linear_overlaps(self.entries(), q), k as nat)
                &&& forall|i: int| 0 <= i < v@.len() ==> (#[trigger] v@[i]).1.spec_union()
                        == 2 * q.len() - v@[i].1.spec_intersection()
                &&& forall|i: int, j: int| 0 <= i < j < v@.len() ==> jaccard_ge(#[trigger] v@[i].1, #[trigger] v@[j].1)
            },
    {
        proof {
            use_type_invariant(self);
        }
        let ghost es = self.entries@;
        let ghost q = query.features();
        let ghost cands = linear_overlaps(es, q);
        let n = self.entries.len();
        let mut scored: Vec<(K, usize)> = Vec::new();
        let mut i: usize = 0;
        while i < n
            invariant
                es == self.entries@,
                q == query.features(),
                n == es.len(),
                i <= n,
                scored@.len() == i,
                forall|t: int| 0 <= t < i ==> (#[trigger] scored@[t]).0 == es[t].0
                    && scored@[t].1 == multiset_intersection_len(q, es[t].1.features()),
                forall|t: int| 0 <= t < i ==> multiset_intersection_len(q, (#[trigger] es[t]).1.features()) <= q.len(),
            decreases n - i,
        {
            let o = query.intersection_size(&self.entries[i].1);
            proof {
                lemma_intersection_len_bound(q, es[i as int].1.features());
            }
            scored.push((self.entries[i].0, o));
            i += 1;
        }
        let ghost ents = scored@;
        proof {
            assert forall|a: int, b: int| 0 <= a < b < ents.len() implies #[trigger] ents[a].0 != #[trigger] ents[b].0 by {
                assert(es[a].0 != es[b].0);
            }
            assert forall|t: int| 0 <= t < ents.len() implies cands.contains_key(#[trigger] ents[t].0)
                && ents[t].1 == cands[ents[t].0] by {
                assert(es[t].0 == ents[t].0);
                assert(has_key(es, ents[t].0));
                let j = choose|j: int| 0 <= j < es.len() && #[trigger] es[j].0 == ents[t].0;
                if j != t {
                    if j < t {
                        assert(es[j].0 != es[t].0);
                    } else {
                        assert(es[t].0 != es[j].0);
                    }
                }
            }
            assert forall|key: K| #[trigger] cands.contains_key(key) implies has_key(ents, key) by {
                let j = choose|j: int| 0 <= j < es.len() && #[trigger] es[j].0 == key;
                assert(ents[j].0 == key);
            }
        }
        let ranked = rank_by_count(scored, k);
        let ghost s = choose|s: Seq<(K, usize)>| #![trigger sorted_desc(s)]
            s.to_multiset() == ents.to_multiset() && sorted_desc(s) && ranked@ == s.take(
                min_nat(k as nat, ents.len()) as int,
            );
        proof {
            lemma_rank_is_top_k(ents, s, cands, k as nat);
        }
        let ghost rk = counts_of(ranked@);
        let width = query.len();
        proof {
            assert forall|j: int| 0 <= j < es.len() implies (#[trigger] es[j]).1.features().len() == S::width() by {
                es[j].1.lemma_width();
            }
        }
        let mut out: Vec<(K, SimilarityScore)> = Vec::new();
        let len = ranked.len();
        let mut u: usize = 0;
        while u < len
            invariant
                len == ranked@.len(),
                rk == counts_of(ranked@),
                is_top_k(rk, cands, k as nat),
                cands == linear_overlaps(es, q),
                es == self.entries@,
                width == q.len(),
                width == S::width(),
                width * 2 <= usize::MAX,
                width > 0 || es.len() == 0,
                forall|j: int| 0 <= j < es.len() ==> (#[trigger] es[j]).1.features().len() == S::width(),
                u <= len,
                out@.len() == u,
                forall|t: int| 0 <= t < u ==> (#[trigger] out@[t]).0 == rk[t].0 && out@[t].1.spec_intersection() == rk[t].1
                    && out@[t].1.spec_union() == 2 * width - rk[t].1,
            decreases len - u,
        {
            let (key, o) = ranked[u];
            proof {
                assert(rk[u as int] == (key, o as nat));
                assert(cands.contains_key(rk[u as int].0) && rk[u as int].1 == cands[rk[u as int].0]);
                let j = choose|j: int| 0 <= j < es.len() && #[trigger] es[j].0 == key;
                lemma_intersection_len_bound(q, es[j].1.features());
            }
            out.push((key, SimilarityScore::new_from_two(o, width, width)));
            u += 1;
        }
        proof {
            let r = out@.map_values(|e: (K, SimilarityScore)| (e.0, e.1.spec_intersection()));
            assert(r =~= rk);
            assert forall|a: int, b: int| 0 <= a < b < out@.len() implies jaccard_ge(#[trigger] out@[a].1, #[trigger] out@[b].1) by {
                assert(rk[a].1 >= rk[b].1);
                lemma_overlap_orders_jaccard(out@[a].1, out@[b].1, width as nat);
            }
        }
        Ok(out)
    }

    /// Searches for the stored key most similar to the query sketch, or
    /// `None` when the index is empty.
    pub fn get(&self, query: &S) -> (r: Result<Option<K>, IndexError>)
        requires
            S::width() * 2 <= usize::MAX,
            S::width() > 0 || self.entries().len() == 0,
        ensures
            r matches Ok(o) && {
                let cands = linear_overlaps(self.entries(), query.features());
                &&& o is None <==> self.entries().len() == 0
                &&& o matches Some(best) ==> cands.contains_key(best) && forall|key: K|
                    #[trigger] cands.contains_key(key) ==> cands[key] <= cands[best]
            },
    {
        let top = self.top_k(query, 1)?;
        let ghost cands = linear_overlaps(self.entries(), query.features());
        let ghost rk = top@.map_values(|e: (K, SimilarityScore)| (e.0, e.1.spec_intersection()));
        if top.len() == 0 {
            proof {
                if self.entries().len() > 0 {
                    let key = self.entries()[0].0;
                    assert(has_key(self.entries(), key));
                    assert(cands.contains_key(key));
                    assert(!has_key(rk, key));
                }
            }
            Ok(None)
        } else {
            let best = top[0].0;
            proof {
                assert(rk[0].0 == best);
                assert(cands.contains_key(rk[0].0));
                assert(has_key(self.entries(), best));
                assert forall|key: K| #[trigger] cands.contains_key(key) implies cands[key] <= cands[best] by {
                    if key != best && has_key(rk, key) {
                        let i = choose|i: int| 0 <= i < rk.len() && #[trigger] rk[i].0 == key;
                        assert(i == 0);
                    }
                }
            }
            Ok(Some(best))
        }
    }

    /// Removes all entries from the index.
    pub fn clear(&mut self) -> (r: Result<(), IndexError>)
        ensures
            r is Ok,
            final(self).entries() == Seq::<(K, S)>::empty(),
    {
        let mut v: Vec<(K, S)> = Vec::new();
        std::mem::swap(&mut v, &mut self.entries);
        Ok(())
    }
}

} // verus!
