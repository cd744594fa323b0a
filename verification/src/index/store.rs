//! Storage traits and in-memory backend for sketch indexes.

use vstd::prelude::*;
use crate::index::error::IndexError;
use crate::sketch::{IndexKey, Sketch};

pub mod index_storage;
pub use index_storage::IndexStorage;

verus! {

/// The keys posted under `f`.
pub open spec fn keys_for<K, F>(p: Map<F, Set<K>>, f: F) -> Set<K> {
    if p.contains_key(f) {
        p[f]
    } else {
        Set::empty()
    }
}

/// The postings after `key` is added under feature `f`.
pub open spec fn with_posting<K, F>(p: Map<F, Set<K>>, f: F, key: K) -> Map<F, Set<K>> {
    p.insert(f, keys_for(p, f).insert(key))
}

/// The postings after `key` is taken out of feature `f`; a feature whose
/// posting set becomes empty is dropped.
pub open spec fn without_posting<K, F>(p: Map<F, Set<K>>, f: F, key: K) -> Map<F, Set<K>> {
    if !p.contains_key(f) {
        p
    } else if p[f].remove(key) == Set::<K>::empty() {
        p.remove(f)
    } else {
        p.insert(f, p[f].remove(key))
    }
}

/// The postings after `key` is added under every feature of `fs`.
pub open spec fn with_entry<K, F>(p: Map<F, Set<K>>, key: K, fs: Seq<F>) -> Map<F, Set<K>> {
    Map::new(
        |f: F| p.contains_key(f) || fs.contains(f),
        |f: F| if fs.contains(f) { keys_for(p, f).insert(key) } else { p[f] },
    )
}

/// The postings after `key` is taken out of every feature of `fs`.
pub open spec fn without_entry<K, F>(p: Map<F, Set<K>>, key: K, fs: Seq<F>) -> Map<F, Set<K>> {
    Map::new(
        |f: F| p.contains_key(f) && (!fs.contains(f) || p[f].remove(key) != Set::<K>::empty()),
        |f: F| if fs.contains(f) { p[f].remove(key) } else { p[f] },
    )
}

/// A call that changes the posting lists of a storage.
pub enum PostingCall<K, F> {
    /// `insert_posting(f, key)`.
    Insert(F, K),
    /// `remove_posting(f, &key)`.
    Remove(F, K),
    /// `clear_postings()`.
    Clear,
}

/// The postings after `calls`, in order, starting from none, by the effect
/// each call's contract states.
pub open spec fn replay<K, F>(calls: Seq<PostingCall<K, F>>) -> Map<F, Set<K>>
    decreases calls.len(),
{
    if calls.len() == 0 {
        Map::empty()
    } else {
        let p = replay(calls.drop_last());
        match calls.last() {
            PostingCall::Insert(f, key) => with_posting(p, f, key),
            PostingCall::Remove(f, key) => without_posting(p, f, key),
            PostingCall::Clear => Map::empty(),
        }
    }
}

/// Call `i` posts `key` under `f`, and no later call removes it from `f` or
/// clears the postings.
pub open spec fn still_posted<K, F>(calls: Seq<PostingCall<K, F>>, f: F, key: K, i: int) -> bool {
    &&& calls[i] == PostingCall::Insert(f, key)
    &&& forall|j: int| i < j < calls.len() ==> #[trigger] calls[j] != PostingCall::Remove(f, key) && calls[j]
        != PostingCall::<K, F>::Clear
}

/// The law of a storage's posting lists over any sequence of calls. A new
/// [`IndexStorage`] starts from no postings, and `insert_posting`,
/// `remove_posting` and `clear_postings` change them as [`replay`] steps do,
/// never failing; `posting_list` lists the keys of a feature once each and
/// `len_postings` counts the listed features.
///
/// From an empty storage, after any sequence of posting calls: every listed
/// feature has at least one key, so that the number of listed features is
/// the number of features with a non-empty posting list; and `key` is
/// listed under `f` exactly when some call posted it there and no later call
/// removed it from `f` or cleared the postings.
pub proof fn lemma_replay<K, F>(calls: Seq<PostingCall<K, F>>, f: F, key: K)
    ensures
        forall|g: F| #[trigger] replay(calls).contains_key(g) ==> replay(calls)[g] != Set::<K>::empty(),
        keys_for(replay(calls), f).contains(key) <==> exists|i: int| 0 <= i < calls.len() && #[trigger] still_posted(
            calls,
            f,
            key,
            i,
        ),
    decreases calls.len(),
{
    if calls.len() == 0 {
        assert(replay(calls) =~= Map::<F, Set<K>>::empty());
    } else {
        let pre = calls.drop_last();
        let n = calls.len() - 1;
        let last = calls.last();
        lemma_replay(pre, f, key);
        let p = replay(pre);
        let q = replay(calls);
        assert forall|i: int| 0 <= i < n implies #[trigger] still_posted(calls, f, key, i) == (still_posted(
            pre,
            f,
            key,
            i,
        ) && last != PostingCall::Remove(f, key) && last != PostingCall::<K, F>::Clear) by {
            assert(calls[i] == pre[i]);
            if still_posted(calls, f, key, i) {
                assert forall|j: int| i < j < pre.len() implies #[trigger] pre[j] != PostingCall::Remove(f, key)
                    && pre[j] != PostingCall::<K, F>::Clear by {
                    assert(pre[j] == calls[j]);
                }
                assert(calls[n] == last);
            }
            if still_posted(pre, f, key, i) && last != PostingCall::Remove(f, key) && last
                != PostingCall::<K, F>::Clear {
                assert forall|j: int| i < j < calls.len() implies #[trigger] calls[j] != PostingCall::Remove(f, key)
                    && calls[j] != PostingCall::<K, F>::Clear by {
                    if j < n {
                        assert(pre[j] == calls[j]);
                    }
                }
            }
        }
        match last {
            PostingCall::Insert(g, k) => {
                assert(q == with_posting(p, g, k));
                assert forall|h: F| #[trigger] q.contains_key(h) implies q[h] != Set::<K>::empty() by {
                    if h == g {
                        assert(q[h].contains(k));
                    } else {
                        assert(p.contains_key(h));
                    }
                }
                if g == f && k == key {
                    assert(still_posted(calls, f, key, n));
                } else {
                    assert(keys_for(q, f).contains(key) == keys_for(p, f).contains(key));
                    if exists|i: int| 0 <= i < calls.len() && #[trigger] still_posted(calls, f, key, i) {
                        let i = choose|i: int| 0 <= i < calls.len() && #[trigger] still_posted(calls, f, key, i);
                        assert(i < n);
                        assert(still_posted(pre, f, key, i));
                    }
                    if exists|i: int| 0 <= i < pre.len() && #[trigger] still_posted(pre, f, key, i) {
                        let i = choose|i: int| 0 <= i < pre.len() && #[trigger] still_posted(pre, f, key, i);
                        assert(still_posted(calls, f, key, i));
                    }
                }
            },
            PostingCall::Remove(g, k) => {
                assert(q == without_posting(p, g, k));
                if g == f && k == key {
                    assert(!keys_for(q, f).contains(key));
                    if exists|i: int| 0 <= i < calls.len() && #[trigger] still_posted(calls, f, key, i) {
                        let i = choose|i: int| 0 <= i < calls.len() && #[trigger] still_posted(calls, f, key, i);
                        assert(calls[n] == last);
                    }
                } else {
                    if p.contains_key(g) && p[g].remove(k) == Set::<K>::empty() && g == f {
                        assert(!p[g].remove(k).contains(key));
                    }
                    assert(keys_for(q, f).contains(key) == keys_for(p, f).contains(key));
                    if exists|i: int| 0 <= i < calls.len() && #[trigger] still_posted(calls, f, key, i) {
                        let i = choose|i: int| 0 <= i < calls.len() && #[trigger] still_posted(calls, f, key, i);
                        assert(calls[n] == last);
                        assert(i < n);
                        assert(still_posted(pre, f, key, i));
                    }
                    if exists|i: int| 0 <= i < pre.len() && #[trigger] still_posted(pre, f, key, i) {
                        let i = choose|i: int| 0 <= i < pre.len() && #[trigger] still_posted(pre, f, key, i);
                        assert(still_posted(calls, f, key, i));
                    }
                }
                assert forall|h: F| #[trigger] q.contains_key(h) implies q[h] != Set::<K>::empty() by {
                    if h != g {
                        assert(p.contains_key(h));
                    }
                }
            },
            PostingCall::Clear => {
                assert(q == Map::<F, Set<K>>::empty());
                if exists|i: int| 0 <= i < calls.len() && #[trigger] still_posted(calls, f, key, i) {
                    let i = choose|i: int| 0 <= i < calls.len() && #[trigger] still_posted(calls, f, key, i);
                    assert(calls[n] == last);
                }
            },
        }
    }
}

/// `s.take(j + 1)` holds what `s.take(j)` holds and `s[j]`.
pub proof fn lemma_take_succ_contains<A>(s: Seq<A>, j: int)
    requires
        0 <= j < s.len(),
    ensures
        forall|x: A| #[trigger] s.take(j + 1).contains(x) <==> s.take(j).contains(x) || x == s[j],
{
    let t = s.take(j);
    let t1 = s.take(j + 1);
    assert forall|x: A| #[trigger] t1.contains(x) <==> t.contains(x) || x == s[j] by {
        if t1.contains(x) {
            let k = choose|k: int| 0 <= k < t1.len() && t1[k] == x;
            if k < j {
                assert(t[k] == x);
            }
        }
        if t.contains(x) {
            let k = choose|k: int| 0 <= k < t.len() && t[k] == x;
            assert(t1[k] == x);
        }
        if x == s[j] {
            assert(t1[j] == x);
        }
    }
}

/// Posting an entry depends only on which features it has, not on their
/// order.
pub proof fn lemma_with_entry_permutation<K, F>(p: Map<F, Set<K>>, key: K, a: Seq<F>, b: Seq<F>)
    requires
        a.to_multiset() == b.to_multiset(),
    ensures
        with_entry(p, key, a) == with_entry(p, key, b),
{
    broadcast use vstd::seq_lib::group_to_multiset_ensures;

    assert forall|f: F| a.contains(f) <==> b.contains(f) by {
        assert(a.contains(f) <==> a.to_multiset().count(f) > 0);
        assert(b.contains(f) <==> b.to_multiset().count(f) > 0);
    }
    assert(with_entry(p, key, a) =~= with_entry(p, key, b));
}

/// Posting an entry twice is posting it once.
pub proof fn lemma_with_entry_idempotent<K, F>(p: Map<F, Set<K>>, key: K, fs: Seq<F>)
    ensures
        with_entry(with_entry(p, key, fs), key, fs) == with_entry(p, key, fs),
{
    let a = with_entry(with_entry(p, key, fs), key, fs);
    let b = with_entry(p, key, fs);
    assert forall|f: F| #[trigger] a.contains_key(f) implies a[f] == b[f] by {
        if fs.contains(f) {
            assert(a[f] =~= b[f]);
        }
    }
    assert(a =~= b);
}

/// Posting a key under a feature twice is posting it once.
pub proof fn lemma_with_posting_idempotent<K, F>(p: Map<F, Set<K>>, f: F, key: K)
    ensures
        with_posting(with_posting(p, f, key), f, key) == with_posting(p, f, key),
{
    assert(with_posting(with_posting(p, f, key), f, key) =~= with_posting(p, f, key)) by {
        assert(keys_for(with_posting(p, f, key), f).insert(key) =~= keys_for(p, f).insert(key));
    }
}

/// Posting lists are independent by feature: posting under `f` leaves the
/// keys of every other feature as they were.
pub proof fn lemma_with_posting_other_feature<K, F>(p: Map<F, Set<K>>, f: F, g: F, key: K)
    requires
        f != g,
    ensures
        keys_for(with_posting(p, f, key), g) == keys_for(p, g),
{
}

/// Taking a key out of the last posting of a feature drops the feature.
pub proof fn lemma_without_last_posting<K, F>(f: F, key: K)
    ensures
        without_posting(Map::<F, Set<K>>::empty().insert(f, set![key]), f, key) == Map::<F, Set<K>>::empty(),
{
    assert(set![key].remove(key) =~= Set::<K>::empty());
    assert(Map::<F, Set<K>>::empty().insert(f, set![key]).remove(f) =~= Map::<F, Set<K>>::empty());
}

/// Posting an entry one more feature is posting that feature once more.
proof fn lemma_with_entry_step<K, F>(p: Map<F, Set<K>>, key: K, s: Seq<F>, j: int)
    requires
        0 <= j < s.len(),
    ensures
        with_entry(p, key, s.take(j + 1)) == with_posting(with_entry(p, key, s.take(j)), s[j], key),
{
    lemma_take_succ_contains(s, j);
    let a = with_entry(p, key, s.take(j + 1));
    let w = with_entry(p, key, s.take(j));
    let b = with_posting(w, s[j], key);
    assert(a.dom() =~= b.dom());
    assert forall|f: F| #[trigger] a.contains_key(f) implies a[f] == b[f] by {
        if f == s[j] {
            if s.take(j).contains(f) {
                assert(b[f] =~= keys_for(p, f).insert(key).insert(key));
                assert(a[f] =~= b[f]);
            }
        }
    }
    assert(a =~= b);
}

/// Taking an entry out of one more feature is one more single removal.
proof fn lemma_without_entry_step<K, F>(p: Map<F, Set<K>>, key: K, s: Seq<F>, j: int)
    requires
        0 <= j < s.len(),
    ensures
        without_entry(p, key, s.take(j + 1)) == without_posting(without_entry(p, key, s.take(j)), s[j], key),
{
    lemma_take_succ_contains(s, j);
    let a = without_entry(p, key, s.take(j + 1));
    let w = without_entry(p, key, s.take(j));
    let b = without_posting(w, s[j], key);
    let f0 = s[j];
    assert forall|f: F| #[trigger] a.contains_key(f) <==> b.contains_key(f) by {
        if f == f0 && s.take(j).contains(f) && p.contains_key(f) {
            assert(p[f].remove(key).remove(key) =~= p[f].remove(key));
        }
    }
    assert(a.dom() =~= b.dom());
    assert forall|f: F| #[trigger] a.contains_key(f) implies a[f] == b[f] by {
        if f == f0 && s.take(j).contains(f) {
            assert(p[f].remove(key).remove(key) =~= p[f].remove(key));
        }
    }
    assert(a =~= b);
}

/// Storage for feature → posting-list records.
///
/// The storage is modelled by [`InvertedStorage::postings`], the set of keys
/// posted under each feature, and by [`InvertedStorage::entries`], the
/// features recorded for each key when the storage records entries at all.
/// Storages of this crate are in memory and never fail.
pub trait InvertedStorage<K: IndexKey, F: IndexKey>: Sized {
    /// The keys posted under each feature.
    spec fn postings(&self) -> Map<F, Set<K>>;

    /// The features recorded for each key, for key-only removal.
    spec fn entries(&self) -> Map<K, Seq<F>>;

    /// Whether this kind of storage records the features of its entries.
    spec fn records_entries() -> bool;

    /// Returns all keys that contain the feature.
    fn posting_list(&self, feature: F) -> (r: Result<Vec<K>, IndexError>)
        ensures
            r matches Ok(v) && v@.no_duplicates() && v@.to_set() == keys_for(self.postings(), feature),
    ;

    /// Adds the key to the feature's posting list.
    fn insert_posting(&mut self, feature: F, key: K) -> (r: Result<(), IndexError>)
        ensures
            r is Ok,
            final(self).postings() == with_posting(old(self).postings(), feature, key),
            final(self).entries() == old(self).entries(),
    ;

    /// Removes the key from the feature's posting list.
    fn remove_posting(&mut self, feature: F, key: &K) -> (r: Result<(), IndexError>)
        ensures
            r is Ok,
            final(self).postings() == without_posting(old(self).postings(), feature, *key),
            final(self).entries() == old(self).entries(),
    ;

    /// Records the features belonging to a key for key-only removal.
    ///
    /// Returns `true` when the caller should post the entry: always for a
    /// storage that records no entries, and for a fresh key otherwise.
    fn store_entry_features(&mut self, key: K, features: Vec<F>) -> (r: Result<bool, IndexError>)
        ensures
            r == Ok::<bool, IndexError>(!Self::records_entries() || !old(self).entries().contains_key(key)),
            final(self).postings() == old(self).postings(),
            final(self).entries() == (if Self::records_entries() && !old(self).entries().contains_key(key) {
                old(self).entries().insert(key, features@)
            } else {
                old(self).entries()
            }),
    ;

    /// Takes and removes the features belonging to a key.
    fn take_entry_features(&mut self, key: &K) -> (r: Result<Option<Vec<F>>, IndexError>)
        ensures
            r matches Ok(o) && (o is Some <==> old(self).entries().contains_key(*key)),
            r matches Ok(Some(v)) ==> v@ == old(self).entries()[*key],
            final(self).postings() == old(self).postings(),
            final(self).entries() == old(self).entries().remove(*key),
    ;

    /// Returns the number of distinct indexed features.
    fn len_postings(&self) -> (r: Result<usize, IndexError>)
        ensures
            r matches Ok(n) && n == self.postings().len(),
    ;

    /// Removes all posting lists.
    fn clear_postings(&mut self) -> (r: Result<(), IndexError>)
        ensures
            r is Ok,
            final(self).postings() == Map::<F, Set<K>>::empty(),
            final(self).entries() == old(self).entries(),
    ;
}

/// Complete storage backend required by [`crate::index::InvertedSketchIndex`].
pub trait Store<K: IndexKey, S: Sketch>: InvertedStorage<K, S::Feature> {
    /// Inserts an entry: records its features and posts the key under each of
    /// them. Keys already recorded are not updated.
    fn insert_entry(&mut self, key: K, sketch: S) -> (r: Result<(), IndexError>)
        ensures
            r is Ok,
            final(self).postings() == (if !Self::records_entries() || !old(self).entries().contains_key(key) {
                with_entry(old(self).postings(), key, sketch.features())
            } else {
                old(self).postings()
            }),
            final(self).entries() == (if Self::records_entries() && !old(self).entries().contains_key(key) {
                old(self).entries().insert(key, sketch.features())
            } else {
                old(self).entries()
            }),
    {
        let fs = sketch.as_slice();
        let n = fs.len();
        let mut features: Vec<S::Feature> = Vec::new();
        let mut i: usize = 0;
        while i < n
            invariant
                n == fs@.len(),
                fs@ == sketch.features(),
                i <= n,
                features@ == fs@.take(i as int),
            decreases n - i,
        {
            features.push(fs[i]);
            i += 1;
        }
        proof {
            assert(features@ =~= sketch.features());
        }
        let fresh = self.store_entry_features(key, features);
        match fresh {
            Ok(true) => {},
            Ok(false) => {
                return Ok(());
            },
            Err(e) => {
                return Err(e);
            },
        }
        let ghost p0 = self.postings();
        let ghost e1 = self.entries();
        let mut j: usize = 0;
        proof {
            assert(with_entry(p0, key, fs@.take(0)) =~= p0);
        }
        while j < n
            invariant
                n == fs@.len(),
                fs@ == sketch.features(),
                j <= n,
                self.postings() == with_entry(p0, key, fs@.take(j as int)),
                self.entries() == e1,
            decreases n - j,
        {
            let r = self.insert_posting(fs[j], key);
            proof {
                lemma_with_entry_step(p0, key, fs@, j as int);
            }
            j += 1;
        }
        proof {
            assert(fs@.take(n as int) =~= fs@);
            assert(p0 == old(self).postings());
        }
        Ok(())
    }

    /// Removes an entry from all posting lists using only its key.
    fn remove_entry(&mut self, key: &K) -> (r: Result<(), IndexError>)
        ensures
            r is Ok,
            final(self).postings() == (if old(self).entries().contains_key(*key) {
                without_entry(old(self).postings(), *key, old(self).entries()[*key])
            } else {
                old(self).postings()
            }),
            final(self).entries() == old(self).entries().remove(*key),
    {
        let taken = self.take_entry_features(key);
        match taken {
            Ok(Some(features)) => {
                let ghost p0 = self.postings();
                let ghost e1 = self.entries();
                let n = features.len();
                let mut j: usize = 0;
                proof {
                    assert(without_entry(p0, *key, features@.take(0)) =~= p0);
                }
                while j < n
                    invariant
                        n == features@.len(),
                        j <= n,
                        self.postings() == without_entry(p0, *key, features@.take(j as int)),
                        self.entries() == e1,
                    decreases n - j,
                {
                    let r = self.remove_posting(features[j], key);
                    proof {
                        lemma_without_entry_step(p0, *key, features@, j as int);
                    }
                    j += 1;
                }
                proof {
                    assert(features@.take(n as int) =~= features@);
                }
                Ok(())
            },
            Ok(None) => Ok(()),
            Err(e) => Err(e),
        }
    }

    /// Removes all entries from the storage: afterwards no key is posted
    /// under any feature. The features that a recording storage keeps for
    /// key-only removal stay, as the storage interface has no call that drops
    /// them; [`IndexStorage`] records none.
    fn clear(&mut self) -> (r: Result<(), IndexError>)
        ensures
            r is Ok,
            final(self).postings() == Map::<S::Feature, Set<K>>::empty(),
            final(self).entries() == old(self).entries(),
    {
        self.clear_postings()
    }
}

impl<K: IndexKey, S: Sketch, T: InvertedStorage<K, S::Feature>> Store<K, S> for T {
}

} // verus!
