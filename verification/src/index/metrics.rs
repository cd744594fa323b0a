//! Per-key metrics kept beside an index.

use vstd::prelude::*;
use std::collections::HashMap;
use crate::sketch::IndexKey;
use vstd::std_specs::iter::IteratorSpec;

verus! {

broadcast use vstd::std_specs::hash::group_hash_axioms;

/// A small metadata value associated with a key, used for false-positive filtering.
pub type Metric = u8;

/// Storage for per-key metrics.
///
/// Metrics are small values (e.g. false-positive counters) stored
/// independently from any sketch or posting-list storage.
pub trait MetricStorage<K: IndexKey> {
    /// The metric held for each key.
    spec fn metrics(&self) -> Map<K, Metric>;

    /// Returns the metric held for `key`, if any.
    fn get_metric(&self, key: &K) -> (r: Option<Metric>)
        ensures
            r == (if self.metrics().contains_key(*key) { Some(self.metrics()[*key]) } else { None }),
    ;

    /// Sets the metric of `key`, returning the one it replaces.
    fn set_metric(&mut self, key: &K, value: Metric) -> (r: Option<Metric>)
        ensures
            final(self).metrics() == old(self).metrics().insert(*key, value),
            r == (if old(self).metrics().contains_key(*key) { Some(old(self).metrics()[*key]) } else { None }),
    ;

    /// Removes the metric of `key`, returning it.
    fn remove_metric(&mut self, key: &K) -> (r: Option<Metric>)
        ensures
            final(self).metrics() == old(self).metrics().remove(*key),
            r == (if old(self).metrics().contains_key(*key) { Some(old(self).metrics()[*key]) } else { None }),
    ;

    /// Removes every metric.
    fn clear_all(&mut self)
        ensures
            final(self).metrics() == Map::<K, Metric>::empty(),
    ;
}

/// In-memory implementation of [`MetricStorage`] backed by a [`HashMap`].
pub struct MetricsMap<K: IndexKey> {
    data: HashMap<K, Metric>,
}

/// What `update_and_clean` leaves for one key whose metric was `m`: the key
/// stays with `u` when `u` is an outcome of `update_fn` on `m` that
/// `cleanup_fn` rejects, and goes when some such outcome is accepted.
pub open spec fn cleaned_entry<U: Fn(Metric) -> Metric, C: Fn(Metric) -> bool>(
    update_fn: U,
    cleanup_fn: C,
    m: Metric,
    after: Option<Metric>,
) -> bool {
    match after {
        Some(u) => call_ensures(update_fn, (m,), u) && call_ensures(cleanup_fn, (u,), false),
        None => exists|u: Metric|
            call_ensures(update_fn, (m,), u) && #[trigger] call_ensures(cleanup_fn, (u,), true),
    }
}

impl<K: IndexKey> MetricsMap<K> {
    /// The keys obey the hash-table key model.
    #[verifier::type_invariant]
    pub open spec fn inv(&self) -> bool {
        vstd::std_specs::hash::obeys_key_model::<K>()
    }

    /// Creates an empty metrics map; its keys must obey the hash-table key
    /// model.
    pub fn new() -> (r: Self)
        requires
            vstd::std_specs::hash::obeys_key_model::<K>(),
        ensures
            r.metrics() == Map::<K, Metric>::empty(),
    {
        MetricsMap { data: HashMap::new() }
    }

    /// Applies `update_fn` to every metric, then removes the entries on which
    /// `cleanup_fn` returns `true`.
    pub fn update_and_clean<U: Fn(Metric) -> Metric, C: Fn(Metric) -> bool>(
        &mut self,
        update_fn: U,
        cleanup_fn: C,
    )
        requires
            forall|m: Metric| call_requires(update_fn, (m,)),
            forall|m: Metric| call_requires(cleanup_fn, (m,)),
        ensures
            final(self).metrics().dom().subset_of(old(self).metrics().dom()),
            forall|k: K| #[trigger] old(self).metrics().contains_key(k) ==> cleaned_entry(
                update_fn,
                cleanup_fn,
                old(self).metrics()[k],
                if final(self).metrics().contains_key(k) { Some(final(self).metrics()[k]) } else { None },
            ),
    {
        proof {
            use_type_invariant(&*self);
        }
        let mut data: HashMap<K, Metric> = HashMap::new();
        std::mem::swap(&mut data, &mut self.data);
        let ghost before = data@;
        let ghost all = vstd::std_specs::hash::spec_keys_iter(&data).remaining().unref();
        let mut keys: Vec<K> = Vec::new();
        for k in it: data.keys()
            invariant
                data@ == before,
                it.seq().unref() == all,
                keys@.len() == it.index(),
                forall|j: int| 0 <= j < it.index() ==> keys@[j] == *it.seq()[j],
        {
            keys.push(*k);
        }
        proof {
            assert(keys@ =~= all);
            assert(keys@.to_set() == before.dom());
            assert(keys@.no_duplicates());
        }
        let n = keys.len();
        let mut i: usize = 0;
        while i < n
            invariant
                n == keys@.len(),
                i <= n,
                keys@.to_set() == before.dom(),
                keys@.no_duplicates(),
                vstd::std_specs::hash::obeys_key_model::<K>(),
                forall|m: Metric| call_requires(update_fn, (m,)),
                forall|m: Metric| call_requires(cleanup_fn, (m,)),
                data@.dom().subset_of(before.dom()),
                forall|j: int| #![trigger keys@[j]] i <= j < n ==> data@.contains_key(keys@[j])
                    && data@[keys@[j]] == before[keys@[j]],
                forall|j: int| 0 <= j < i ==> cleaned_entry(
                    update_fn,
                    cleanup_fn,
                    before[#[trigger] keys@[j]],
                    if data@.contains_key(keys@[j]) { Some(data@[keys@[j]]) } else { None },
                ),
            decreases n - i,
        {
            let k = keys[i];
            let m = *data.get(&k).unwrap();
            let u = update_fn(m);
            let drop = cleanup_fn(u);
            if drop {
                data.remove(&k);
            } else {
                data.insert(k, u);
            }
            proof {
                assert forall|j: int| #![trigger keys@[j]] i < j < n implies data@.contains_key(keys@[j])
                    && data@[keys@[j]] == before[keys@[j]] by {
                    assert(keys@[j] != keys@[i as int]);
                }
                assert forall|j: int| 0 <= j < i implies cleaned_entry(
                    update_fn,
                    cleanup_fn,
                    before[#[trigger] keys@[j]],
                    if data@.contains_key(keys@[j]) { Some(data@[keys@[j]]) } else { None },
                ) by {
                    assert(keys@[j] != keys@[i as int]);
                }
            }
            i += 1;
        }
        proof {
            assert forall|k: K| #[trigger] before.contains_key(k) implies cleaned_entry(
                update_fn,
                cleanup_fn,
                before[k],
                if data@.contains_key(k) { Some(data@[k]) } else { None },
            ) by {
                assert(keys@.to_set().contains(k));
                let j = choose|j: int| 0 <= j < n && keys@[j] == k;
            }
        }
        self.data = data;
    }
}

impl<K: IndexKey> MetricStorage<K> for MetricsMap<K> {
    closed spec fn metrics(&self) -> Map<K, Metric> {
        self.data@
    }

    fn get_metric(&self, key: &K) -> (r: Option<Metric>) {
        proof {
            use_type_invariant(self);
        }
        match self.data.get(key) {
            Some(m) => Some(*m),
            None => None,
        }
    }

    fn set_metric(&mut self, key: &K, value: Metric) -> (r: Option<Metric>) {
        proof {
            use_type_invariant(&*self);
        }
        let mut data: HashMap<K, Metric> = HashMap::new();
        std::mem::swap(&mut data, &mut self.data);
        let r = data.insert(*key, value);
        self.data = data;
        r
    }

    fn remove_metric(&mut self, key: &K) -> (r: Option<Metric>) {
        proof {
            use_type_invariant(&*self);
        }
        let mut data: HashMap<K, Metric> = HashMap::new();
        std::mem::swap(&mut data, &mut self.data);
        let r = data.remove(key);
        self.data = data;
        r
    }

    fn clear_all(&mut self) {
        proof {
            use_type_invariant(&*self);
        }
        let mut data: HashMap<K, Metric> = HashMap::new();
        std::mem::swap(&mut data, &mut self.data);
        data.clear();
        self.data = data;
    }
}

} // verus!
