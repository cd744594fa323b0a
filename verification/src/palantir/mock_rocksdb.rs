//! An in-memory key-value store standing in for RocksDB, with operation
//! counters.

use vstd::prelude::*;

verus! {

/// `true` exactly when the two byte strings are equal.
pub fn bytes_eq(a: &[u8], b: &[u8]) -> (r: bool)
    ensures
        r == (a@ == b@),
{
    if a.len() != b.len() {
        return false;
    }
    let n = a.len();
    let mut i: usize = 0;
    while i < n
        invariant
            n == a@.len(),
            n == b@.len(),
            i <= n,
            forall|j: int| 0 <= j < i ==> a@[j] == b@[j],
        decreases n - i,
    {
        if a[i] != b[i] {
            return false;
        }
        i += 1;
    }
    proof {
        assert(a@ =~= b@);
    }
    true
}

/// The stored key-value pairs, as byte strings.
pub open spec fn pairs_view(s: Seq<(Vec<u8>, Vec<u8>)>) -> Seq<(Seq<u8>, Seq<u8>)> {
    s.map_values(|e: (Vec<u8>, Vec<u8>)| (e.0@, e.1@))
}

/// The map that a sequence of pairs with distinct keys stands for.
pub open spec fn pairs_map(s: Seq<(Seq<u8>, Seq<u8>)>) -> Map<Seq<u8>, Seq<u8>>
    decreases s.len(),
{
    if s.len() == 0 {
        Map::empty()
    } else {
        pairs_map(s.drop_last()).insert(s.last().0, s.last().1)
    }
}

/// Total length of the values of a sequence of pairs.
pub open spec fn total_value_len(s: Seq<(Seq<u8>, Seq<u8>)>) -> nat
    decreases s.len(),
{
    if s.len() == 0 {
        0
    } else {
        total_value_len(s.drop_last()) + s.last().1.len()
    }
}

/// An in-memory key-value map that counts its reads, writes and clears.
pub struct MockRocksDBMap {
    inner: Vec<(Vec<u8>, Vec<u8>)>,
    get_count: usize,
    insert_count: usize,
    clear_count: usize,
}

/// A fresh copy of a byte string.
pub fn copy_bytes(s: &[u8]) -> (r: Vec<u8>)
    ensures
        r@ == s@,
{
    let mut r: Vec<u8> = Vec::new();
    let n = s.len();
    let mut i: usize = 0;
    while i < n
        invariant
            n == s@.len(),
            i <= n,
            r@ == s@.take(i as int),
        decreases n - i,
    {
        r.push(s[i]);
        proof {
            assert(s@.take(i + 1) =~= s@.take(i as int).push(s@[i as int]));
        }
        i += 1;
    }
    proof {
        assert(s@.take(n as int) =~= s@);
    }
    r
}

/// The pairs after `key` is set to `value`: an existing pair takes the new
/// value in place, otherwise the pair is appended.
pub open spec fn upsert(s: Seq<(Seq<u8>, Seq<u8>)>, key: Seq<u8>, value: Seq<u8>) -> Seq<(Seq<u8>, Seq<u8>)> {
    if exists|i: int| 0 <= i < s.len() && #[trigger] s[i].0 == key {
        let i = choose|i: int| 0 <= i < s.len() && #[trigger] s[i].0 == key;
        s.update(i, (key, value))
    } else {
        s.push((key, value))
    }
}

/// A read after a write gives what was written: after setting `key` to
/// `value` in pairs with distinct keys, `key` is stored once, with `value`,
/// and keys stay distinct.
pub proof fn lemma_read_after_write(s: Seq<(Seq<u8>, Seq<u8>)>, key: Seq<u8>, value: Seq<u8>)
    requires
        forall|i: int, j: int| 0 <= i < j < s.len() ==> #[trigger] s[i].0 != #[trigger] s[j].0,
    ensures
        exists|i: int| 0 <= i < upsert(s, key, value).len() && #[trigger] upsert(s, key, value)[i].0 == key,
        forall|i: int| 0 <= i < upsert(s, key, value).len() && #[trigger] upsert(s, key, value)[i].0 == key
            ==> upsert(s, key, value)[i].1 == value,
        forall|i: int, j: int| 0 <= i < j < upsert(s, key, value).len() ==> #[trigger] upsert(s, key, value)[i].0
            != #[trigger] upsert(s, key, value)[j].0,
{
    let u = upsert(s, key, value);
    if exists|i: int| 0 <= i < s.len() && #[trigger] s[i].0 == key {
        let k = choose|i: int| 0 <= i < s.len() && #[trigger] s[i].0 == key;
        assert(u[k].0 == key);
        assert forall|i: int| 0 <= i < u.len() && #[trigger] u[i].0 == key implies u[i].1 == value by {
            if i != k {
                assert(s[i].0 == key);
                if i < k {
                    assert(s[i].0 != s[k].0);
                } else {
                    assert(s[k].0 != s[i].0);
                }
            }
        }
    } else {
        assert(u[s.len() as int].0 == key);
        assert forall|i: int| 0 <= i < u.len() && #[trigger] u[i].0 == key implies u[i].1 == value by {
            if i < s.len() {
                assert(s[i].0 == key);
            }
        }
    }
}

impl MockRocksDBMap {
    /// The stored pairs, each key once, in insertion order.
    pub closed spec fn pairs(&self) -> Seq<(Seq<u8>, Seq<u8>)> {
        pairs_view(self.inner@)
    }

    /// Number of reads so far.
    pub closed spec fn gets(&self) -> nat {
        self.get_count as nat
    }

    /// Number of writes so far.
    pub closed spec fn inserts(&self) -> nat {
        self.insert_count as nat
    }

    /// Number of clears so far.
    pub closed spec fn clears(&self) -> nat {
        self.clear_count as nat
    }

    /// The stored map.
    pub open spec fn contents(&self) -> Map<Seq<u8>, Seq<u8>> {
        pairs_map(self.pairs())
    }

    /// Each key is stored once.
    pub open spec fn wf(&self) -> bool {
        forall|i: int, j: int| 0 <= i < j < self.pairs().len() ==> #[trigger] self.pairs()[i].0 != #[trigger] self.pairs()[j].0
    }

    /// Creates an empty map with all counters at zero.
    pub fn new() -> (r: Self)
        ensures
            r.wf(),
            r.pairs() == Seq::<(Seq<u8>, Seq<u8>)>::empty(),
            r.gets() == 0,
            r.inserts() == 0,
            r.clears() == 0,
    {
        let r = MockRocksDBMap { inner: Vec::new(), get_count: 0, insert_count: 0, clear_count: 0 };
        proof {
            assert(r.pairs() =~= Seq::<(Seq<u8>, Seq<u8>)>::empty());
        }
        r
    }

    /// Returns the number of reads so far.
    pub fn get_count(&self) -> (r: usize)
        ensures
            r == self.gets(),
    {
        self.get_count
    }

    /// Returns the number of writes so far.
    pub fn insert_count(&self) -> (r: usize)
        ensures
            r == self.inserts(),
    {
        self.insert_count
    }

    /// Returns the number of clears so far.
    pub fn clear_count(&self) -> (r: usize)
        ensures
            r == self.clears(),
    {
        self.clear_count
    }

    /// Finds the position of the pair for `key`.
    fn find(&self, key: &[u8]) -> (r: Option<usize>)
        ensures
            r matches Some(i) ==> i < self.pairs().len() && self.pairs()[i as int].0 == key@,
            r is None ==> forall|i: int| 0 <= i < self.pairs().len() ==> #[trigger] self.pairs()[i].0 != key@,
    {
        let n = self.inner.len();
        let mut i: usize = 0;
        while i < n
            invariant
                n == self.inner@.len(),
                i <= n,
                forall|j: int| 0 <= j < i ==> #[trigger] self.pairs()[j].0 != key@,
            decreases n - i,
        {
            if bytes_eq(self.inner[i].0.as_slice(), key) {
                return Some(i);
            }
            i += 1;
        }
        None
    }

    /// Stores `value` under `key`, replacing any value held, and counts the
    /// write.
    pub fn insert(&mut self, key: Vec<u8>, value: Vec<u8>)
        requires
            old(self).wf(),
            old(self).inserts() < usize::MAX,
        ensures
            final(self).wf(),
            final(self).pairs() == upsert(old(self).pairs(), key@, value@),
            final(self).inserts() == old(self).inserts() + 1,
            final(self).gets() == old(self).gets(),
            final(self).clears() == old(self).clears(),
    {
        self.insert_count = self.insert_count + 1;
        let ghost s = old(self).pairs();
        let ghost kv = key@;
        let ghost vv = value@;
        let found = self.find(key.as_slice());
        proof {
            assert(self.pairs() == s);
            if found is None {
                assert forall|i: int| 0 <= i < s.len() implies #[trigger] s[i].0 != kv by {
                    assert(self.pairs()[i].0 != kv);
                }
            }
        }
        match found {
            Some(i) => {
                self.inner[i] = (key, value);
                proof {
                    let j = choose|j: int| 0 <= j < s.len() && #[trigger] s[j].0 == kv;
                    if j != i {
                        if j < i {
                            assert(old(self).pairs()[j].0 != old(self).pairs()[i as int].0);
                        } else {
                            assert(old(self).pairs()[i as int].0 != old(self).pairs()[j].0);
                        }
                    }
                    assert(self.pairs() =~= upsert(s, kv, vv));
                    assert forall|a: int, b: int| 0 <= a < b < self.pairs().len() implies #[trigger] self.pairs()[a].0
                        != #[trigger] self.pairs()[b].0 by {
                        assert(old(self).pairs()[a].0 != old(self).pairs()[b].0);
                    }
                }
            },
            None => {
                self.inner.push((key, value));
                proof {
                    assert(!(exists|i: int| 0 <= i < s.len() && #[trigger] s[i].0 == kv));
                    assert(self.pairs() =~= s.push((kv, vv)));
                    assert(self.pairs() =~= upsert(s, kv, vv));
                    assert forall|a: int, b: int| 0 <= a < b < self.pairs().len() implies #[trigger] self.pairs()[a].0
                        != #[trigger] self.pairs()[b].0 by {
                        if b < s.len() {
                            assert(old(self).pairs()[a].0 != old(self).pairs()[b].0);
                        }
                    }
                }
            },
        }
    }

    /// Returns a copy of the value stored under `key`, and counts the read.
    pub fn get(&mut self, key: &[u8]) -> (r: Option<Vec<u8>>)
        requires
            old(self).wf(),
            old(self).gets() < usize::MAX,
        ensures
            final(self).pairs() == old(self).pairs(),
            final(self).wf(),
            final(self).gets() == old(self).gets() + 1,
            final(self).inserts() == old(self).inserts(),
            final(self).clears() == old(self).clears(),
            r is Some <==> exists|i: int| 0 <= i < old(self).pairs().len() && #[trigger] old(self).pairs()[i].0 == key@,
            forall|i: int| 0 <= i < old(self).pairs().len() && #[trigger] old(self).pairs()[i].0 == key@
                ==> (r matches Some(v) && v@ == old(self).pairs()[i].1),
    {
        self.get_count = self.get_count + 1;
        match self.find(key) {
            Some(i) => {
                let v = copy_bytes(self.inner[i].1.as_slice());
                proof {
                    assert forall|j: int| 0 <= j < self.pairs().len() && #[trigger] self.pairs()[j].0 == key@
                        implies j == i by {
                        if j < i {
                            assert(self.pairs()[j].0 != self.pairs()[i as int].0);
                        } else if j > i {
                            assert(self.pairs()[i as int].0 != self.pairs()[j].0);
                        }
                    }
                }
                Some(v)
            },
            None => None,
        }
    }

    /// Returns `true` when a value is stored under `key`.
    pub fn contains(&self, key: &[u8]) -> (r: bool)
        ensures
            r == exists|i: int| 0 <= i < self.pairs().len() && #[trigger] self.pairs()[i].0 == key@,
    {
        match self.find(key) {
            Some(i) => true,
            None => false,
        }
    }

    /// Removes every pair, and counts the clear.
    pub fn clear(&mut self)
        requires
            old(self).clears() < usize::MAX,
        ensures
            final(self).wf(),
            final(self).pairs() == Seq::<(Seq<u8>, Seq<u8>)>::empty(),
            final(self).clears() == old(self).clears() + 1,
            final(self).gets() == old(self).gets(),
            final(self).inserts() == old(self).inserts(),
    {
        self.clear_count = self.clear_count + 1;
        self.inner.clear();
        proof {
            assert(self.pairs() =~= Seq::<(Seq<u8>, Seq<u8>)>::empty());
        }
    }

    /// Returns the number of stored pairs.
    pub fn len(&self) -> (r: usize)
        ensures
            r == self.pairs().len(),
    {
        self.inner.len()
    }

    /// Returns `true` when nothing is stored.
    pub fn is_empty(&self) -> (r: bool)
        ensures
            r == (self.pairs().len() == 0),
    {
        self.inner.len() == 0
    }

    /// Returns the total length of the stored values, in bytes.
    pub fn total_bytes(&self) -> (r: usize)
        requires
            total_value_len(self.pairs()) <= usize::MAX,
        ensures
            r == total_value_len(self.pairs()),
    {
        let n = self.inner.len();
        let mut total: usize = 0;
        let mut i: usize = 0;
        while i < n
            invariant
                n == self.inner@.len(),
                i <= n,
                total == total_value_len(self.pairs().take(i as int)),
                total_value_len(self.pairs()) <= usize::MAX,
            decreases n - i,
        {
            proof {
                assert(self.pairs().take(i + 1).drop_last() =~= self.pairs().take(i as int));
                lemma_total_prefix_le(self.pairs(), i + 1);
            }
            total = total + self.inner[i].1.len();
            i += 1;
        }
        proof {
            assert(self.pairs().take(n as int) =~= self.pairs());
        }
        total
    }
}

/// The total of a prefix is no more than the total.
proof fn lemma_total_prefix_le(s: Seq<(Seq<u8>, Seq<u8>)>, m: int)
    requires
        0 <= m <= s.len(),
    ensures
        total_value_len(s.take(m)) <= total_value_len(s),
    decreases s.len(),
{
    if m < s.len() {
        assert(s.drop_last().take(m) =~= s.take(m));
        lemma_total_prefix_le(s.drop_last(), m);
    } else {
        assert(s.take(m) =~= s);
    }
}

} // verus!
