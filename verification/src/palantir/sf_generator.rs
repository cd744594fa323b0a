//! Super-feature generation by gear-hash sampling and random linear
//! projections.

use vstd::prelude::*;
use vstd::std_specs::hash::DefaultHasherAdditionalSpecFns;
use vstd::bytes::spec_u64_to_le_bytes;
use std::hash::{DefaultHasher, Hasher};
use crate::palantir::types::{Chunk, SuperFeature};
use crate::palantir::utils::{lcm_steps_defined, lcm_vec, spec_lcm_vec};
use crate::ranking::lemma_swap_to_multiset;

verus! {

/// The rolling gear-hash fingerprint after one more byte.
pub open spec fn gear_step(fp: u64, byte: u8, gear: Seq<u64>) -> u64 {
    (fp << 1u64).wrapping_add(gear[byte as int])
}

/// The fingerprint after all of `data`, starting from zero.
pub open spec fn gear_fingerprint(data: Seq<u8>, gear: Seq<u64>) -> u64
    decreases data.len(),
{
    if data.len() == 0 {
        0
    } else {
        gear_step(gear_fingerprint(data.drop_last(), gear), data.last(), gear)
    }
}

/// The mask of the lowest `rate` bits.
pub open spec fn sample_mask(rate: u64) -> u64 {
    ((1u64 << rate) - 1) as u64
}

/// The linear projection of fingerprint `fp` at byte `byte` with
/// coefficient `c`, reduced to 32 bits.
pub open spec fn projection(c: u64, fp: u64, byte: u8) -> u64 {
    c.wrapping_mul(fp).wrapping_add(byte as u64) % 0x1_0000_0000u64
}

/// The smaller of two values.
pub open spec fn min_u64(a: u64, b: u64) -> u64 {
    if a <= b {
        a
    } else {
        b
    }
}

/// The raw features of `data`: every slot starts at `u64::MAX`, and after
/// every byte at which the fingerprint's lowest `rate` bits are all zero,
/// slot `i` keeps the least of its value and the projection of the
/// fingerprint with coefficient `coeffs[i]`.
pub open spec fn raw_features_of(data: Seq<u8>, gear: Seq<u64>, coeffs: Seq<u64>, rate: u64, n: nat) -> Seq<u64>
    decreases data.len(),
{
    if data.len() == 0 {
        Seq::new(n, |i: int| u64::MAX)
    } else {
        let fs = raw_features_of(data.drop_last(), gear, coeffs, rate, n);
        let fp = gear_fingerprint(data, gear);
        let b = data.last();
        if fp & sample_mask(rate) == 0 {
            Seq::new(n, |i: int| min_u64(fs[i], projection(coeffs[i], fp, b)))
        } else {
            fs
        }
    }
}

/// There are `n` raw features.
proof fn lemma_raw_features_len(data: Seq<u8>, gear: Seq<u64>, coeffs: Seq<u64>, rate: u64, n: nat)
    ensures
        raw_features_of(data, gear, coeffs, rate, n).len() == n,
    decreases data.len(),
{
    if data.len() > 0 {
        lemma_raw_features_len(data.drop_last(), gear, coeffs, rate, n);
    }
}

/// One step of the rolling hash doubles the fingerprint and adds the gear
/// value of the byte, modulo 2^64.
pub proof fn lemma_gear_step_linear(fp: u64, byte: u8, gear: Seq<u64>)
    ensures
        gear_step(fp, byte, gear) as int == (2 * fp as int + gear[byte as int] as int) % 0x1_0000_0000_0000_0000,
{
    let full: int = 0x1_0000_0000_0000_0000;
    let g = gear[byte as int];
    let d = fp << 1u64;
    assert(d as int == (2 * fp as int) % full) by {
        assert(fp << 1u64 == (2 * fp as int) % 0x1_0000_0000_0000_0000) by (bit_vector);
    }
    vstd::arithmetic::div_mod::lemma_add_mod_noop(2 * fp as int, g as int, full);
    vstd::arithmetic::div_mod::lemma_small_mod(g as nat, full as nat);
    if d as int + g as int >= full {
        vstd::arithmetic::div_mod::lemma_small_mod((d as int + g as int - full) as nat, full as nat);
        vstd::arithmetic::div_mod::lemma_mod_add_multiples_vanish(d as int + g as int - full, full);
    } else {
        vstd::arithmetic::div_mod::lemma_small_mod((d as int + g as int) as nat, full as nat);
    }
}

/// A fingerprint is sampled exactly when it is a multiple of `2^rate`.
pub proof fn lemma_sampled_is_multiple(fp: u64, rate: u64)
    requires
        rate < 64,
    ensures
        (fp & sample_mask(rate) == 0) <==> fp as int % vstd::arithmetic::power2::pow2(rate as nat) as int == 0,
{
    vstd::bits::lemma_u64_pow2_no_overflow(rate as nat);
    vstd::bits::lemma_u64_shl_is_mul(1, rate);
    assert(sample_mask(rate) == vstd::bits::low_bits_mask(rate as nat) as u64);
    vstd::bits::lemma_u64_low_bits_mask_is_mod(fp, rate as nat);
}

/// A projection is the linear map `c * fp + byte`, taken modulo 2^32.
pub proof fn lemma_projection_linear(c: u64, fp: u64, byte: u8)
    ensures
        projection(c, fp, byte) as int == (c as int * fp as int + byte as int) % 0x1_0000_0000,
{
    let lo: int = 0x1_0000_0000;
    let full: int = 0x1_0000_0000_0000_0000;
    let p: int = c as int * fp as int;
    assert(p >= 0) by (nonlinear_arith)
        requires
            p == c as int * fp as int,
    ;
    let w: int = c.wrapping_mul(fp) as int;
    assert(w == p % full);
    let a: int = c.wrapping_mul(fp).wrapping_add(byte as u64) as int;
    assert(a == (w + byte as int) % full) by {
        if w + byte as int >= full {
            vstd::arithmetic::div_mod::lemma_small_mod((w + byte as int - full) as nat, full as nat);
            vstd::arithmetic::div_mod::lemma_mod_add_multiples_vanish(w + byte as int - full, full);
        } else {
            vstd::arithmetic::div_mod::lemma_small_mod((w + byte as int) as nat, full as nat);
        }
    }
    assert(full == lo * lo);
    vstd::arithmetic::div_mod::lemma_mod_mod(w + byte as int, lo, lo);
    vstd::arithmetic::div_mod::lemma_mod_mod(p, lo, lo);
    vstd::arithmetic::div_mod::lemma_add_mod_noop(w, byte as int, lo);
    vstd::arithmetic::div_mod::lemma_add_mod_noop(p, byte as int, lo);
    assert(projection(c, fp, byte) as int == a % lo);
}

/// The fingerprint after byte `k` of `data` is sampled: its lowest `rate`
/// bits are all zero.
pub open spec fn sampled_at(data: Seq<u8>, gear: Seq<u64>, rate: u64, k: int) -> bool {
    gear_fingerprint(data.take(k + 1), gear) & sample_mask(rate) == 0
}

/// Every raw-feature slot is a min-hash with its own coefficient: slot `i`
/// of the raw features of `data` is no greater than the projection with
/// `coeffs[i]` of the fingerprint at any sampled byte, equals it at one of
/// them, and is `u64::MAX` when no byte is sampled.
pub proof fn lemma_raw_feature_is_min_hash(
    data: Seq<u8>,
    gear: Seq<u64>,
    coeffs: Seq<u64>,
    rate: u64,
    n: nat,
    i: int,
)
    requires
        0 <= i < n,
    ensures
        forall|k: int|
            0 <= k < data.len() && #[trigger] sampled_at(data, gear, rate, k) ==> raw_features_of(
                data,
                gear,
                coeffs,
                rate,
                n,
            )[i] <= projection(coeffs[i], gear_fingerprint(data.take(k + 1), gear), data[k]),
        (exists|k: int| 0 <= k < data.len() && #[trigger] sampled_at(data, gear, rate, k)) ==> exists|k: int|
            0 <= k < data.len() && #[trigger] sampled_at(data, gear, rate, k) && raw_features_of(
                data,
                gear,
                coeffs,
                rate,
                n,
            )[i] == projection(coeffs[i], gear_fingerprint(data.take(k + 1), gear), data[k]),
        !(exists|k: int| 0 <= k < data.len() && #[trigger] sampled_at(data, gear, rate, k)) ==> raw_features_of(
            data,
            gear,
            coeffs,
            rate,
            n,
        )[i] == u64::MAX,
    decreases data.len(),
{
    if data.len() > 0 {
        let d = data.drop_last();
        let m = data.len() - 1;
        lemma_raw_feature_is_min_hash(d, gear, coeffs, rate, n, i);
        lemma_raw_features_len(d, gear, coeffs, rate, n);
        let fs = raw_features_of(d, gear, coeffs, rate, n);
        let r = raw_features_of(data, gear, coeffs, rate, n)[i];
        assert(data.take(m + 1) =~= data);
        assert forall|k: int| 0 <= k < m implies #[trigger] sampled_at(data, gear, rate, k) == sampled_at(
            d,
            gear,
            rate,
            k,
        ) && data.take(k + 1) == d.take(k + 1) && data[k] == d[k] by {
            assert(data.take(k + 1) =~= d.take(k + 1));
        }
        let last = projection(coeffs[i], gear_fingerprint(data, gear), data.last());
        if sampled_at(data, gear, rate, m) {
            assert(r == min_u64(fs[i], last));
        } else {
            assert(r == fs[i]);
        }
        assert forall|k: int| 0 <= k < data.len() && #[trigger] sampled_at(data, gear, rate, k) implies r
            <= projection(coeffs[i], gear_fingerprint(data.take(k + 1), gear), data[k]) by {
            if k < m {
                assert(sampled_at(d, gear, rate, k));
            }
        }
        if exists|k: int| 0 <= k < data.len() && #[trigger] sampled_at(data, gear, rate, k) {
            if sampled_at(data, gear, rate, m) && r == last {
                assert(sampled_at(data, gear, rate, m));
            } else {
                let k0 = choose|k: int| 0 <= k < data.len() && #[trigger] sampled_at(data, gear, rate, k);
                if k0 == m {
                    assert(sampled_at(data, gear, rate, m));
                }
                assert(sampled_at(d, gear, rate, k0) || sampled_at(data, gear, rate, m));
                if !sampled_at(data, gear, rate, m) {
                    assert(sampled_at(d, gear, rate, k0));
                }
                let k1 = choose|k: int| 0 <= k < d.len() && #[trigger] sampled_at(d, gear, rate, k) && fs[i]
                    == projection(coeffs[i], gear_fingerprint(d.take(k + 1), gear), d[k]);
                assert(sampled_at(data, gear, rate, k1));
            }
        } else {
            assert forall|k: int| 0 <= k < d.len() implies !#[trigger] sampled_at(d, gear, rate, k) by {
                assert(!sampled_at(data, gear, rate, k));
            }
            assert(!sampled_at(data, gear, rate, m));
        }
    }
}

/// The super-feature slots of the tiers `tiers` over `n` raw features, in
/// output order: for each tier, in order, one slot `(tier, start, size)`
/// for each of the `n / size` consecutive groups of `size` raw features.
pub open spec fn sf_layout(tiers: Seq<u32>, n: nat) -> Seq<(u8, int, int)>
    decreases tiers.len(),
{
    if tiers.len() == 0 {
        Seq::empty()
    } else {
        let gs = tiers.last() as int;
        let t = (tiers.len() - 1) as u8;
        sf_layout(tiers.drop_last(), n) + Seq::new((n as int / gs) as nat, |k: int| (t, k * gs, gs))
    }
}

/// `s` is in ascending order.
pub open spec fn ascending(s: Seq<u64>) -> bool {
    forall|p: int, q: int| 0 <= p < q < s.len() ==> s[p] <= s[q]
}

/// Generates super-features using a gear-hash rolling hash with random
/// linear projections.
///
/// A rolling hash is updated for each byte through a gear table. When its
/// lowest `sampling_rate` bits are zero, every raw feature slot takes the
/// minimum of its value and a linear projection of the hash. The raw
/// features are then grouped by tier sizes, each group sorted and hashed
/// into a super-feature.
#[derive(Clone)]
pub struct PalantirHasher {
    sampling_rate: u64,
    linear_coefficients: Vec<u64>,
    tier_list: Vec<u32>,
    features_num: usize,
}

/// A random `u64` from `rand::random`, drawn from the thread-local
/// generator. Nothing is stated of the value.
#[verifier::external_body]
fn random_u64() -> (r: u64) {
    rand::random()
}

/// The bytes of `v` in the machine's byte order, from `u64::to_ne_bytes`:
/// its little-endian or its big-endian bytes. Which of the two depends on
/// the machine, and is not stated.
#[verifier::external_body]
fn u64_ne_bytes(v: u64) -> (r: [u8; 8])
    ensures
        r@ == spec_u64_to_le_bytes(v) || r@ == spec_u64_to_le_bytes(v).reverse(),
{
    v.to_ne_bytes()
}

/// `writes` holds the eight bytes of each of `values`, in order, each in
/// little-endian or big-endian order.
pub open spec fn native_bytes(values: Seq<u64>, writes: Seq<Seq<u8>>) -> bool {
    &&& writes.len() == values.len()
    &&& forall|i: int| 0 <= i < writes.len() ==> #[trigger] writes[i] == spec_u64_to_le_bytes(values[i])
        || writes[i] == spec_u64_to_le_bytes(values[i]).reverse()
}

/// `h` is what the default hasher gives after being fed the bytes of
/// `values`, in order, in the machine's byte order.
pub open spec fn default_hash_of(h: u64, values: Seq<u64>) -> bool {
    exists|writes: Seq<Seq<u8>>| #[trigger] native_bytes(values, writes) && h == DefaultHasher::spec_finish(writes)
}

/// `v` is the super-feature value of the raw features `group`: the low 32
/// bits of the default hash of the group in ascending order.
pub open spec fn group_value(v: u32, group: Seq<u64>) -> bool {
    exists|sorted: Seq<u64>, h: u64|
        {
            &&& ascending(sorted)
            &&& sorted.to_multiset() == group.to_multiset()
            &&& #[trigger] default_hash_of(h, sorted)
            &&& v == h as u32
        }
}

/// `count` random coefficients.
fn random_coefficients(count: usize) -> (r: Vec<u64>)
    ensures
        r@.len() == count,
{
    let mut coefficients: Vec<u64> = Vec::new();
    let mut i: usize = 0;
    while i < count
        invariant
            i <= count,
            coefficients@.len() == i,
        decreases count - i,
    {
        coefficients.push(random_u64());
        i += 1;
    }
    coefficients
}

/// Sorts `v` in ascending order by insertion sort.
fn sort_u64s(v: &mut Vec<u64>)
    ensures
        ascending(final(v)@),
        final(v)@.to_multiset() == old(v)@.to_multiset(),
{
    let n = v.len();
    if n == 0 {
        return;
    }
    let mut i: usize = 1;
    while i < n
        invariant
            1 <= i <= n,
            v@.len() == n,
            forall|p: int, q: int| 0 <= p < q < i ==> #[trigger] v@[p] <= #[trigger] v@[q],
            v@.to_multiset() == old(v)@.to_multiset(),
        decreases n - i,
    {
        let mut j: usize = i;
        while j > 0 && v[j] < v[j - 1]
            invariant
                0 <= j <= i < n,
                v@.len() == n,
                forall|p: int, q: int| 0 <= p < q <= i && p != j && q != j ==> #[trigger] v@[p] <= #[trigger] v@[q],
                forall|q: int| j < q <= i ==> v@[j as int] < #[trigger] v@[q],
                v@.to_multiset() == old(v)@.to_multiset(),
            decreases j,
        {
            let x = v[j];
            let y = v[j - 1];
            proof {
                lemma_swap_to_multiset(v@, j as int, j - 1);
            }
            v.set(j, y);
            v.set(j - 1, x);
            j = j - 1;
        }
        i = i + 1;
    }
}

/// The hash of the values of `group`, in order, by the default hasher: the
/// hasher is fed the eight bytes of each value, in the machine's byte order,
/// as `Hasher::write_u64` feeds them.
fn hash_group(group: &Vec<u64>) -> (r: u64)
    ensures
        default_hash_of(r, group@),
{
    let mut hasher = DefaultHasher::new();
    let n = group.len();
    let mut i: usize = 0;
    while i < n
        invariant
            n == group@.len(),
            i <= n,
            native_bytes(group@.take(i as int), hasher@),
        decreases n - i,
    {
        let bytes = u64_ne_bytes(group[i]);
        let ghost before = hasher@;
        hasher.write(&bytes);
        proof {
            assert(hasher@ == before.push(bytes@));
            assert(group@.take(i + 1) =~= group@.take(i as int).push(group@[i as int]));
            assert forall|k: int| 0 <= k < hasher@.len() implies #[trigger] hasher@[k] == spec_u64_to_le_bytes(
                group@.take(i + 1)[k],
            ) || hasher@[k] == spec_u64_to_le_bytes(group@.take(i + 1)[k]).reverse() by {
                if k < before.len() {
                    assert(hasher@[k] == before[k]);
                }
            }
        }
        i += 1;
    }
    let r = hasher.finish();
    proof {
        assert(group@.take(n as int) =~= group@);
        assert(native_bytes(group@, hasher@));
    }
    r
}

impl PalantirHasher {
    /// The number of low fingerprint bits that must be zero to sample.
    pub closed spec fn spec_sampling_rate(&self) -> u64 {
        self.sampling_rate
    }

    /// The coefficient of each raw feature slot.
    pub closed spec fn coefficients(&self) -> Seq<u64> {
        self.linear_coefficients@
    }

    /// The group size of each tier.
    pub closed spec fn tiers(&self) -> Seq<u32> {
        self.tier_list@
    }

    /// The number of raw features.
    pub closed spec fn spec_features_num(&self) -> nat {
        self.features_num as nat
    }

    /// One coefficient per raw feature slot.
    pub open spec fn wf(&self) -> bool {
        self.coefficients().len() == self.spec_features_num()
    }

    /// Creates a hasher whose number of raw features is the least common
    /// multiple of the tier sizes, with a random coefficient per feature.
    pub fn new(sampling_rate: u64, tier_list: Vec<u32>) -> (r: Self)
        requires
            sampling_rate <= 64,
            lcm_steps_defined(tier_list@),
            spec_lcm_vec(tier_list@) is Some,
        ensures
            r.wf(),
            r.spec_sampling_rate() == sampling_rate,
            r.tiers() == tier_list@,
            r.spec_features_num() == spec_lcm_vec(tier_list@)->0 as nat,
    {
        let features_num = match lcm_vec(tier_list.as_slice()) {
            Some(l) => l as usize,
            None => 0,
        };
        let linear_coefficients = random_coefficients(features_num);
        PalantirHasher { sampling_rate, linear_coefficients, tier_list, features_num }
    }

    /// Creates a hasher with `features_num` raw features.
    pub fn with_features_num(sampling_rate: u64, tier_list: Vec<u32>, features_num: usize) -> (r: Self)
        ensures
            r.wf(),
            r.spec_sampling_rate() == sampling_rate,
            r.tiers() == tier_list@,
            r.spec_features_num() == features_num,
    {
        let linear_coefficients = random_coefficients(features_num);
        PalantirHasher { sampling_rate, linear_coefficients, tier_list, features_num }
    }

    /// The raw features of `data` with the gear table `gear`.
    pub fn raw_features(&self, data: &[u8], gear: &[u64; 256]) -> (r: Vec<u64>)
        requires
            self.wf(),
            self.spec_sampling_rate() < 64,
        ensures
            r@ == raw_features_of(
                data@,
                gear@,
                self.coefficients(),
                self.spec_sampling_rate(),
                self.spec_features_num(),
            ),
            r@.len() == self.spec_features_num(),
            forall|i: int| 0 <= i < self.spec_features_num() ==> {
                &&& forall|k: int|
                    0 <= k < data@.len() && #[trigger] sampled_at(data@, gear@, self.spec_sampling_rate(), k)
                        ==> r@[i] <= projection(self.coefficients()[i], gear_fingerprint(data@.take(k + 1), gear@), data@[k])
                &&& (exists|k: int| 0 <= k < data@.len() && #[trigger] sampled_at(data@, gear@, self.spec_sampling_rate(), k))
                    ==> exists|k: int|
                    0 <= k < data@.len() && #[trigger] sampled_at(data@, gear@, self.spec_sampling_rate(), k) && r@[i]
                        == projection(self.coefficients()[i], gear_fingerprint(data@.take(k + 1), gear@), data@[k])
                &&& !(exists|k: int| 0 <= k < data@.len() && #[trigger] sampled_at(data@, gear@, self.spec_sampling_rate(), k))
                    ==> #[trigger] r@[i] == u64::MAX
            },
    {
        let n = self.features_num;
        let rate = self.sampling_rate;
        let mut features: Vec<u64> = Vec::new();
        let mut i: usize = 0;
        while i < n
            invariant
                i <= n,
                features@ == Seq::new(i as nat, |k: int| u64::MAX),
            decreases n - i,
        {
            features.push(u64::MAX);
            proof {
                assert(features@ =~= Seq::new((i + 1) as nat, |k: int| u64::MAX));
            }
            i += 1;
        }
        proof {
            assert(1u64 << rate >= 1) by (bit_vector)
                requires
                    rate < 64,
            ;
        }
        let mask: u64 = (1u64 << rate) - 1;
        let mut fp: u64 = 0;
        let len = data.len();
        let mut k: usize = 0;
        proof {
            assert(data@.take(0) =~= Seq::<u8>::empty());
        }
        while k < len
            invariant
                self.wf(),
                n == self.features_num,
                rate == self.sampling_rate,
                rate < 64,
                mask == sample_mask(rate),
                len == data@.len(),
                k <= len,
                fp == gear_fingerprint(data@.take(k as int), gear@),
                features@ == raw_features_of(data@.take(k as int), gear@, self.coefficients(), rate, n as nat),
            decreases len - k,
        {
            let byte = data[k];
            proof {
                lemma_raw_features_len(data@.take(k as int), gear@, self.coefficients(), rate, n as nat);
            }
            let g = gear[byte as usize];
            fp = (fp << 1).wrapping_add(g);
            proof {
                assert(data@.take(k + 1).drop_last() =~= data@.take(k as int));
                assert(data@.take(k + 1).last() == byte);
            }
            if fp & mask == 0 {
                let ghost before = features@;
                let mut i: usize = 0;
                while i < n
                    invariant
                        self.wf(),
                        n == self.features_num,
                        features@.len() == n,
                        i <= n,
                        forall|j: int| 0 <= j < i ==> features@[j] == min_u64(
                            before[j],
                            projection(self.coefficients()[j], fp, byte),
                        ),
                        forall|j: int| i <= j < n ==> features@[j] == before[j],
                    decreases n - i,
                {
                    let transform = self.linear_coefficients[i].wrapping_mul(fp).wrapping_add(byte as u64)
                        % 0x1_0000_0000u64;
                    if features[i] > transform {
                        features.set(i, transform);
                    }
                    i += 1;
                }
                proof {
                    assert(features@ =~= Seq::new(
                        n as nat,
                        |j: int| min_u64(before[j], projection(self.coefficients()[j], fp, byte)),
                    ));
                }
            }
            k += 1;
        }
        proof {
            assert(data@.take(len as int) =~= data@);
            lemma_raw_features_len(data@, gear@, self.coefficients(), rate, n as nat);
            assert forall|i: int| 0 <= i < n implies {
                &&& forall|k: int|
                    0 <= k < data@.len() && #[trigger] sampled_at(data@, gear@, rate, k)
                        ==> features@[i] <= projection(self.coefficients()[i], gear_fingerprint(data@.take(k + 1), gear@), data@[k])
                &&& (exists|k: int| 0 <= k < data@.len() && #[trigger] sampled_at(data@, gear@, rate, k))
                    ==> exists|k: int|
                    0 <= k < data@.len() && #[trigger] sampled_at(data@, gear@, rate, k) && features@[i]
                        == projection(self.coefficients()[i], gear_fingerprint(data@.take(k + 1), gear@), data@[k])
                &&& !(exists|k: int| 0 <= k < data@.len() && #[trigger] sampled_at(data@, gear@, rate, k))
                    ==> #[trigger] features@[i] == u64::MAX
            } by {
                lemma_raw_feature_is_min_hash(data@, gear@, self.coefficients(), rate, n as nat, i);
            }
        }
        features
    }

    /// Generates the super-features of `chunk` with the gear table `gear`:
    /// the raw features grouped by the slots of [`sf_layout`], each group
    /// sorted and hashed by the standard library's default hasher, whose
    /// 32 low bits give the super-feature's value.
    pub fn generate(&self, chunk: &Chunk, gear: &[u64; 256]) -> (r: Vec<SuperFeature>)
        requires
            self.wf(),
            self.spec_sampling_rate() < 64,
            forall|t: int| 0 <= t < self.tiers().len() ==> #[trigger] self.tiers()[t] > 0,
        ensures
            r@.len() == sf_layout(self.tiers(), self.spec_features_num()).len(),
            forall|k: int| 0 <= k < r@.len() ==> (#[trigger] r@[k]).spec_tier_id() == sf_layout(
                self.tiers(),
                self.spec_features_num(),
            )[k].0,
            forall|k: int| 0 <= k < r@.len() ==> {
                let slot = sf_layout(self.tiers(), self.spec_features_num())[k];
                group_value(
                    (#[trigger] r@[k]).spec_value(),
                    raw_features_of(
                        chunk.bytes(),
                        gear@,
                        self.coefficients(),
                        self.spec_sampling_rate(),
                        self.spec_features_num(),
                    ).subrange(slot.1, slot.1 + slot.2),
                )
            },
    {
        let features = self.raw_features(chunk.as_bytes(), gear);
        let n = self.features_num;
        proof {
            lemma_raw_features_len(chunk.bytes(), gear@, self.coefficients(), self.sampling_rate, n as nat);
        }
        let tiers = self.tier_list.len();
        let mut super_features: Vec<SuperFeature> = Vec::new();
        let mut t: usize = 0;
        proof {
            assert(self.tiers().take(0) =~= Seq::<u32>::empty());
        }
        while t < tiers
            invariant
                self.wf(),
                n == self.features_num,
                tiers == self.tiers().len(),
                features@.len() == n,
                t <= tiers,
                forall|u: int| 0 <= u < self.tiers().len() ==> #[trigger] self.tiers()[u] > 0,
                super_features@.len() == sf_layout(self.tiers().take(t as int), n as nat).len(),
                forall|k: int| 0 <= k < super_features@.len() ==> (#[trigger] super_features@[k]).spec_tier_id()
                    == sf_layout(self.tiers().take(t as int), n as nat)[k].0,
                forall|k: int| 0 <= k < super_features@.len() ==> {
                    let slot = sf_layout(self.tiers().take(t as int), n as nat)[k];
                    group_value((#[trigger] super_features@[k]).spec_value(), features@.subrange(slot.1, slot.1 + slot.2))
                },
            decreases tiers - t,
        {
            let gs = self.tier_list[t] as usize;
            let num_sf = n / gs;
            let ghost prefix = sf_layout(self.tiers().take(t as int), n as nat);
            let ghost slots = Seq::new((n as int / gs as int) as nat, |k: int| (t as u8, k * gs as int, gs as int));
            proof {
                assert(self.tiers().take(t + 1).drop_last() =~= self.tiers().take(t as int));
                assert(self.tiers().take(t + 1).last() == self.tier_list@[t as int]);
                assert(sf_layout(self.tiers().take(t + 1), n as nat) == prefix + slots);
            }
            let mut s: usize = 0;
            while s < num_sf
                invariant
                    features@.len() == n,
                    gs > 0,
                    num_sf == n / gs,
                    s <= num_sf,
                    super_features@.len() == prefix.len() + s,
                    slots.len() == num_sf,
                    forall|k: int| 0 <= k < slots.len() ==> (#[trigger] slots[k]) == (t as u8, k * gs, gs as int),
                    forall|k: int| 0 <= k < super_features@.len() ==> (#[trigger] super_features@[k]).spec_tier_id()
                        == (prefix + slots)[k].0,
                    forall|k: int| 0 <= k < super_features@.len() ==> {
                        let slot = (prefix + slots)[k];
                        group_value((#[trigger] super_features@[k]).spec_value(), features@.subrange(slot.1, slot.1 + slot.2))
                    },
                decreases num_sf - s,
            {
                proof {
                    assert((s + 1) * gs <= num_sf * gs) by (nonlinear_arith)
                        requires
                            s < num_sf,
                    ;
                    assert(num_sf * gs <= n) by (nonlinear_arith)
                        requires
                            num_sf == n / gs,
                            gs > 0,
                    ;
                    assert(s * gs + gs == (s + 1) * gs) by (nonlinear_arith);
                }
                let start = s * gs;
                let mut group: Vec<u64> = Vec::new();
                let mut m: usize = 0;
                while m < gs
                    invariant
                        features@.len() == n,
                        start + gs <= n,
                        m <= gs,
                        group@ == features@.subrange(start as int, start + m),
                    decreases gs - m,
                {
                    group.push(features[start + m]);
                    m += 1;
                    proof {
                        assert(group@ =~= features@.subrange(start as int, start + m));
                    }
                }
                let ghost raw_group = group@;
                sort_u64s(&mut group);
                let hash = hash_group(&group);
                let ghost before = super_features@;
                super_features.push(SuperFeature::new(t as u8, hash as u32));
                proof {
                    assert(group_value(hash as u32, raw_group));
                    assert forall|k: int| 0 <= k < super_features@.len() implies (#[trigger] super_features@[k]).spec_tier_id()
                        == (prefix + slots)[k].0 && group_value(
                        super_features@[k].spec_value(),
                        features@.subrange((prefix + slots)[k].1, (prefix + slots)[k].1 + (prefix + slots)[k].2),
                    ) by {
                        if k == before.len() {
                            assert((prefix + slots)[k] == slots[s as int]);
                        } else {
                            assert(super_features@[k] == before[k]);
                        }
                    }
                }
                s += 1;
            }
            t += 1;
        }
        proof {
            assert(self.tiers().take(tiers as int) =~= self.tiers());
        }
        super_features
    }
}

} // verus!
