//! Least common multiples of tier sizes.

use vstd::prelude::*;

verus! {

/// `d` divides `x`.
pub open spec fn divides(d: nat, x: nat) -> bool {
    exists|k: nat| #[trigger] (d * k) == x
}

/// The greatest common divisor, by Euclid's recursion; `gcd(0, 0) == 0`.
pub open spec fn spec_gcd(a: nat, b: nat) -> nat
    decreases b,
{
    if b == 0 {
        a
    } else {
        spec_gcd(b, a % b)
    }
}

/// The greatest common divisor of `a` and `b`: `num::integer::gcd`, which
/// returns the mathematical gcd of unsigned integers, and `0` for `(0, 0)`.
#[verifier::external_body]
fn gcd(a: u32, b: u32) -> (r: u32)
    ensures
        r == spec_gcd(a as nat, b as nat),
{
    num::integer::gcd(a, b)
}

/// The gcd divides both arguments, and is zero only for `(0, 0)`.
pub proof fn lemma_gcd_divides(a: nat, b: nat)
    ensures
        divides(spec_gcd(a, b), a),
        divides(spec_gcd(a, b), b),
        spec_gcd(a, b) == 0 <==> (a == 0 && b == 0),
        spec_gcd(a, b) <= if a > b { a } else { b },
    decreases b,
{
    if b == 0 {
        assert(a * 1 == a);
        assert(a * 0 == 0);
    } else {
        let r = a % b;
        let q = a / b;
        lemma_gcd_divides(b, r);
        let g = spec_gcd(b, r);
        let kb = choose|k: nat| #[trigger] (g * k) == b;
        let kr = choose|k: nat| #[trigger] (g * k) == r;
        assert(a == b * q + r) by {
            vstd::arithmetic::div_mod::lemma_fundamental_div_mod(a as int, b as int);
        }
        assert(g * (kb * q + kr) == a) by (nonlinear_arith)
            requires
                g * kb == b,
                g * kr == r,
                a == b * q + r,
        ;
        assert(r < b);
    }
}

/// `a / g * b` when it fits in `u32`.
pub open spec fn spec_lcm_checked(a: u32, b: u32) -> Option<u32> {
    let l = (a as nat / spec_gcd(a as nat, b as nat)) * b;
    if l <= u32::MAX {
        Some(l as u32)
    } else {
        None
    }
}

/// The least common multiple of `a` and `b`, or `None` when it overflows
/// `u32`. Not both arguments may be zero.
pub fn lcm_checked(a: u32, b: u32) -> (r: Option<u32>)
    requires
        !(a == 0 && b == 0),
    ensures
        r == spec_lcm_checked(a, b),
        r matches Some(l) ==> divides(a as nat, l as nat) && divides(b as nat, l as nat),
{
    let gcd_val = gcd(a, b);
    proof {
        lemma_gcd_divides(a as nat, b as nat);
    }
    let q = a / gcd_val;
    let r = q.checked_mul(b);
    proof {
        if r is Some {
            let g = gcd_val as nat;
            let ka = choose|k: nat| #[trigger] (g * k) == a as nat;
            let kb = choose|k: nat| #[trigger] (g * k) == b as nat;
            assert(q == ka) by (nonlinear_arith)
                requires
                    g * ka == a,
                    g > 0,
                    q == (a as nat) / g,
            ;
            let l = r.unwrap() as nat;
            assert(l == q * b);
            assert((a as nat) * kb == l) by (nonlinear_arith)
                requires
                    g * ka == a,
                    g * kb == b,
                    q == ka,
                    l == q * b,
            ;
            assert((b as nat) * (q as nat) == l) by (nonlinear_arith)
                requires
                    l == q * b,
            ;
            assert(divides(a as nat, l));
            assert(divides(b as nat, l));
        }
    }
    r
}

/// The running least common multiple of `s`, starting from 1; `None` once
/// a step overflows.
pub open spec fn spec_lcm_vec(s: Seq<u32>) -> Option<u32>
    decreases s.len(),
{
    if s.len() == 0 {
        Some(1)
    } else {
        match spec_lcm_vec(s.drop_last()) {
            None => None,
            Some(r) => spec_lcm_checked(r, s.last()),
        }
    }
}

/// No step of the running LCM of `s` takes the LCM of two zeros.
pub open spec fn lcm_steps_defined(s: Seq<u32>) -> bool
    decreases s.len(),
{
    if s.len() == 0 {
        true
    } else {
        lcm_steps_defined(s.drop_last()) && match spec_lcm_vec(s.drop_last()) {
            None => true,
            Some(r) => !(r == 0 && s.last() == 0),
        }
    }
}

/// Divisibility is transitive.
pub proof fn lemma_divides_trans(a: nat, b: nat, c: nat)
    requires
        divides(a, b),
        divides(b, c),
    ensures
        divides(a, c),
{
    let k1 = choose|k: nat| #[trigger] (a * k) == b;
    let k2 = choose|k: nat| #[trigger] (b * k) == c;
    assert(a * (k1 * k2) == c) by (nonlinear_arith)
        requires
            a * k1 == b,
            b * k2 == c,
    ;
}

/// The least common multiple of all of `nums`, or `None` when a step of the
/// running computation overflows `u32`.
pub fn lcm_vec(nums: &[u32]) -> (r: Option<u32>)
    requires
        lcm_steps_defined(nums@),
    ensures
        r == spec_lcm_vec(nums@),
        r matches Some(l) ==> forall|i: int| 0 <= i < nums@.len() ==> divides(#[trigger] nums@[i] as nat, l as nat),
{
    let mut res: u32 = 1;
    let n = nums.len();
    let mut i: usize = 0;
    proof {
        assert(nums@.take(0) =~= Seq::<u32>::empty());
        assert(1nat * 1 == 1);
    }
    while i < n
        invariant
            n == nums@.len(),
            i <= n,
            lcm_steps_defined(nums@),
            spec_lcm_vec(nums@.take(i as int)) == Some(res),
            forall|j: int| 0 <= j < i ==> divides(#[trigger] nums@[j] as nat, res as nat),
        decreases n - i,
    {
        proof {
            let t1 = nums@.take(i + 1);
            assert(t1.drop_last() =~= nums@.take(i as int));
            assert forall|m: int| i < m <= n implies lcm_steps_defined(#[trigger] nums@.take(m)) by {
                lemma_steps_prefix(nums@, m);
            }
            assert(lcm_steps_defined(t1));
        }
        match lcm_checked(res, nums[i]) {
            Some(l) => {
                proof {
                    assert forall|j: int| 0 <= j < i + 1 implies divides(#[trigger] nums@[j] as nat, l as nat) by {
                        if j < i {
                            lemma_divides_trans(nums@[j] as nat, res as nat, l as nat);
                        }
                    }
                }
                res = l;
            },
            None => {
                proof {
                    lemma_lcm_vec_none_extends(nums@, i + 1);
                }
                return None;
            },
        }
        i += 1;
    }
    proof {
        assert(nums@.take(n as int) =~= nums@);
    }
    Some(res)
}

/// The gcd is an integer combination of its arguments (Bezout).
proof fn lemma_bezout(a: nat, b: nat) -> (st: (int, int))
    ensures
        st.0 * a + st.1 * b == spec_gcd(a, b),
    decreases b,
{
    if b == 0 {
        (1, 0)
    } else {
        let r = a % b;
        let q = a / b;
        let (s, t) = lemma_bezout(b, r);
        assert(a == b * q + r) by {
            vstd::arithmetic::div_mod::lemma_fundamental_div_mod(a as int, b as int);
        }
        assert(t * a + (s - t * q) * b == s * b + t * r) by (nonlinear_arith)
            requires
                a == b * q + r,
        ;
        (t, s - t * q)
    }
}

/// The LCM of two values, not both zero, divides each of their common
/// multiples.
pub proof fn lemma_lcm_least(a: u32, b: u32, m: nat)
    requires
        !(a == 0 && b == 0),
        divides(a as nat, m),
        divides(b as nat, m),
        spec_lcm_checked(a, b) is Some,
    ensures
        divides(spec_lcm_checked(a, b)->Some_0 as nat, m),
{
    let an = a as nat;
    let bn = b as nat;
    let g = spec_gcd(an, bn);
    lemma_gcd_divides(an, bn);
    let (s, t) = lemma_bezout(an, bn);
    let x = choose|k: nat| #[trigger] (an * k) == m;
    let y = choose|k: nat| #[trigger] (bn * k) == m;
    let ka = choose|k: nat| #[trigger] (g * k) == an;
    let l = spec_lcm_checked(a, b)->Some_0 as nat;
    assert(an / g == ka) by (nonlinear_arith)
        requires
            g * ka == an,
            g > 0,
    ;
    assert(l == ka * bn);
    let k: int = s * y + t * x;
    let pr: int = (an * bn) as int;
    assert(m * g == s * (an * m) + t * (bn * m)) by (nonlinear_arith)
        requires
            s * an + t * bn == g,
    ;
    assert(an * m == pr * y) by (nonlinear_arith)
        requires
            bn * y == m,
            pr == an * bn,
    ;
    assert(bn * m == pr * x) by (nonlinear_arith)
        requires
            an * x == m,
            pr == an * bn,
    ;
    assert(s * (pr * y) + t * (pr * x) == pr * k) by (nonlinear_arith)
        requires
            k == s * y + t * x,
    ;
    assert(pr == g * l) by (nonlinear_arith)
        requires
            g * ka == an,
            l == ka * bn,
            pr == an * bn,
    ;
    assert(m * g == g * l * k) by (nonlinear_arith)
        requires
            m * g == pr * k,
            pr == g * l,
    ;
    assert(m == l * k) by (nonlinear_arith)
        requires
            m * g == g * l * k,
            g > 0,
    ;
    if l == 0 {
        assert(m == 0) by (nonlinear_arith)
            requires
                m == l * k,
                l == 0,
        ;
        assert(l * 0 == m);
    } else {
        assert(k >= 0) by (nonlinear_arith)
            requires
                m == l * k,
                l > 0,
                m >= 0,
        ;
        assert(l * (k as nat) == m);
    }
}

/// The running LCM of `s`, where it is defined, divides every common
/// multiple of the values of `s`: with [`lcm_vec`]'s guarantee that it is
/// one of them, it is their least common multiple.
pub proof fn lemma_lcm_vec_least(s: Seq<u32>, m: nat)
    requires
        lcm_steps_defined(s),
        spec_lcm_vec(s) is Some,
        forall|i: int| 0 <= i < s.len() ==> divides(#[trigger] s[i] as nat, m),
    ensures
        divides(spec_lcm_vec(s)->Some_0 as nat, m),
    decreases s.len(),
{
    if s.len() == 0 {
        assert(1nat * m == m);
    } else {
        let p = s.drop_last();
        assert forall|i: int| 0 <= i < p.len() implies divides(#[trigger] p[i] as nat, m) by {
            assert(p[i] == s[i]);
        }
        lemma_lcm_vec_least(p, m);
        let r = spec_lcm_vec(p)->Some_0;
        assert(divides(s.last() as nat, m));
        lemma_lcm_least(r, s.last(), m);
    }
}

/// Every prefix of a sequence whose steps are defined has defined steps.
proof fn lemma_steps_prefix(s: Seq<u32>, m: int)
    requires
        0 <= m <= s.len(),
        lcm_steps_defined(s),
    ensures
        lcm_steps_defined(s.take(m)),
    decreases s.len(),
{
    if m < s.len() {
        assert(s.drop_last().take(m) =~= s.take(m));
        lemma_steps_prefix(s.drop_last(), m);
    } else {
        assert(s.take(m) =~= s);
    }
}

/// Once the running LCM overflows it stays `None`.
proof fn lemma_lcm_vec_none_extends(s: Seq<u32>, m: int)
    requires
        0 <= m <= s.len(),
        spec_lcm_vec(s.take(m)) is None,
    ensures
        spec_lcm_vec(s) is None,
    decreases s.len() - m,
{
    if m < s.len() {
        assert(s.take(m + 1).drop_last() =~= s.take(m));
        lemma_lcm_vec_none_extends(s, m + 1);
    } else {
        assert(s.take(m) =~= s);
    }
}

} // verus!
