//! Extended Euclid: `gcd(a, b)` with an inverse of `a / g` modulo `b / g`.
use vstd::prelude::*;
use vstd::arithmetic::div_mod::{
    lemma_fundamental_div_mod, lemma_mod_bound, lemma_small_mod, lemma_fundamental_div_mod_converse,
    lemma_mod_multiples_vanish, lemma_mod_multiples_basic, lemma_mul_mod_noop_left,
};
use crate::number::{gcd_spec, divides, lemma_gcd_divisors};

verus! {

/// `|x|`.
pub open spec fn abs(x: int) -> int {
    if x < 0 { -x } else { x }
}

/// The state of the extended Euclid loop: `s`, `t` remainders with
/// coefficients `m0`, `m1` of `a` modulo `b`.
pub open spec fn euclid_inv(a: int, b: int, s: int, t: int, m0: int, m1: int) -> bool {
    &&& (s - m0 * a) % b == 0
    &&& (t - m1 * a) % b == 0
    &&& (m1 * s - m0 * t == b || m1 * s - m0 * t == -b)
    &&& m0 * m1 <= 0
    &&& 0 <= t < s
    &&& abs(m0) * s <= b
    &&& m0 != 0 ==> abs(m0) * s < b
}

proof fn lemma_abs_sum(s: int, t: int, m0: int, m1: int, b: int)
    requires
        m1 * s - m0 * t == b || m1 * s - m0 * t == -b,
        m0 * m1 <= 0,
        s > 0,
        t >= 0,
    ensures
        abs(m1) * s + abs(m0) * t == b || abs(m1) * s + abs(m0) * t == -b,
{
    if m1 >= 0 && m0 <= 0 {
        assert(abs(m1) * s + abs(m0) * t == m1 * s - m0 * t) by (nonlinear_arith)
            requires m1 >= 0, m0 <= 0;
    } else if m1 <= 0 && m0 >= 0 {
        assert(abs(m1) * s + abs(m0) * t == -(m1 * s - m0 * t)) by (nonlinear_arith)
            requires m1 <= 0, m0 >= 0;
    } else {
        assert(m0 * m1 > 0) by (nonlinear_arith)
            requires (m1 > 0 && m0 > 0) || (m1 < 0 && m0 < 0);
    }
}

/// One step of the loop keeps the invariant.
pub(crate) proof fn lemma_euclid_step(a: int, b: int, s: int, t: int, m0: int, m1: int)
    requires
        b >= 1,
        euclid_inv(a, b, s, t, m0, m1),
        t > 0,
    ensures
        ({
            let u = s / t;
            euclid_inv(a, b, t, s - t * u, m1, m0 - m1 * u)
        }),
        abs(m1) <= b,
        abs(m0 - m1 * (s / t)) <= b,
{
    let u = s / t;
    let r = s - t * u;
    lemma_fundamental_div_mod(s, t);
    lemma_mod_bound(s, t);
    assert(r == s % t);
    lemma_abs_sum(s, t, m0, m1, b);
    let n1 = m0 - m1 * u;
    // congruence of the new remainder
    assert((r - n1 * a) == (s - m0 * a) - u * (t - m1 * a)) by (nonlinear_arith)
        requires r == s - t * u, n1 == m0 - m1 * u;
    assert(((s - m0 * a) - u * (t - m1 * a)) % b == 0) by {
        let p = s - m0 * a;
        let q = t - m1 * a;
        lemma_fundamental_div_mod(p, b);
        lemma_fundamental_div_mod(q, b);
        let kp = p / b;
        let kq = q / b;
        assert(p - u * q == b * (kp - u * kq)) by (nonlinear_arith)
            requires p == b * kp + 0, q == b * kq + 0;
        lemma_mod_multiples_basic(kp - u * kq, b);
        vstd::arithmetic::mul::lemma_mul_is_commutative(b, kp - u * kq);
    }
    // the determinant flips sign
    assert(n1 * t - m1 * r == -(m1 * s - m0 * t)) by (nonlinear_arith)
        requires r == s - t * u, n1 == m0 - m1 * u;
    // signs alternate: n1 has the sign of m0 (or is zero)
    assert(m1 * n1 <= 0) by (nonlinear_arith)
        requires n1 == m0 - m1 * u, m0 * m1 <= 0, u >= 0;
    // bounds
    assert(abs(m1) * s + abs(m0) * t == b) by (nonlinear_arith)
        requires abs(m1) * s + abs(m0) * t == b || abs(m1) * s + abs(m0) * t == -b,
            abs(m1) >= 0, abs(m0) >= 0, t >= 0, s > 0, b >= 1;
    assert(abs(m1) * s <= b) by (nonlinear_arith)
        requires abs(m1) * s + abs(m0) * t == b, abs(m0) >= 0, t >= 0;
    assert(u * t <= s) by (nonlinear_arith)
        requires s == t * u + s % t, s % t >= 0;
    assert(abs(m1) * t <= abs(m1) * s) by (nonlinear_arith)
        requires t < s, abs(m1) >= 0;
    assert(m1 != 0 ==> abs(m1) * t < b) by (nonlinear_arith)
        requires t < s, abs(m1) * s <= b, t > 0, m1 != 0 ==> abs(m1) > 0;
    assert(abs(m1) <= b) by (nonlinear_arith)
        requires abs(m1) * s <= b, s >= 1, abs(m1) >= 0;
    assert(abs(n1) == abs(m0) + abs(m1) * u) by (nonlinear_arith)
        requires n1 == m0 - m1 * u, m0 * m1 <= 0, u >= 0;
    assert(abs(n1) * t <= b) by (nonlinear_arith)
        requires abs(n1) == abs(m0) + abs(m1) * u, u * t <= s, abs(m1) * s + abs(m0) * t == b,
            abs(m1) >= 0, abs(m0) >= 0, t > 0, u >= 0;
    assert(abs(n1) <= b) by (nonlinear_arith)
        requires abs(n1) * t <= b, t >= 1, abs(n1) >= 0;
}

/// `(g, x)`: `g = gcd(a, b)` and `x` in `0 .. b / g` with `a * x = g`
/// modulo `b`.
pub fn inv_gcd(a: i64, b: i64) -> (r: (i64, i64))
    requires
        a >= 0,
        b >= 1,
    ensures
        r.0 as int == gcd_spec(a as nat, b as nat),
        0 <= r.1 < (b as int) / (r.0 as int),
        (a * r.1) % (b as int) == (r.0 as int) % (b as int),
{
    let a0 = a % b;
    proof {
        lemma_mod_bound(a as int, b as int);
        assert(gcd_spec(a as nat, b as nat) == gcd_spec(b as nat, (a % b) as nat));
    }
    if a0 == 0 {
        proof {
            assert(gcd_spec(b as nat, 0) == b);
            lemma_small_mod(0, b as nat);
            lemma_fundamental_div_mod(b as int, b as int);
        }
        return (b, 0);
    }
    let mut s: i128 = b as i128;
    let mut t: i128 = a0 as i128;
    let mut m0: i128 = 0;
    let mut m1: i128 = 1;
    proof {
        assert((s - m0 * a) % (b as int) == 0) by {
            lemma_mod_multiples_basic(1, b as int);
        }
        assert((t - m1 * a) % (b as int) == 0) by {
            lemma_fundamental_div_mod(a as int, b as int);
            let q = (a as int) / (b as int);
            assert(t - m1 * a == (-q) * b) by (nonlinear_arith)
                requires t == (a as int) % (b as int), a == b * q + (a as int) % (b as int), m1 == 1;
            lemma_mod_multiples_basic(-q, b as int);
        }
    }
    proof {
        assert(abs(m0 as int) == 0);
        assert(abs(m0 as int) * s == 0) by (nonlinear_arith)
            requires abs(m0 as int) == 0;
        assert(m1 * s - m0 * t == b);
        assert(m0 * m1 == 0);
        assert(0 <= t < s);
        assert(euclid_inv(a as int, b as int, s as int, t as int, m0 as int, m1 as int));
    }
    while t != 0
        invariant
            b >= 1,
            a >= 0,
            euclid_inv(a as int, b as int, s as int, t as int, m0 as int, m1 as int),
            gcd_spec(s as nat, t as nat) == gcd_spec(a as nat, b as nat),
            s <= b,
        decreases t,
    {
        proof {
            lemma_euclid_step(a as int, b as int, s as int, t as int, m0 as int, m1 as int);
            lemma_mod_bound(s as int, t as int);
            lemma_fundamental_div_mod(s as int, t as int);
            assert((s / t) * t <= s) by (nonlinear_arith)
                requires t > 0, s >= 0, s == t * (s / t) + s % t, s % t >= 0;
            assert(abs(m1 as int) * (s / t) <= abs(m1 as int) * s) by (nonlinear_arith)
                requires s / t <= s, abs(m1 as int) >= 0;
            assert(s / t <= s) by (nonlinear_arith)
                requires t >= 1, s >= 0;
            let mi = m1 as int;
            let ui = (s / t) as int;
            assert(-0x4000_0000_0000_0000_0000_0000_0000_0000 < mi * ui < 0x4000_0000_0000_0000_0000_0000_0000_0000) by (nonlinear_arith)
                requires abs(mi) <= b, 0 <= ui <= b, b <= 0x8000_0000_0000_0000;
        }
        let u = s / t;
        let ns = t;
        let nt = s - t * u;
        let nm0 = m1;
        let nm1 = m0 - m1 * u;
        proof {
            assert(gcd_spec(s as nat, t as nat) == gcd_spec(t as nat, (s % t) as nat));
        }
        s = ns;
        t = nt;
        m0 = nm0;
        m1 = nm1;
    }
    proof {
        assert(gcd_spec(s as nat, 0) == s);
    }
    let g = s;
    let bg = b as i128 / g;
    let mut x = m0;
    if x < 0 {
        x = x + bg;
    }
    proof {
        let gi = g as int;
        let ai = a as int;
        let bi = b as int;
        lemma_gcd_divisors(a as nat, b as nat, g as nat);
        assert(divides(g as nat, a as nat) && divides(g as nat, b as nat));
        lemma_fundamental_div_mod(bi, gi);
        lemma_fundamental_div_mod(ai, gi);
        assert(bi == gi * (bi / gi));
        assert(gi >= 1);
        assert(bi / gi >= 1) by (nonlinear_arith)
            requires bi == gi * (bi / gi), bi >= 1, gi >= 1;
        assert(bg as int == bi / gi);
        // |m0| * g <= b, strictly when m0 != 0
        assert(abs(m0 as int) <= bi / gi) by (nonlinear_arith)
            requires abs(m0 as int) * gi <= bi, bi == gi * (bi / gi), gi > 0, abs(m0 as int) >= 0;
        assert(m0 > 0 ==> m0 < bi / gi) by (nonlinear_arith)
            requires m0 != 0 ==> abs(m0 as int) * gi < bi, bi == gi * (bi / gi), gi > 0, m0 > 0 ==> abs(m0 as int) == m0;
        // a * x = a * m0 + (m0 < 0 ? (a / g) * b : 0), and a * m0 = g (mod b)
        let k = (gi - (m0 as int) * ai) / bi;
        lemma_fundamental_div_mod(gi - (m0 as int) * ai, bi);
        if m0 < 0 {
            assert(ai * (x as int) == (gi + bi * ((ai / gi) - k))) by (nonlinear_arith)
                requires x == m0 + bi / gi, ai == gi * (ai / gi), bi == gi * (bi / gi),
                    gi - (m0 as int) * ai == bi * k + 0;
            lemma_mod_multiples_vanish((ai / gi) - k, gi, bi);
        } else {
            assert(ai * (x as int) == gi + bi * (-k)) by (nonlinear_arith)
                requires x == m0, gi - (m0 as int) * ai == bi * k + 0;
            lemma_mod_multiples_vanish(-k, gi, bi);
        }
        vstd::arithmetic::mul::lemma_mul_is_commutative(bi, (ai / gi) - k);
        vstd::arithmetic::mul::lemma_mul_is_commutative(bi, -k);
        assert(0 <= x < bi / gi);
    }
    (g as i64, x as i64)
}

/// An inverse of `a` modulo `m`: `inv_gcd(a, m).1`.
pub fn inv_mod(a: i64, m: i64) -> (x: i64)
    requires
        a >= 0,
        m >= 1,
    ensures
        0 <= x < (m as int) / (gcd_spec(a as nat, m as nat) as int),
        (a * x) % (m as int) == (gcd_spec(a as nat, m as nat) as int) % (m as int),
{
    inv_gcd(a, m).1
}

} // verus!
