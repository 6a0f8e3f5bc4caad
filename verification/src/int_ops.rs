//! Decimal digits, rounded-up division, and modular powers with a signed
//! exponent.
use vstd::prelude::*;
use crate::number::{power, gcd_spec};
use crate::static_modint::{inverse_of, lemma_inverse_unique};

verus! {

/// The number the decimal digits `s` spell, most significant first.
pub open spec fn digits_value(s: Seq<i64>) -> int
    decreases s.len(),
{
    if s.len() == 0 {
        0
    } else {
        digits_value(s.drop_last()) * 10 + s.last()
    }
}

/// The number spelled by `s` reversed (least significant first).
spec fn reversed_value(s: Seq<i64>) -> int
    decreases s.len(),
{
    if s.len() == 0 {
        0
    } else {
        s[0] + 10 * reversed_value(s.drop_first())
    }
}

proof fn lemma_reversed_value_push(s: Seq<i64>, d: i64)
    ensures
        reversed_value(s.push(d)) == reversed_value(s) + d * pow10(s.len()),
    decreases s.len(),
{
    if s.len() == 0 {
        assert(s.push(d).drop_first() =~= Seq::<i64>::empty());
        assert(pow10(0) == 1);
        assert(s.push(d)[0] == d);
        assert(reversed_value(s.push(d).drop_first()) == 0);
        assert(reversed_value(s.push(d)) == d);
        assert(reversed_value(s) == 0);
        assert(d * pow10(s.len()) == d);
    } else {
        assert(s.push(d)[0] == s[0]);
        assert(s.push(d).drop_first() =~= s.drop_first().push(d));
        lemma_reversed_value_push(s.drop_first(), d);
        let p = pow10((s.len() - 1) as nat);
        let a = reversed_value(s.drop_first());
        assert(pow10(s.len()) == 10 * p);
        assert(reversed_value(s.push(d)) == s[0] + 10 * (a + d * p));
        assert(reversed_value(s) == s[0] + 10 * a);
        assert(10 * (a + d * p) == 10 * a + d * (10 * p)) by (nonlinear_arith);
    }
}

/// `10^k`.
pub open spec fn pow10(k: nat) -> int
    decreases k,
{
    if k == 0 { 1 } else { 10 * pow10((k - 1) as nat) }
}

/// The value of `s` read from its end equals the value of its reverse read
/// from the start.
proof fn lemma_reverse_value(s: Seq<i64>)
    ensures
        digits_value(s.reverse()) == reversed_value(s),
    decreases s.len(),
{
    if s.len() > 0 {
        lemma_reverse_value(s.drop_first());
        assert(s.reverse().drop_last() =~= s.drop_first().reverse());
        assert(s.reverse().last() == s[0]);
    }
}

/// The decimal digits of `n`, most significant first (`[0]` for `n <= 0`).
pub fn digits(n: i64) -> (v: Vec<i64>)
    ensures
        n <= 0 ==> v@ == seq![0i64],
        n > 0 ==> digits_value(v@) == n && v@[0] != 0,
        forall|i: int| 0 <= i < v@.len() ==> 0 <= #[trigger] v@[i] < 10,
{
    let mut w: Vec<i64> = Vec::new();
    let mut m = n;
    while m > 0
        invariant
            n > 0 ==> m >= 0,
            n > 0 ==> n == reversed_value(w@) + pow10(w@.len()) * m,
            n <= 0 ==> m == n && w@.len() == 0,
            forall|i: int| 0 <= i < w@.len() ==> 0 <= #[trigger] w@[i] < 10,
            w@.len() > 0 ==> w@.last() != 0 || m > 0,
        decreases m,
    {
        let d = m % 10;
        let ghost old_w = w@;
        w.push(d);
        proof {
            lemma_reversed_value_push(old_w, d);
            assert(pow10(old_w.len() + 1) == 10 * pow10(old_w.len()));
            assert(pow10(old_w.len()) * m == pow10(old_w.len()) * (10 * (m / 10) + d)) by {
                assert(m == 10 * (m / 10) + d);
            }
            assert(pow10(old_w.len()) * (10 * (m / 10) + d) == d * pow10(old_w.len()) + (10 * pow10(old_w.len())) * (m / 10)) by (nonlinear_arith);
        }
        m = m / 10;
    }
    let mut v: Vec<i64> = Vec::new();
    if w.len() == 0 {
        v.push(0);
        return v;
    }
    let mut k = w.len();
    while k > 0
        invariant
            k <= w@.len(),
            v@ == w@.subrange(k as int, w@.len() as int).reverse(),
        decreases k,
    {
        k -= 1;
        v.push(w[k]);
        proof {
            assert(v@ =~= w@.subrange(k as int, w@.len() as int).reverse());
        }
    }
    proof {
        assert(w@.subrange(0, w@.len() as int) =~= w@);
        lemma_reverse_value(w@);
        assert(pow10(w@.len()) * 0 == 0);
        assert(v@[0] == w@.last());
    }
    v
}

/// `a / b` rounded up.
pub fn div_ceil(a: u64, b: u64) -> (r: u64)
    requires
        b >= 1,
        a + b <= u64::MAX,
    ensures
        r == (a + b - 1) / (b as int),
        (r as int) * b >= a,
        r == 0 || ((r - 1) as int) * b < a,
{
    proof {
        vstd::arithmetic::div_mod::lemma_fundamental_div_mod((a + b - 1) as int, b as int);
        vstd::arithmetic::div_mod::lemma_mod_bound((a + b - 1) as int, b as int);
        let q = (a + b - 1) / (b as int);
        let s = (a + b - 1) % (b as int);
        assert(q * b >= a) by (nonlinear_arith)
            requires
                a + b - 1 == b * q + s,
                s < b,
        ;
        assert(q == 0 || (q - 1) * b < a) by (nonlinear_arith)
            requires
                a + b - 1 == b * q + s,
                s >= 0,
        ;
    }
    (a + b - 1) / b
}

/// `base^e mod m`; for negative `e`, the power `-e` of the inverse of
/// `base mod m` that the extended Euclidean algorithm gives (`1` for
/// `e = 0`, not reduced when `m = 1`).
pub fn pow_mod(base: u64, e: i64, m: u64) -> (r: u64)
    requires
        m >= 1,
        (m - 1) * (m - 1) <= u64::MAX,
        m <= i64::MAX,
        e > i64::MIN,
    ensures
        e >= 0 ==> r == if e == 0 { 1 } else { power(base as int, e as nat) % (m as int) },
        e < 0 ==> r == power(inverse_of((base % m) as int, m as int), (-e) as nat) % (m as int),
{
    let x = base % m;
    let k: u64 = if e < 0 { (0 - e) as u64 } else { e as u64 };
    if e < 0 {
        proof {
            vstd::arithmetic::div_mod::lemma_mod_bound(base as int, m as int);
        }
        let y = crate::inv_gcd::inv_mod(x as i64, m as i64);
        proof {
            let g = gcd_spec(x as nat, m as nat) as int;
            crate::number::lemma_gcd_divisors(x as nat, m as nat, 0);
            assert(g >= 1);
            assert((m as int) / g <= m) by (nonlinear_arith)
                requires
                    g >= 1,
                    m >= 1,
            ;
            lemma_inverse_unique(x as int, m as int, y as int);
        }
        let r = crate::number::pow_mod(y as u64, k, m);
        proof {
            assert(k >= 1);
        }
        return r;
    }
    let r = crate::number::pow_mod(base, k, m);
    r
}

} // verus!
