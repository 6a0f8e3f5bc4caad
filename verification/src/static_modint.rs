//! Residues modulo a modulus fixed in the type, with the arithmetic of the
//! operators as they are defined here (see each spec function).
use vstd::prelude::*;
use crate::number::gcd_spec;
use crate::inv_gcd::inv_mod;

verus! {

/// `v + w`, less `m` where that exceeds `m`.
pub open spec fn add_val(v: int, w: int, m: int) -> int {
    if v + w > m { v + w - m } else { v + w }
}

/// `v + w`, plus `m` first where `v < w`: the operator adds the two values.
pub open spec fn sub_val(v: int, w: int, m: int) -> int {
    if v < w { v + m + w } else { v + w }
}

/// `v * w`, plus `m` where that is negative (no reduction).
pub open spec fn mul_val(v: int, w: int, m: int) -> int {
    if v * w < 0 { v * w + m } else { v * w }
}

/// The inverse of `w` modulo `m` from the extended Euclidean algorithm:
/// the `x` in `0 .. m / g` with `w * x = g (mod m)`, `g = gcd(w, m)`.
pub open spec fn inverse_of(w: int, m: int) -> int {
    choose|x: int| #[trigger] is_inverse_in_range(w, m, x)
}

/// `x` is in `0 .. m / g` and `w * x = g (mod m)`, `g = gcd(w, m)`.
pub open spec fn is_inverse_in_range(w: int, m: int, x: int) -> bool {
    0 <= x < m / (gcd_spec(w as nat, m as nat) as int) && (w * x) % m == (gcd_spec(w as nat, m as nat) as int) % m
}

/// `v` times the inverse of `w`, plus `m` where that is negative.
pub open spec fn div_val(v: int, w: int, m: int) -> int {
    if v * inverse_of(w, m) < 0 { v * inverse_of(w, m) + m } else { v * inverse_of(w, m) }
}

/// A residue modulo `M`.
#[derive(Debug, Clone, Copy, PartialEq, Eq)]
pub struct ModInt<const M: u64> {
    value: i64,
}

pub type ModInt1000000007 = ModInt<1_000_000_007>;

pub type ModInt998244353 = ModInt<998_244_353>;

impl<const M: u64> ModInt<M> {
    /// The stored value.
    pub closed spec fn val(self) -> int {
        self.value as int
    }

    /// The residue holding `v`.
    pub closed spec fn from_val(v: int) -> Self {
        ModInt { value: v as i64 }
    }

    /// `value mod M`.
    pub fn new(value: i64) -> (r: Self)
        requires
            1 <= M <= i64::MAX,
        ensures
            r.val() == (value as int) % (M as int),
    {
        let m = M as i64;
        proof {
            vstd::arithmetic::div_mod::lemma_mod_bound(value as int, m as int);
        }
        ModInt { value: value.checked_rem_euclid(m).unwrap() }
    }

    pub fn value(self) -> (v: i64)
        ensures
            v == self.val(),
    {
        self.value
    }

    pub fn modulus(&self) -> (m: i64)
        requires
            M <= i64::MAX,
        ensures
            m == M,
    {
        M as i64
    }

    /// The inverse of the value modulo `M` (see `inverse_of`).
    pub fn inv(self) -> (r: Self)
        requires
            1 <= M <= i64::MAX,
            self.val() >= 0,
        ensures
            r.val() == inverse_of(self.val(), M as int),
    {
        let x = inv_mod(self.value, M as i64);
        proof {
            lemma_inverse_unique(self.val(), M as int, x as int);
        }
        ModInt { value: x }
    }
}

/// The inverse that the Euclidean algorithm gives is the only one in its
/// range.
pub(crate) proof fn lemma_inverse_unique(w: int, m: int, x: int)
    requires
        w >= 0,
        m >= 1,
        0 <= x < m / (gcd_spec(w as nat, m as nat) as int),
        (w * x) % m == (gcd_spec(w as nat, m as nat) as int) % m,
    ensures
        inverse_of(w, m) == x,
{
    let g = gcd_spec(w as nat, m as nat) as int;
    assert(is_inverse_in_range(w, m, x));
    let y = inverse_of(w, m);
    assert(0 <= y < m / g && (w * y) % m == g % m);
    crate::number::lemma_gcd_divisors(w as nat, m as nat, g as nat);
    assert(g >= 1) by {
        crate::number::lemma_gcd_divisors(w as nat, m as nat, 0);
    }
    vstd::arithmetic::div_mod::lemma_fundamental_div_mod(w, g);
    vstd::arithmetic::div_mod::lemma_fundamental_div_mod(m, g);
    let a = w / g;
    let n = m / g;
    assert(w == g * a && m == g * n);
    assert(n >= 1) by (nonlinear_arith)
        requires
            m == g * n,
            m >= 1,
            g >= 1,
    ;
    if n == 1 {
        assert(x == 0 && y == 0);
    } else {
        assert(g < m) by (nonlinear_arith)
            requires
                m == g * n,
                n >= 2,
                g >= 1,
        ;
        vstd::arithmetic::div_mod::lemma_small_mod(g as nat, m as nat);
        vstd::arithmetic::div_mod::lemma_fundamental_div_mod(w * x, m);
        vstd::arithmetic::div_mod::lemma_fundamental_div_mod(w * y, m);
        let k1 = (w * x) / m;
        let k2 = (w * y) / m;
        assert(a * x == 1 + k1 * n) by (nonlinear_arith)
            requires
                w * x == m * k1 + g,
                w == g * a,
                m == g * n,
                g >= 1,
        ;
        assert(a * y == 1 + k2 * n) by (nonlinear_arith)
            requires
                w * y == m * k2 + g,
                w == g * a,
                m == g * n,
                g >= 1,
        ;
        let d = x - y;
        let q = (k1 - k2) * x - k1 * d;
        assert(d == n * q) by (nonlinear_arith)
            requires
                a * x == 1 + k1 * n,
                a * y == 1 + k2 * n,
                d == x - y,
                q == (k1 - k2) * x - k1 * d,
        ;
        assert(d == 0) by (nonlinear_arith)
            requires
                d == n * q,
                -n < d < n,
                n >= 1,
        ;
    }
}

impl<const M: u64> std::ops::Add for ModInt<M> {
    type Output = Self;

    fn add(self, other: Self) -> (r: Self)
        ensures
            r.val() == add_val(self.val(), other.val(), M as int),
    {
        let m = M as i64;
        let mut x = self.value + other.value;
        if x > m {
            x = x - m;
        }
        ModInt { value: x }
    }
}

impl<const M: u64> vstd::std_specs::ops::AddSpecImpl for ModInt<M> {
    open spec fn obeys_add_spec() -> bool {
        true
    }

    open spec fn add_req(self, other: Self) -> bool {
        M <= 0x3FFF_FFFF_FFFF_FFFF && i64::MIN <= self.val() + other.val() <= i64::MAX
    }

    open spec fn add_spec(self, other: Self) -> Self {
        ModInt::from_val(add_val(self.val(), other.val(), M as int))
    }
}

impl<const M: u64> std::ops::Sub for ModInt<M> {
    type Output = Self;

    fn sub(self, other: Self) -> (r: Self)
        ensures
            r.val() == sub_val(self.val(), other.val(), M as int),
    {
        let m = M as i64;
        let mut x = self.value;
        let y = other.value;
        if x < y {
            x = x + m;
        }
        ModInt { value: x + y }
    }
}

impl<const M: u64> vstd::std_specs::ops::SubSpecImpl for ModInt<M> {
    open spec fn obeys_sub_spec() -> bool {
        true
    }

    open spec fn sub_req(self, other: Self) -> bool {
        M <= 0x3FFF_FFFF_FFFF_FFFF && i64::MIN <= self.val() + other.val() + M <= i64::MAX && i64::MIN <= self.val() + M <= i64::MAX && i64::MIN <= self.val() + other.val() <= i64::MAX
    }

    open spec fn sub_spec(self, other: Self) -> Self {
        ModInt::from_val(sub_val(self.val(), other.val(), M as int))
    }
}

impl<const M: u64> std::ops::Mul for ModInt<M> {
    type Output = Self;

    fn mul(self, other: Self) -> (r: Self)
        ensures
            r.val() == mul_val(self.val(), other.val(), M as int),
    {
        let m = M as i64;
        let mut x = self.value * other.value;
        if x < 0 {
            x = x + m;
        }
        ModInt { value: x }
    }
}

impl<const M: u64> vstd::std_specs::ops::MulSpecImpl for ModInt<M> {
    open spec fn obeys_mul_spec() -> bool {
        true
    }

    open spec fn mul_req(self, other: Self) -> bool {
        M <= 0x3FFF_FFFF_FFFF_FFFF && i64::MIN <= self.val() * other.val() <= i64::MAX && (self.val() * other.val() < 0 ==> i64::MIN <= self.val() * other.val() + M)
    }

    open spec fn mul_spec(self, other: Self) -> Self {
        ModInt::from_val(mul_val(self.val(), other.val(), M as int))
    }
}

impl<const M: u64> std::ops::Div for ModInt<M> {
    type Output = Self;

    fn div(self, other: Self) -> (r: Self)
        ensures
            r.val() == div_val(self.val(), other.val(), M as int),
    {
        let m = M as i64;
        let c = inv_mod(other.value, m);
        proof {
            lemma_inverse_unique(other.val(), M as int, c as int);
        }
        let mut x = self.value * c;
        if x < 0 {
            x = x + m;
        }
        ModInt { value: x }
    }
}

impl<const M: u64> vstd::std_specs::ops::DivSpecImpl for ModInt<M> {
    open spec fn obeys_div_spec() -> bool {
        true
    }

    open spec fn div_req(self, other: Self) -> bool {
        1 <= M <= 0x3FFF_FFFF_FFFF_FFFF && other.val() >= 0 && i64::MIN <= self.val() * inverse_of(other.val(), M as int) <= i64::MAX
    }

    open spec fn div_spec(self, other: Self) -> Self {
        ModInt::from_val(div_val(self.val(), other.val(), M as int))
    }
}

impl<const M: u64> std::ops::Neg for ModInt<M> {
    type Output = Self;

    /// `M - v`.
    fn neg(self) -> (r: Self)
        ensures
            r.val() == M - self.val(),
    {
        ModInt { value: M as i64 - self.value }
    }
}

impl<const M: u64> vstd::std_specs::ops::NegSpecImpl for ModInt<M> {
    open spec fn obeys_neg_spec() -> bool {
        true
    }

    open spec fn neg_req(self) -> bool {
        M <= i64::MAX && i64::MIN <= M - self.val() <= i64::MAX
    }

    open spec fn neg_spec(self) -> Self {
        ModInt::from_val(M - self.val())
    }
}

} // verus!
