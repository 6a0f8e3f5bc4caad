//! Residues modulo a runtime modulus, as `i64` values with the modulus
//! carried alongside.
use vstd::prelude::*;
use vstd::arithmetic::div_mod::{lemma_fundamental_div_mod, lemma_mod_bound, lemma_mod_multiples_basic};
use crate::number::{gcd_spec, power};
use crate::inv_gcd::{abs, euclid_inv, lemma_euclid_step};

verus! {

/// The coefficient of `a` that the extended Euclidean algorithm reaches
/// from remainders `s`, `t` with coefficients `m0`, `m1`.
pub open spec fn euclid_coef(s: int, t: int, m0: int, m1: int) -> int
    decreases t,
{
    if t <= 0 {
        m0
    } else {
        euclid_coef(t, s % t, m1, m0 - m1 * (s / t))
    }
}

/// The coefficient `x` with `a * x = gcd(a mod b, b) (mod b)` that the
/// extended Euclidean algorithm gives for `a` modulo `b`.
pub open spec fn bezout_coef(a: int, b: int) -> int {
    euclid_coef(b, a % b, 0, 1)
}

proof fn lemma_euclid_coef(a: int, b: int, s: int, t: int, m0: int, m1: int)
    requires
        b >= 1,
        euclid_inv(a, b, s, t, m0, m1),
    ensures
        ({
            let c = euclid_coef(s, t, m0, m1);
            let g = gcd_spec(s as nat, t as nat) as int;
            &&& (g - c * a) % b == 0
            &&& abs(c) * g <= b
            &&& abs(c) <= b
        }),
    decreases t,
{
    if t > 0 {
        lemma_euclid_step(a, b, s, t, m0, m1);
        lemma_mod_bound(s, t);
        lemma_fundamental_div_mod(s, t);
        assert(gcd_spec(s as nat, t as nat) == gcd_spec(t as nat, (s % t) as nat));
        lemma_euclid_coef(a, b, t, s % t, m1, m0 - m1 * (s / t));
    } else {
        assert(gcd_spec(s as nat, 0) == s);
        assert(abs(m0) <= b) by (nonlinear_arith)
            requires
                abs(m0) * s <= b,
                s >= 1,
                abs(m0) >= 0,
        ;
    }
}

/// Law: the coefficient is an inverse of `a` up to the gcd:
/// `a * x = gcd(a mod b, b) (mod b)`, with `|x| * gcd <= b`.
pub proof fn lemma_bezout_coef(a: int, b: int)
    requires
        b >= 1,
    ensures
        (a * bezout_coef(a, b)) % b == (gcd_spec((a % b) as nat, b as nat) as int) % b,
        abs(bezout_coef(a, b)) * (gcd_spec((a % b) as nat, b as nat) as int) <= b,
{
    let t = a % b;
    lemma_mod_bound(a, b);
    lemma_fundamental_div_mod(a, b);
    let q = a / b;
    assert(euclid_inv(a, b, b, t, 0, 1)) by {
        assert((b - 0 * a) % b == 0) by {
            lemma_mod_multiples_basic(1, b);
        }
        assert(t - 1 * a == (-q) * b) by (nonlinear_arith)
            requires
                a == b * q + t,
        ;
        lemma_mod_multiples_basic(-q, b);
        assert(abs(0int) == 0);
        assert(0 * b == 0);
    }
    lemma_euclid_coef(a, b, b, t, 0, 1);
    let c = bezout_coef(a, b);
    let g = gcd_spec(b as nat, t as nat) as int;
    crate::number::lemma_gcd_swap(t as nat, b as nat);
    lemma_fundamental_div_mod(g - c * a, b);
    let k = (g - c * a) / b;
    assert(a * c == g + (-k) * b) by (nonlinear_arith)
        requires
            g - c * a == b * k + 0,
    ;
    vstd::arithmetic::div_mod::lemma_mod_multiples_vanish(-k, g, b);
    vstd::arithmetic::mul::lemma_mul_is_commutative(-k, b);
}

/// `(gcd, x)` for `a` modulo `b` by the extended Euclidean algorithm:
/// `x` is `bezout_coef(a, b)`.
fn ext_gcd(a: i64, b: i64) -> (r: (i64, i64))
    requires
        1 <= b < 0x4000_0000_0000_0000,
    ensures
        r.0 == gcd_spec((a % b) as nat, b as nat),
        r.1 == bezout_coef(a as int, b as int),
{
    let ghost ai = a as int;
    let ghost bi = b as int;
    proof {
        lemma_mod_bound(ai, bi);
    }
    let mut s0: i64 = b;
    let mut s1: i64 = 0;
    let mut t0: i64 = a.checked_rem_euclid(b).unwrap();
    let mut t1: i64 = 1;
    proof {
        lemma_fundamental_div_mod(ai, bi);
        let q = ai / bi;
        assert(euclid_inv(ai, bi, bi, t0 as int, 0, 1)) by {
            lemma_mod_multiples_basic(1, bi);
            assert(t0 - 1 * ai == (-q) * bi) by (nonlinear_arith)
                requires
                    ai == bi * q + t0,
            ;
            lemma_mod_multiples_basic(-q, bi);
            assert(abs(0int) == 0);
            assert(0 * bi == 0);
        }
        crate::number::lemma_gcd_swap(t0 as nat, b as nat);
    }
    while t0 != 0
        invariant
            1 <= b < 0x4000_0000_0000_0000,
            ai == a,
            bi == b,
            euclid_inv(ai, bi, s0 as int, t0 as int, s1 as int, t1 as int),
            euclid_coef(s0 as int, t0 as int, s1 as int, t1 as int) == bezout_coef(ai, bi),
            gcd_spec(s0 as nat, t0 as nat) == gcd_spec((ai % bi) as nat, b as nat),
            s0 <= b,
        decreases t0,
    {
        proof {
            lemma_euclid_step(ai, bi, s0 as int, t0 as int, s1 as int, t1 as int);
            lemma_fundamental_div_mod(s0 as int, t0 as int);
            lemma_mod_bound(s0 as int, t0 as int);
            assert(s0 / t0 <= s0) by (nonlinear_arith)
                requires
                    t0 >= 1,
                    s0 >= 0,
            ;
            assert(t0 * (s0 / t0) <= s0) by (nonlinear_arith)
                requires
                    s0 == t0 * (s0 / t0) + s0 % t0,
                    s0 % t0 >= 0,
            ;
            let u = s0 / t0;
            assert(abs(s1 as int) <= bi) by (nonlinear_arith)
                requires
                    abs(s1 as int) * s0 <= bi,
                    s0 >= 1,
                    abs(s1 as int) >= 0,
            ;
            assert(t1 * u == s1 - (s1 - t1 * u));
            let x = s1 as int;
            let y = s1 - t1 * u;
            assert(-bi <= x <= bi);
            assert(-bi <= y <= bi);
            assert(-0x8000_0000_0000_0000 < t1 * u < 0x8000_0000_0000_0000);
            assert(gcd_spec(s0 as nat, t0 as nat) == gcd_spec(t0 as nat, (s0 % t0) as nat));
        }
        let u = s0 / t0;
        let n0 = s0 - t0 * u;
        let n1 = s1 - t1 * u;
        s0 = t0;
        s1 = t1;
        t0 = n0;
        t1 = n1;
    }
    if s0 < 0 {
        s0 = s0 + b / s0;
    }
    (s0, s1)
}

#[derive(Debug, Clone, Copy, PartialEq, Eq)]
pub struct ModInt {
    value: i64,
    modulus: i64,
}

impl View for ModInt {
    type V = (int, int);

    /// The stored value and the modulus.
    closed spec fn view(&self) -> (int, int) {
        (self.value as int, self.modulus as int)
    }
}

/// `v + w`, less `m` where it exceeds `m`.
pub open spec fn add_val(v: int, w: int, m: int) -> int {
    if v + w > m { v + w - m } else { v + w }
}

/// `v - w`, plus `m` where it is negative.
pub open spec fn sub_val(v: int, w: int, m: int) -> int {
    if v - w < 0 { v - w + m } else { v - w }
}

/// `v * w mod m`.
pub open spec fn mul_val(v: int, w: int, m: int) -> int {
    (v * w) % m
}

/// `v` times the Euclidean coefficient of `w`, modulo `m`: `v / w` for `w`
/// coprime to `m`.
pub open spec fn div_val(v: int, w: int, m: int) -> int {
    (v * bezout_coef(w, m)) % m
}

impl ModInt {
    /// The residue with the given value and modulus.
    pub closed spec fn from_parts(value: int, modulus: int) -> Self {
        ModInt { value: value as i64, modulus: modulus as i64 }
    }

    /// `value mod modulus`, with the modulus kept.
    pub fn with_mod(value: i64, modulus: i64) -> (r: Self)
        requires
            modulus >= 2,
        ensures
            r@ == ((value as int) % (modulus as int), modulus as int),
    {
        proof {
            lemma_mod_bound(value as int, modulus as int);
        }
        ModInt { value: value.checked_rem_euclid(modulus).unwrap(), modulus }
    }

    pub fn value(self) -> (v: i64)
        ensures
            v == self@.0,
    {
        self.value
    }

    pub fn modulus(self) -> (m: i64)
        ensures
            m == self@.1,
    {
        self.modulus
    }

    /// `self^n` by squaring.
    pub fn pow(self, n: u64) -> (r: Self)
        requires
            self@.1 >= 2,
            (self@.1 - 1) * (self@.1 - 1) <= i64::MAX,
            -self@.1 < self@.0 < self@.1,
        ensures
            r@ == (power(self@.0, n as nat) % self@.1, self@.1),
    {
        let m = self.modulus;
        let ghost mi = m as int;
        let ghost v0 = self@.0;
        let mut r = ModInt { value: 1, modulus: m };
        let mut a = self;
        let mut k = n;
        proof {
            vstd::arithmetic::div_mod::lemma_small_mod(1, mi as nat);
        }
        while k != 0
            invariant
                mi == m,
                m >= 2,
                (m - 1) * (m - 1) <= i64::MAX,
                r@.1 == mi,
                a@.1 == mi,
                0 <= r@.0 < mi,
                -mi < a@.0 < mi,
                (r@.0 * power(a@.0, k as nat)) % mi == power(v0, n as nat) % mi,
            decreases k,
        {
            let ghost k0 = k as nat;
            let ghost a0 = a@.0;
            let ghost r0 = r@.0;
            proof {
                assert(-((m - 1) * (m - 1)) <= r0 * a0 <= (m - 1) * (m - 1)) by (nonlinear_arith)
                    requires
                        0 <= r0 < mi,
                        -mi < a0 < mi,
                        mi == m,
                ;
                assert(-((m - 1) * (m - 1)) <= a0 * a0 <= (m - 1) * (m - 1)) by (nonlinear_arith)
                    requires
                        -mi < a0 < mi,
                        mi == m,
                ;
                assert(k & 1 == k % 2) by (bit_vector);
                assert(k >> 1 == k / 2) by (bit_vector);
                lemma_fundamental_div_mod(k as int, 2);
                crate::number::lemma_power_square(a0, (k / 2) as nat);
            }
            if k & 1 == 1 {
                r = r * a;
            }
            a = a * a;
            k = k >> 1;
            proof {
                let h = k as nat;
                lemma_mod_bound(a0 * a0, mi);
                crate::number::lemma_power_mod(a0 * a0, h, mi);
                if k0 % 2 == 1 {
                    lemma_mod_bound(r0 * a0, mi);
                    assert(r0 * power(a0, k0) == (r0 * a0) * power(a0 * a0, h)) by (nonlinear_arith)
                        requires
                            power(a0, k0) == a0 * power(a0 * a0, h),
                    ;
                    vstd::arithmetic::div_mod::lemma_mul_mod_noop_left(r0 * a0, power(a0 * a0, h), mi);
                    vstd::arithmetic::div_mod::lemma_mul_mod_noop_right(r@.0, power(a0 * a0, h), mi);
                    vstd::arithmetic::div_mod::lemma_mul_mod_noop_right(r@.0, power(a@.0, h), mi);
                } else {
                    assert(k0 == 2 * h);
                    vstd::arithmetic::div_mod::lemma_mul_mod_noop_right(r0, power(a0 * a0, h), mi);
                    vstd::arithmetic::div_mod::lemma_mul_mod_noop_right(r0, power(a@.0, h), mi);
                }
            }
        }
        proof {
            assert(power(a@.0, 0) == 1);
            vstd::arithmetic::div_mod::lemma_small_mod(r@.0 as nat, mi as nat);
        }
        r
    }

    /// The value replaced by the Euclidean coefficient of it modulo the
    /// modulus (an inverse where the two are coprime; not reduced).
    pub fn inv(self) -> (r: Self)
        requires
            2 <= self@.1 < 0x4000_0000_0000_0000,
        ensures
            r@ == (bezout_coef(self@.0, self@.1), self@.1),
    {
        let (_, x) = ext_gcd(self.value, self.modulus);
        ModInt { value: x, modulus: self.modulus }
    }
}

impl std::ops::Rem for ModInt {
    type Output = Self;

    /// The value taken modulo the other's value, which becomes the modulus.
    fn rem(self, other: Self) -> (r: Self)
        ensures
            r@ == (self@.0 % other@.0, other@.0),
    {
        ModInt::with_mod(self.value, other.value)
    }
}

impl vstd::std_specs::ops::RemSpecImpl for ModInt {
    open spec fn obeys_rem_spec() -> bool {
        true
    }

    open spec fn rem_req(self, other: Self) -> bool {
        other@.0 >= 2
    }

    open spec fn rem_spec(self, other: Self) -> Self {
        ModInt::from_parts(self@.0 % other@.0, other@.0)
    }
}

impl std::ops::Neg for ModInt {
    type Output = Self;

    /// `(m - v) mod m`.
    fn neg(self) -> (r: Self)
        ensures
            r@ == ((self@.1 - self@.0) % self@.1, self@.1),
    {
        ModInt::with_mod(self.modulus - self.value, self.modulus)
    }
}

impl vstd::std_specs::ops::NegSpecImpl for ModInt {
    open spec fn obeys_neg_spec() -> bool {
        true
    }

    open spec fn neg_req(self) -> bool {
        self@.1 >= 2 && i64::MIN <= self@.1 - self@.0 <= i64::MAX
    }

    open spec fn neg_spec(self) -> Self {
        ModInt::from_parts((self@.1 - self@.0) % self@.1, self@.1)
    }
}

impl std::ops::Add<i64> for ModInt {
    type Output = Self;

    fn add(self, other: i64) -> (r: Self)
        ensures
            r@ == (add_val(self@.0, other as int, self@.1), self@.1),
    {
        let y = other;
        let mut x = self.value + y;
        if x > self.modulus {
            x = x - self.modulus;
        }
        ModInt { value: x, modulus: self.modulus }
    }
}

impl vstd::std_specs::ops::AddSpecImpl<i64> for ModInt {
    open spec fn obeys_add_spec() -> bool {
        true
    }

    open spec fn add_req(self, other: i64) -> bool {
        self@.1 >= 2 && i64::MIN <= self@.0 + other as int <= i64::MAX
    }

    open spec fn add_spec(self, other: i64) -> Self {
        ModInt::from_parts(add_val(self@.0, other as int, self@.1), self@.1)
    }
}

impl std::ops::Add<ModInt> for ModInt {
    type Output = Self;

    fn add(self, other: ModInt) -> (r: Self)
        ensures
            r@ == (add_val(self@.0, other@.0, self@.1), self@.1),
    {
        let y = other.value;
        let mut x = self.value + y;
        if x > self.modulus {
            x = x - self.modulus;
        }
        ModInt { value: x, modulus: self.modulus }
    }
}

impl vstd::std_specs::ops::AddSpecImpl<ModInt> for ModInt {
    open spec fn obeys_add_spec() -> bool {
        true
    }

    open spec fn add_req(self, other: ModInt) -> bool {
        self@.1 >= 2 && i64::MIN <= self@.0 + other@.0 <= i64::MAX
    }

    open spec fn add_spec(self, other: ModInt) -> Self {
        ModInt::from_parts(add_val(self@.0, other@.0, self@.1), self@.1)
    }
}

impl std::ops::Sub<i64> for ModInt {
    type Output = Self;

    fn sub(self, other: i64) -> (r: Self)
        ensures
            r@ == (sub_val(self@.0, other as int, self@.1), self@.1),
    {
        let y = other;
        let mut x = self.value - y;
        if x + self.modulus < self.modulus {
            x = x + self.modulus;
        }
        ModInt { value: x, modulus: self.modulus }
    }
}

impl vstd::std_specs::ops::SubSpecImpl<i64> for ModInt {
    open spec fn obeys_sub_spec() -> bool {
        true
    }

    open spec fn sub_req(self, other: i64) -> bool {
        self@.1 >= 2 && i64::MIN <= self@.0 - other as int <= i64::MAX && i64::MIN <= self@.0 - other as int + self@.1 <= i64::MAX
    }

    open spec fn sub_spec(self, other: i64) -> Self {
        ModInt::from_parts(sub_val(self@.0, other as int, self@.1), self@.1)
    }
}

impl std::ops::Sub<ModInt> for ModInt {
    type Output = Self;

    fn sub(self, other: ModInt) -> (r: Self)
        ensures
            r@ == (sub_val(self@.0, other@.0, self@.1), self@.1),
    {
        let y = other.value;
        let mut x = self.value - y;
        if x + self.modulus < self.modulus {
            x = x + self.modulus;
        }
        ModInt { value: x, modulus: self.modulus }
    }
}

impl vstd::std_specs::ops::SubSpecImpl<ModInt> for ModInt {
    open spec fn obeys_sub_spec() -> bool {
        true
    }

    open spec fn sub_req(self, other: ModInt) -> bool {
        self@.1 >= 2 && i64::MIN <= self@.0 - other@.0 <= i64::MAX && i64::MIN <= self@.0 - other@.0 + self@.1 <= i64::MAX
    }

    open spec fn sub_spec(self, other: ModInt) -> Self {
        ModInt::from_parts(sub_val(self@.0, other@.0, self@.1), self@.1)
    }
}

impl std::ops::Mul<i64> for ModInt {
    type Output = Self;

    fn mul(self, other: i64) -> (r: Self)
        ensures
            r@ == (mul_val(self@.0, other as int, self@.1), self@.1),
    {
        let y = other;
        proof {
            lemma_mod_bound(self@.0 * y, self@.1);
        }
        ModInt { value: (self.value * y).checked_rem_euclid(self.modulus).unwrap(), modulus: self.modulus }
    }
}

impl vstd::std_specs::ops::MulSpecImpl<i64> for ModInt {
    open spec fn obeys_mul_spec() -> bool {
        true
    }

    open spec fn mul_req(self, other: i64) -> bool {
        self@.1 >= 2 && i64::MIN <= self@.0 * other as int <= i64::MAX
    }

    open spec fn mul_spec(self, other: i64) -> Self {
        ModInt::from_parts(mul_val(self@.0, other as int, self@.1), self@.1)
    }
}

impl std::ops::Mul<ModInt> for ModInt {
    type Output = Self;

    fn mul(self, other: ModInt) -> (r: Self)
        ensures
            r@ == (mul_val(self@.0, other@.0, self@.1), self@.1),
    {
        let y = other.value;
        proof {
            lemma_mod_bound(self@.0 * y, self@.1);
        }
        ModInt { value: (self.value * y).checked_rem_euclid(self.modulus).unwrap(), modulus: self.modulus }
    }
}

impl vstd::std_specs::ops::MulSpecImpl<ModInt> for ModInt {
    open spec fn obeys_mul_spec() -> bool {
        true
    }

    open spec fn mul_req(self, other: ModInt) -> bool {
        self@.1 >= 2 && i64::MIN <= self@.0 * other@.0 <= i64::MAX
    }

    open spec fn mul_spec(self, other: ModInt) -> Self {
        ModInt::from_parts(mul_val(self@.0, other@.0, self@.1), self@.1)
    }
}

impl std::ops::Div<i64> for ModInt {
    type Output = Self;

    fn div(self, other: i64) -> (r: Self)
        ensures
            r@ == (div_val(self@.0, other as int, self@.1), self@.1),
    {
        let y = other;
        let (_, c) = ext_gcd(y, self.modulus);
        proof {
            lemma_mod_bound(self@.0 * c, self@.1);
        }
        ModInt { value: (self.value * c).checked_rem_euclid(self.modulus).unwrap(), modulus: self.modulus }
    }
}

impl vstd::std_specs::ops::DivSpecImpl<i64> for ModInt {
    open spec fn obeys_div_spec() -> bool {
        true
    }

    open spec fn div_req(self, other: i64) -> bool {
        2 <= self@.1 < 0x4000_0000_0000_0000 && i64::MIN <= self@.0 * bezout_coef(other as int, self@.1) <= i64::MAX
    }

    open spec fn div_spec(self, other: i64) -> Self {
        ModInt::from_parts(div_val(self@.0, other as int, self@.1), self@.1)
    }
}

impl std::ops::Div<ModInt> for ModInt {
    type Output = Self;

    fn div(self, other: ModInt) -> (r: Self)
        ensures
            r@ == (div_val(self@.0, other@.0, self@.1), self@.1),
    {
        let y = other.value;
        let (_, c) = ext_gcd(y, self.modulus);
        proof {
            lemma_mod_bound(self@.0 * c, self@.1);
        }
        ModInt { value: (self.value * c).checked_rem_euclid(self.modulus).unwrap(), modulus: self.modulus }
    }
}

impl vstd::std_specs::ops::DivSpecImpl<ModInt> for ModInt {
    open spec fn obeys_div_spec() -> bool {
        true
    }

    open spec fn div_req(self, other: ModInt) -> bool {
        2 <= self@.1 < 0x4000_0000_0000_0000 && i64::MIN <= self@.0 * bezout_coef(other@.0, self@.1) <= i64::MAX
    }

    open spec fn div_spec(self, other: ModInt) -> Self {
        ModInt::from_parts(div_val(self@.0, other@.0, self@.1), self@.1)
    }
}

} // verus!
