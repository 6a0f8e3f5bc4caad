//! Numbers extended with `+inf`, `-inf` and an absorbing `NaN`.
//!
//! The arithmetic on finite values is two's-complement wrapping on `i64`.
use vstd::prelude::*;
use crate::wrap::{wrap_i64, lemma_i64_wrapping_add, lemma_i64_wrapping_sub, lemma_i64_wrapping_mul};

verus! {

#[derive(Debug, Clone, Copy)]
pub enum Wheel<T> {
    NaN,
    PositiveInfinity,
    NegativeInfinity,
    Finite(T),
}

impl<T: Copy> Wheel<T> {
    /// `self` is `NaN`.
    pub fn is_nan(&self) -> (b: bool)
        ensures
            b <==> *self is NaN,
    {
        match self {
            Wheel::NaN => true,
            _ => false,
        }
    }

    /// `self` is `Finite(_)`.
    pub fn is_finite(&self) -> (b: bool)
        ensures
            b <==> *self is Finite,
    {
        match self {
            Wheel::Finite(_) => true,
            _ => false,
        }
    }

    /// `None` for `NaN`, the value itself otherwise.
    pub fn not_nan(self) -> (r: Option<Wheel<T>>)
        ensures
            self is NaN ==> r is None,
            !(self is NaN) ==> r == Some(self),
    {
        match self {
            Wheel::NaN => None,
            x => Some(x),
        }
    }

    /// The finite value, if there is one.
    pub fn finite(self) -> (r: Option<T>)
        ensures
            self is Finite ==> r == Some(self->0),
            !(self is Finite) ==> r is None,
    {
        match self {
            Wheel::Finite(x) => Some(x),
            _ => None,
        }
    }

    /// Applies `f` to a finite value and keeps the other variants.
    pub fn map<U, F: FnOnce(T) -> U>(self, f: F) -> (r: Wheel<U>)
        requires
            self is Finite ==> call_requires(f, (self->0,)),
        ensures
            self is NaN ==> r is NaN,
            self is PositiveInfinity ==> r is PositiveInfinity,
            self is NegativeInfinity ==> r is NegativeInfinity,
            self is Finite ==> r is Finite && call_ensures(f, (self->0,), r->0),
    {
        match self {
            Wheel::Finite(x) => Wheel::Finite(f(x)),
            Wheel::NaN => Wheel::NaN,
            Wheel::PositiveInfinity => Wheel::PositiveInfinity,
            Wheel::NegativeInfinity => Wheel::NegativeInfinity,
        }
    }

    /// The finite value; `self` must be finite.
    pub fn unwrap(self) -> (x: T)
        requires
            self is Finite,
        ensures
            x == self->0,
    {
        self.finite().unwrap()
    }
}

/// The sign of `x` as `-1`, `0` or `1`.
pub open spec fn sign(x: int) -> int {
    if x < 0 { -1 } else if x == 0 { 0 } else { 1 }
}

impl Wheel<i64> {
    /// Two values are equal when neither is `NaN` and they are the same
    /// infinity or the same finite value.
    pub open spec fn same(self, other: Self) -> bool {
        match (self, other) {
            (Wheel::PositiveInfinity, Wheel::PositiveInfinity) => true,
            (Wheel::NegativeInfinity, Wheel::NegativeInfinity) => true,
            (Wheel::Finite(x), Wheel::Finite(y)) => x == y,
            _ => false,
        }
    }

    /// The sum: `NaN` absorbs, opposite infinities give `NaN`, an infinity
    /// wins over a finite value.
    pub open spec fn sum_spec(self, other: Self) -> Self {
        match (self, other) {
            (Wheel::NaN, _) | (_, Wheel::NaN) => Wheel::NaN,
            (Wheel::PositiveInfinity, Wheel::NegativeInfinity) | (Wheel::NegativeInfinity, Wheel::PositiveInfinity) => Wheel::NaN,
            (Wheel::PositiveInfinity, _) | (_, Wheel::PositiveInfinity) => Wheel::PositiveInfinity,
            (Wheel::NegativeInfinity, _) | (_, Wheel::NegativeInfinity) => Wheel::NegativeInfinity,
            (Wheel::Finite(x), Wheel::Finite(y)) => Wheel::Finite(wrap_i64(x + y) as i64),
        }
    }

    /// The difference: like the sum with the second argument negated.
    pub open spec fn diff_spec(self, other: Self) -> Self {
        match (self, other) {
            (Wheel::NaN, _) | (_, Wheel::NaN) => Wheel::NaN,
            (Wheel::PositiveInfinity, Wheel::PositiveInfinity) | (Wheel::NegativeInfinity, Wheel::NegativeInfinity) => Wheel::NaN,
            (Wheel::PositiveInfinity, _) | (_, Wheel::NegativeInfinity) => Wheel::PositiveInfinity,
            (Wheel::NegativeInfinity, _) | (_, Wheel::PositiveInfinity) => Wheel::NegativeInfinity,
            (Wheel::Finite(x), Wheel::Finite(y)) => Wheel::Finite(wrap_i64(x - y) as i64),
        }
    }

    /// An infinity times a value of sign `s`.
    pub open spec fn inf_times(positive: bool, s: int) -> Self {
        if s == 0 {
            Wheel::NaN
        } else if (s > 0) == positive {
            Wheel::PositiveInfinity
        } else {
            Wheel::NegativeInfinity
        }
    }

    /// The product: infinities multiply by sign, an infinity times zero is
    /// `NaN`.
    pub open spec fn prod_spec(self, other: Self) -> Self {
        match (self, other) {
            (Wheel::NaN, _) | (_, Wheel::NaN) => Wheel::NaN,
            (Wheel::PositiveInfinity, Wheel::PositiveInfinity) | (Wheel::NegativeInfinity, Wheel::NegativeInfinity) => Wheel::PositiveInfinity,
            (Wheel::PositiveInfinity, Wheel::NegativeInfinity) | (Wheel::NegativeInfinity, Wheel::PositiveInfinity) => Wheel::NegativeInfinity,
            (Wheel::PositiveInfinity, Wheel::Finite(x)) | (Wheel::Finite(x), Wheel::PositiveInfinity) => Self::inf_times(true, sign(x as int)),
            (Wheel::NegativeInfinity, Wheel::Finite(x)) | (Wheel::Finite(x), Wheel::NegativeInfinity) => Self::inf_times(false, sign(x as int)),
            (Wheel::Finite(x), Wheel::Finite(y)) => Wheel::Finite(wrap_i64(x * y) as i64),
        }
    }

    /// The quotient: a finite value over an infinity is `0`, an infinity
    /// over a finite value keeps or flips its sign, `x / 0` is an infinity
    /// by the sign of `x` (`NaN` for `0 / 0`); `i64::MIN / -1` wraps.
    pub open spec fn quot_spec(self, other: Self) -> Self {
        match (self, other) {
            (Wheel::Finite(x), Wheel::PositiveInfinity) | (Wheel::Finite(x), Wheel::NegativeInfinity) => Wheel::Finite(0),
            (Wheel::PositiveInfinity, Wheel::Finite(y)) => if y < 0 { Wheel::NegativeInfinity } else { Wheel::PositiveInfinity },
            (Wheel::NegativeInfinity, Wheel::Finite(y)) => if y < 0 { Wheel::PositiveInfinity } else { Wheel::NegativeInfinity },
            (Wheel::Finite(x), Wheel::Finite(y)) => if y == 0 {
                Self::inf_times(true, sign(x as int))
            } else {
                Wheel::Finite(wrap_i64(truncated_div(x as int, y as int)) as i64)
            },
            _ => Wheel::NaN,
        }
    }

    /// The remainder: `x % +inf` is `x`, finite values take the truncated
    /// remainder (`x % 0` is `NaN`), everything else is `NaN`.
    pub open spec fn remainder_spec(self, other: Self) -> Self {
        match (self, other) {
            (Wheel::Finite(x), Wheel::PositiveInfinity) => Wheel::Finite(x),
            (Wheel::Finite(x), Wheel::Finite(y)) => if y == 0 {
                Wheel::NaN
            } else {
                Wheel::Finite(truncated_rem(x as int, y as int) as i64)
            },
            _ => Wheel::NaN,
        }
    }

    /// Negation: infinities swap, finite values negate (wrapping).
    pub open spec fn negated_spec(self) -> Self {
        match self {
            Wheel::NaN => Wheel::NaN,
            Wheel::PositiveInfinity => Wheel::NegativeInfinity,
            Wheel::NegativeInfinity => Wheel::PositiveInfinity,
            Wheel::Finite(x) => Wheel::Finite(wrap_i64(-x) as i64),
        }
    }
}

pub open spec fn abs(x: int) -> int {
    if x < 0 { -x } else { x }
}

/// Division rounding toward zero, as Rust's `/` on integers.
pub open spec fn truncated_div(x: int, y: int) -> int {
    if (x < 0) != (y < 0) {
        -(abs(x) / abs(y))
    } else {
        abs(x) / abs(y)
    }
}

/// Remainder with the sign of `x`, as Rust's `%` on integers.
pub open spec fn truncated_rem(x: int, y: int) -> int {
    if x < 0 {
        -(abs(x) % abs(y))
    } else {
        abs(x) % abs(y)
    }
}

impl PartialEq for Wheel<i64> {
    fn eq(&self, other: &Self) -> (r: bool) {
        match (self, other) {
            (Wheel::PositiveInfinity, Wheel::PositiveInfinity) => true,
            (Wheel::NegativeInfinity, Wheel::NegativeInfinity) => true,
            (Wheel::Finite(x), Wheel::Finite(y)) => *x == *y,
            _ => false,
        }
    }
}

impl vstd::std_specs::cmp::PartialEqSpecImpl for Wheel<i64> {
    open spec fn obeys_eq_spec() -> bool {
        true
    }

    open spec fn eq_spec(&self, other: &Self) -> bool {
        self.same(*other)
    }
}

impl std::ops::Add for Wheel<i64> {
    type Output = Self;

    /// The sum; see `sum_spec`.
    fn add(self, other: Self) -> (r: Self)
        ensures
            r == self.sum_spec(other),
    {
        match (self, other) {
            (Wheel::NaN, _) | (_, Wheel::NaN) => Wheel::NaN,
            (Wheel::PositiveInfinity, Wheel::NegativeInfinity) | (Wheel::NegativeInfinity, Wheel::PositiveInfinity) => Wheel::NaN,
            (Wheel::PositiveInfinity, _) | (_, Wheel::PositiveInfinity) => Wheel::PositiveInfinity,
            (Wheel::NegativeInfinity, _) | (_, Wheel::NegativeInfinity) => Wheel::NegativeInfinity,
            (Wheel::Finite(x), Wheel::Finite(y)) => {
                proof {
                    lemma_i64_wrapping_add(x, y);
                }
                Wheel::Finite(x.wrapping_add(y))
            },
        }
    }
}

impl std::ops::Sub for Wheel<i64> {
    type Output = Self;

    /// The difference; see `diff_spec`.
    fn sub(self, other: Self) -> (r: Self)
        ensures
            r == self.diff_spec(other),
    {
        match (self, other) {
            (Wheel::NaN, _) | (_, Wheel::NaN) => Wheel::NaN,
            (Wheel::PositiveInfinity, Wheel::PositiveInfinity) | (Wheel::NegativeInfinity, Wheel::NegativeInfinity) => Wheel::NaN,
            (Wheel::PositiveInfinity, _) | (_, Wheel::NegativeInfinity) => Wheel::PositiveInfinity,
            (Wheel::NegativeInfinity, _) | (_, Wheel::PositiveInfinity) => Wheel::NegativeInfinity,
            (Wheel::Finite(x), Wheel::Finite(y)) => {
                proof {
                    lemma_i64_wrapping_sub(x, y);
                }
                Wheel::Finite(x.wrapping_sub(y))
            },
        }
    }
}

impl std::ops::Mul for Wheel<i64> {
    type Output = Self;

    /// The product; see `prod_spec`.
    fn mul(self, other: Self) -> (r: Self)
        ensures
            r == self.prod_spec(other),
    {
        match (self, other) {
            (Wheel::NaN, _) | (_, Wheel::NaN) => Wheel::NaN,
            (Wheel::PositiveInfinity, Wheel::PositiveInfinity) | (Wheel::NegativeInfinity, Wheel::NegativeInfinity) => Wheel::PositiveInfinity,
            (Wheel::PositiveInfinity, Wheel::NegativeInfinity) | (Wheel::NegativeInfinity, Wheel::PositiveInfinity) => Wheel::NegativeInfinity,
            (Wheel::PositiveInfinity, Wheel::Finite(x)) | (Wheel::Finite(x), Wheel::PositiveInfinity) => {
                if x == 0 {
                    Wheel::NaN
                } else if x < 0 {
                    Wheel::NegativeInfinity
                } else {
                    Wheel::PositiveInfinity
                }
            },
            (Wheel::NegativeInfinity, Wheel::Finite(x)) | (Wheel::Finite(x), Wheel::NegativeInfinity) => {
                if x == 0 {
                    Wheel::NaN
                } else if x < 0 {
                    Wheel::PositiveInfinity
                } else {
                    Wheel::NegativeInfinity
                }
            },
            (Wheel::Finite(x), Wheel::Finite(y)) => {
                proof {
                    lemma_i64_wrapping_mul(x, y);
                }
                Wheel::Finite(x.wrapping_mul(y))
            },
        }
    }
}

impl std::ops::Div for Wheel<i64> {
    type Output = Self;

    /// The quotient; see `quot_spec`.
    fn div(self, other: Self) -> (r: Self)
        ensures
            r == self.quot_spec(other),
    {
        match (self, other) {
            (Wheel::Finite(_), Wheel::PositiveInfinity) | (Wheel::Finite(_), Wheel::NegativeInfinity) => Wheel::Finite(0),
            (Wheel::PositiveInfinity, Wheel::Finite(y)) => if y < 0 { Wheel::NegativeInfinity } else { Wheel::PositiveInfinity },
            (Wheel::NegativeInfinity, Wheel::Finite(y)) => if y < 0 { Wheel::PositiveInfinity } else { Wheel::NegativeInfinity },
            (Wheel::Finite(x), Wheel::Finite(y)) => {
                if y == 0 {
                    if x == 0 {
                        Wheel::NaN
                    } else if x > 0 {
                        Wheel::PositiveInfinity
                    } else {
                        Wheel::NegativeInfinity
                    }
                } else {
                    let (q, _) = trunc_div_rem(x, y);
                    Wheel::Finite(q)
                }
            },
            _ => Wheel::NaN,
        }
    }
}

impl std::ops::Rem for Wheel<i64> {
    type Output = Self;

    /// The remainder; see `remainder_spec`.
    fn rem(self, other: Self) -> (r: Self)
        ensures
            r == self.remainder_spec(other),
    {
        match (self, other) {
            (Wheel::Finite(x), Wheel::PositiveInfinity) => Wheel::Finite(x),
            (Wheel::Finite(x), Wheel::Finite(y)) => {
                if y == 0 {
                    Wheel::NaN
                } else {
                    let (_, m) = trunc_div_rem(x, y);
                    Wheel::Finite(m)
                }
            },
            _ => Wheel::NaN,
        }
    }
}

impl std::ops::Neg for Wheel<i64> {
    type Output = Self;

    /// Negation; see `negated_spec`.
    fn neg(self) -> (r: Self)
        ensures
            r == self.negated_spec(),
    {
        match self {
            Wheel::NaN => Wheel::NaN,
            Wheel::PositiveInfinity => Wheel::NegativeInfinity,
            Wheel::NegativeInfinity => Wheel::PositiveInfinity,
            Wheel::Finite(x) => {
                proof {
                    lemma_i64_wrapping_sub(0, x);
                }
                Wheel::Finite(0i64.wrapping_sub(x))
            },
        }
    }
}

impl vstd::std_specs::ops::AddSpecImpl for Wheel<i64> {
    open spec fn obeys_add_spec() -> bool {
        true
    }

    open spec fn add_req(self, rhs: Self) -> bool {
        true
    }

    open spec fn add_spec(self, rhs: Self) -> Self {
        self.sum_spec(rhs)
    }
}

impl vstd::std_specs::ops::SubSpecImpl for Wheel<i64> {
    open spec fn obeys_sub_spec() -> bool {
        true
    }

    open spec fn sub_req(self, rhs: Self) -> bool {
        true
    }

    open spec fn sub_spec(self, rhs: Self) -> Self {
        self.diff_spec(rhs)
    }
}

impl vstd::std_specs::ops::MulSpecImpl for Wheel<i64> {
    open spec fn obeys_mul_spec() -> bool {
        true
    }

    open spec fn mul_req(self, rhs: Self) -> bool {
        true
    }

    open spec fn mul_spec(self, rhs: Self) -> Self {
        self.prod_spec(rhs)
    }
}

impl vstd::std_specs::ops::DivSpecImpl for Wheel<i64> {
    open spec fn obeys_div_spec() -> bool {
        true
    }

    open spec fn div_req(self, rhs: Self) -> bool {
        true
    }

    open spec fn div_spec(self, rhs: Self) -> Self {
        self.quot_spec(rhs)
    }
}

impl vstd::std_specs::ops::RemSpecImpl for Wheel<i64> {
    open spec fn obeys_rem_spec() -> bool {
        true
    }

    open spec fn rem_req(self, rhs: Self) -> bool {
        true
    }

    open spec fn rem_spec(self, rhs: Self) -> Self {
        self.remainder_spec(rhs)
    }
}

impl vstd::std_specs::ops::NegSpecImpl for Wheel<i64> {
    open spec fn obeys_neg_spec() -> bool {
        true
    }

    open spec fn neg_req(self) -> bool {
        true
    }

    open spec fn neg_spec(self) -> Self {
        self.negated_spec()
    }
}

/// Quotient rounded toward zero (wrapping for `i64::MIN / -1`) and the
/// matching remainder.
fn trunc_div_rem(x: i64, y: i64) -> (r: (i64, i64))
    requires
        y != 0,
    ensures
        r.0 as int == wrap_i64(truncated_div(x as int, y as int)),
        r.1 as int == truncated_rem(x as int, y as int),
{
    let ax: u64 = if x < 0 { (0i128 - x as i128) as u64 } else { x as u64 };
    let ay: u64 = if y < 0 { (0i128 - y as i128) as u64 } else { y as u64 };
    let qa = ax / ay;
    proof {
        assert(ax as int == abs(x as int));
        assert(ay as int == abs(y as int));
        vstd::arithmetic::div_mod::lemma_div_is_ordered_by_denominator(ax as int, 1, ay as int);
        assert(qa <= ax);
        vstd::arithmetic::div_mod::lemma_fundamental_div_mod(ax as int, ay as int);
        vstd::arithmetic::div_mod::lemma_mod_bound(ax as int, ay as int);
    }
    let q: i128 = if (x < 0) != (y < 0) { 0i128 - qa as i128 } else { qa as i128 };
    let ghost qi = truncated_div(x as int, y as int);
    assert(q as int == qi);
    let ra = ax % ay;
    proof {
        vstd::arithmetic::div_mod::lemma_mod_bound(ax as int, ay as int);
    }
    let rem: i128 = if x < 0 { 0i128 - ra as i128 } else { ra as i128 };
    proof {
        assert(ra < ay);
        assert(ra <= ax);
    }
    let r = rem as i64;
    if q == 0x8000_0000_0000_0000i128 {
        proof {
            crate::wrap::lemma_wrap_i64_mod(q as int, i64::MIN as int);
            crate::wrap::lemma_wrap_i64_id(i64::MIN as int);
        }
        (i64::MIN, r)
    } else {
        proof {
            assert(q <= i64::MAX);
            crate::wrap::lemma_wrap_i64_id(q as int);
        }
        (q as i64, r)
    }
}

/// Law: the sum does not depend on the order of its arguments.
pub proof fn lemma_sum_commutative(a: Wheel<i64>, b: Wheel<i64>)
    ensures
        a.sum_spec(b) == b.sum_spec(a),
{
}

/// Law: the product does not depend on the order of its arguments.
pub proof fn lemma_prod_commutative(a: Wheel<i64>, b: Wheel<i64>)
    ensures
        a.prod_spec(b) == b.prod_spec(a),
{
}

/// Law: subtracting is adding the negation.
pub proof fn lemma_diff_is_sum_of_negation(a: Wheel<i64>, b: Wheel<i64>)
    ensures
        a.diff_spec(b) == a.sum_spec(b.negated_spec()),
{
    if let (Wheel::Finite(x), Wheel::Finite(y)) = (a, b) {
        crate::wrap::lemma_wrap_i64_id(x as int);
        crate::wrap::lemma_wrap_i64_add(x as int, -y);
        crate::wrap::lemma_wrap_i64_range(-y);
        crate::wrap::lemma_wrap_i64_range(x - y);
        crate::wrap::lemma_wrap_i64_range(x + wrap_i64(-y));
        assert(wrap_i64(x + wrap_i64(-y)) == wrap_i64(x - y));
    }
}

/// Law: negating twice gives back the value.
pub proof fn lemma_negation_involutive(a: Wheel<i64>)
    ensures
        a.negated_spec().negated_spec() == a,
{
    if let Wheel::Finite(x) = a {
        crate::wrap::lemma_wrap_i64_range(-x);
        crate::wrap::lemma_wrap_i64_id(0);
        crate::wrap::lemma_wrap_i64_id(x as int);
        crate::wrap::lemma_wrap_i64_sub(0, -x);
        assert(wrap_i64(-wrap_i64(-x)) == x);
    }
}

/// The sign of an infinity: `1` for `+inf`, `-1` for `-inf`, `0` for the
/// other values.
pub open spec fn inf_sign(w: Wheel<i64>) -> int {
    match w {
        Wheel::PositiveInfinity => 1,
        Wheel::NegativeInfinity => -1,
        _ => 0,
    }
}

/// Law (rule of signs): an infinity times a non-zero finite value, in
/// either order, is the infinity whose sign is the product of the two
/// signs, and times zero it is `NaN`; two infinities give the infinity of
/// the product of their signs.
pub proof fn lemma_prod_rule_of_signs(a: Wheel<i64>, b: Wheel<i64>)
    requires
        inf_sign(a) != 0,
    ensures
        b is Finite && b->0 != 0 ==> inf_sign(a.prod_spec(b)) == inf_sign(a) * sign(b->0 as int)
            && inf_sign(b.prod_spec(a)) == inf_sign(a) * sign(b->0 as int),
        b is Finite && b->0 == 0 ==> a.prod_spec(b) is NaN && b.prod_spec(a) is NaN,
        inf_sign(b) != 0 ==> inf_sign(a.prod_spec(b)) == inf_sign(a) * inf_sign(b),
{
    if let Wheel::Finite(x) = b {
        if x > 0 {
            assert(sign(x as int) == 1);
        } else if x < 0 {
            assert(sign(x as int) == -1);
        }
    }
    if inf_sign(b) != 0 {
        assert(inf_sign(a) == 1 || inf_sign(a) == -1);
        assert(inf_sign(b) == 1 || inf_sign(b) == -1);
        if inf_sign(a) == 1 && inf_sign(b) == 1 {
            assert(inf_sign(a) * inf_sign(b) == 1);
        } else if inf_sign(a) == 1 {
            assert(inf_sign(a) * inf_sign(b) == -1);
        } else if inf_sign(b) == 1 {
            assert(inf_sign(a) * inf_sign(b) == -1);
        } else {
            assert(inf_sign(a) * inf_sign(b) == 1);
        }
    }
}

/// Law: negating an infinite factor negates the product.
pub proof fn lemma_prod_negate_infinite(a: Wheel<i64>, b: Wheel<i64>)
    requires
        inf_sign(a) != 0,
    ensures
        a.negated_spec().prod_spec(b) == a.prod_spec(b).negated_spec(),
        b.prod_spec(a.negated_spec()) == b.prod_spec(a).negated_spec(),
{
}

/// Law: an infinity divided by a finite value keeps its sign when the
/// divisor is `0` or positive and flips it when the divisor is negative;
/// a finite value divided by an infinity is `0`.
pub proof fn lemma_quot_rule_of_signs(a: Wheel<i64>, y: i64)
    requires
        inf_sign(a) != 0,
    ensures
        inf_sign(a.quot_spec(Wheel::Finite(y))) == if y < 0 { -inf_sign(a) } else { inf_sign(a) },
        Wheel::Finite(y).quot_spec(a) == Wheel::Finite(0i64),
{
}

/// Law: negating an infinite dividend negates the quotient by a finite
/// divisor.
pub proof fn lemma_quot_negate_infinite(a: Wheel<i64>, y: i64)
    requires
        inf_sign(a) != 0,
    ensures
        a.negated_spec().quot_spec(Wheel::Finite(y)) == a.quot_spec(Wheel::Finite(y)).negated_spec(),
{
}

/// Law: `NaN` absorbs every operation, on either side.
pub proof fn lemma_nan_absorbs(b: Wheel<i64>)
    ensures
        Wheel::NaN.sum_spec(b) is NaN && b.sum_spec(Wheel::NaN) is NaN,
        Wheel::NaN.diff_spec(b) is NaN && b.diff_spec(Wheel::NaN) is NaN,
        Wheel::NaN.prod_spec(b) is NaN && b.prod_spec(Wheel::NaN) is NaN,
        Wheel::NaN.quot_spec(b) is NaN && b.quot_spec(Wheel::NaN) is NaN,
        Wheel::NaN.remainder_spec(b) is NaN && b.remainder_spec(Wheel::NaN) is NaN,
        Wheel::<i64>::NaN.negated_spec() is NaN,
{
}

/// Law: an infinity plus or minus a finite value, in either order for the
/// sum, is that infinity; the finite value minus an infinity is the
/// opposite infinity.
pub proof fn lemma_infinity_absorbs_finite(a: Wheel<i64>, x: i64)
    requires
        inf_sign(a) != 0,
    ensures
        a.sum_spec(Wheel::Finite(x)) == a,
        Wheel::Finite(x).sum_spec(a) == a,
        a.diff_spec(Wheel::Finite(x)) == a,
        Wheel::Finite(x).diff_spec(a) == a.negated_spec(),
{
}

/// Law: for finite `x` and non-zero `y` (other than `i64::MIN / -1`), the
/// quotient `q` and remainder `r` are finite with `q * y + r == x`,
/// `|r| < |y|`, and `r` zero or of the sign of `x`.
pub proof fn lemma_div_rem_finite(x: i64, y: i64)
    requires
        y != 0,
        !(x == i64::MIN && y == -1),
    ensures
        ({
            let q = Wheel::Finite(x).quot_spec(Wheel::Finite(y));
            let r = Wheel::Finite(x).remainder_spec(Wheel::Finite(y));
            &&& q is Finite
            &&& r is Finite
            &&& q->0 * y + r->0 == x
            &&& abs(r->0 as int) < abs(y as int)
            &&& (r->0 == 0 || (r->0 < 0) == (x < 0))
        }),
{
    let ax = abs(x as int);
    let ay = abs(y as int);
    vstd::arithmetic::div_mod::lemma_fundamental_div_mod(ax, ay);
    vstd::arithmetic::div_mod::lemma_mod_bound(ax, ay);
    let qa = ax / ay;
    let ra = ax % ay;
    assert(qa <= ax) by {
        vstd::arithmetic::div_mod::lemma_div_is_ordered_by_denominator(ax, 1, ay);
    }
    let qt = truncated_div(x as int, y as int);
    let rt = truncated_rem(x as int, y as int);
    assert(qt * y + rt == x) by (nonlinear_arith)
        requires
            ax == ay * qa + ra,
            ax == abs(x as int),
            ay == abs(y as int),
            qt == (if (x < 0) != (y < 0) { -qa } else { qa }),
            rt == (if x < 0 { -ra } else { ra }),
    ;
    assert(i64::MIN <= qt <= i64::MAX) by {
        if ay == 1 {
            assert(qa == ax) by (nonlinear_arith)
                requires
                    ax == ay * qa + ra,
                    0 <= ra < ay,
                    ay == 1,
            ;
        } else {
            assert(qa * 2 <= ax) by (nonlinear_arith)
                requires
                    ax == ay * qa + ra,
                    0 <= ra < ay,
                    ay >= 2,
                    qa >= 0,
            ;
        }
    }
    crate::wrap::lemma_wrap_i64_id(qt);
}

} // verus!
