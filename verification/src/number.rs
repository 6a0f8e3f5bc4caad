//! Integer routines on `u64`: gcd and lcm, modular powers, a primality
//! test, factorisation into primes and the list of divisors.
use vstd::prelude::*;
use vstd::arithmetic::div_mod::{
    lemma_fundamental_div_mod, lemma_mod_bound, lemma_small_mod, lemma_mul_mod_noop,
    lemma_mul_mod_noop_left, lemma_mul_mod_noop_right, lemma_add_mod_noop, lemma_mod_multiples_basic,
    lemma_div_multiples_vanish, lemma_mod_twice,
};
use vstd::arithmetic::mul::{lemma_mul_is_commutative, lemma_mul_is_associative, lemma_mul_inequality};

verus! {

/// `d` divides `n` (only `0` is divided by `0`).
pub open spec fn divides(d: nat, n: nat) -> bool {
    if d == 0 {
        n == 0
    } else {
        n % d == 0
    }
}

/// Greatest common divisor by Euclid's recurrence; `gcd(0, 0) = 0`.
pub open spec fn gcd_spec(a: nat, b: nat) -> nat
    decreases b,
{
    if b == 0 {
        a
    } else {
        gcd_spec(b, a % b)
    }
}

/// `b^e`.
pub open spec fn power(b: int, e: nat) -> int
    decreases e,
{
    if e == 0 {
        1
    } else {
        b * power(b, (e - 1) as nat)
    }
}

/// `n` is a prime number.
pub open spec fn prime(n: nat) -> bool {
    n > 1 && forall|d: nat| 1 < d < n ==> !divides(d, n)
}

// ---------------------------------------------------------------------------
// gcd
// ---------------------------------------------------------------------------

proof fn lemma_divides_mod_step(d: nat, x: nat, y: nat)
    requires
        y > 0,
    ensures
        (divides(d, x) && divides(d, y)) <==> (divides(d, y) && divides(d, x % y)),
{
    if d > 0 {
        let q = x / y;
        let r = x % y;
        lemma_fundamental_div_mod(x as int, y as int);
        lemma_mod_bound(x as int, y as int);
        // x = y * q + r
        if y % d == 0 {
            lemma_mul_mod_noop_left(y as int, q as int, d as int);
            assert(((y % d) * q) as int == 0);
            lemma_small_mod(0, d);
            assert(((y * q) as int) % (d as int) == 0);
            lemma_add_mod_noop((y * q) as int, r as int, d as int);
            lemma_mod_twice(r as int, d as int);
            assert(x % d == 0 <==> r % d == 0);
        }
    } else {
        assert(!divides(0, y));
    }
}

/// Law: the common divisors of `a` and `b` are exactly the divisors of
/// `gcd(a, b)`.
pub proof fn lemma_gcd_divisors(a: nat, b: nat, d: nat)
    ensures
        divides(d, gcd_spec(a, b)) <==> (divides(d, a) && divides(d, b)),
    decreases b,
{
    if b == 0 {
        if d > 0 {
            lemma_small_mod(0, d);
        }
    } else {
        lemma_gcd_divisors(b, a % b, d);
        lemma_divides_mod_step(d, a, b);
    }
}

pub(crate) proof fn lemma_gcd_swap(a: nat, b: nat)
    ensures
        gcd_spec(a, b) == gcd_spec(b, a),
{
    if a < b {
        lemma_small_mod(a, b);
        if a > 0 {
            assert(gcd_spec(b, a) == gcd_spec(a, b % a));
        }
        assert(gcd_spec(a, b) == gcd_spec(b, a % b));
    } else if a > b {
        lemma_small_mod(b, a);
        if b > 0 {
            assert(gcd_spec(a, b) == gcd_spec(b, a % b));
        }
        assert(gcd_spec(b, a) == gcd_spec(a, b % a));
    }
}

/// The greatest common divisor of `a` and `b`.
pub fn gcd(a: u64, b: u64) -> (g: u64)
    ensures
        g == gcd_spec(a as nat, b as nat),
        forall|d: nat| #[trigger] divides(d, g as nat) <==> (divides(d, a as nat) && divides(d, b as nat)),
{
    let mut x = if a >= b { a } else { b };
    let mut y = if a >= b { b } else { a };
    proof {
        lemma_gcd_swap(a as nat, b as nat);
    }
    while y != 0
        invariant
            gcd_spec(x as nat, y as nat) == gcd_spec(a as nat, b as nat),
        decreases y,
    {
        let z = x % y;
        x = y;
        y = z;
    }
    proof {
        assert forall|d: nat| #[trigger] divides(d, x as nat) <==> (divides(d, a as nat) && divides(d, b as nat)) by {
            lemma_gcd_divisors(a as nat, b as nat, d);
        }
    }
    x
}

/// The least common multiple `a * b / gcd(a, b)`.
pub fn lcm(a: u64, b: u64) -> (l: u64)
    requires
        a > 0 || b > 0,
        a * b <= u64::MAX,
    ensures
        l == (a * b) / (gcd_spec(a as nat, b as nat) as int),
{
    let g = gcd(a, b);
    proof {
        if g == 0 {
            lemma_gcd_divisors(a as nat, b as nat, 0);
        }
    }
    a * b / g
}

// ---------------------------------------------------------------------------
// Modular powers
// ---------------------------------------------------------------------------

pub(crate) proof fn lemma_power_square(x: int, k: nat)
    ensures
        power(x, 2 * k) == power(x * x, k),
        power(x, 2 * k + 1) == x * power(x * x, k),
    decreases k,
{
    if k > 0 {
        lemma_power_square(x, (k - 1) as nat);
        assert(power(x, 2 * k) == x * (x * power(x, (2 * k - 2) as nat)));
        assert(x * (x * power(x * x, (k - 1) as nat)) == (x * x) * power(x * x, (k - 1) as nat)) by (nonlinear_arith);
    }
}

pub(crate) proof fn lemma_power_mod(x: int, k: nat, m: int)
    requires
        m > 0,
    ensures
        power(x % m, k) % m == power(x, k) % m,
    decreases k,
{
    if k > 0 {
        lemma_power_mod(x, (k - 1) as nat, m);
        lemma_mul_mod_noop(x % m, power(x % m, (k - 1) as nat), m);
        lemma_mul_mod_noop(x, power(x, (k - 1) as nat), m);
        lemma_mod_twice(x, m);
    }
}

/// `base^e mod m`, with `1` for `e = 0` (not reduced when `m = 1`).
pub fn pow_mod(base: u64, e: u64, m: u64) -> (r: u64)
    requires
        m >= 1,
        (m - 1) * (m - 1) <= u64::MAX,
    ensures
        r == if e == 0 { 1 } else { power(base as int, e as nat) % (m as int) },
{
    let mut x = base % m;
    let mut r: u64 = 1;
    let mut k = e;
    let ghost mi = m as int;
    proof {
        lemma_mod_bound(base as int, mi);
        lemma_power_mod(base as int, e as nat, mi);
    }
    while k != 0
        invariant
            m >= 1,
            (m - 1) * (m - 1) <= u64::MAX,
            mi == m as int,
            x < m,
            r < m || r == 1,
            k <= e,
            (k == 0 && e > 0) ==> r < m,
            e > 0 ==> (r * power(x as int, k as nat)) % mi == power(base as int, e as nat) % mi,
            e == 0 ==> r == 1 && k == 0,
        decreases k,
    {
        let ghost k0 = k as nat;
        let ghost x0 = x as int;
        let ghost r0 = r as int;
        proof {
            lemma_fundamental_div_mod(k as int, 2);
            let h = (k / 2) as nat;
            lemma_power_square(x0, h);
            assert(x0 * x0 <= (m - 1) * (m - 1)) by (nonlinear_arith)
                requires
                    0 <= x0 < m,
            ;
            assert(r0 * x0 <= (m - 1) * (m - 1) || r0 * x0 < m) by (nonlinear_arith)
                requires
                    0 <= x0 < m,
                    r0 < m || r0 == 1,
                    r0 >= 0,
            ;
        }
        if k % 2 == 1 {
            r = r * x % m;
        }
        x = x * x % m;
        k = k / 2;
        proof {
            let h = k as nat;
            lemma_mod_bound((x0 * x0) as int, mi);
            lemma_power_mod(x0 * x0, h, mi);
            // r0 * x0^k0 == r' * (x0*x0)^h  (mod m)
            if k0 % 2 == 1 {
                assert(k0 == 2 * h + 1);
                assert(r0 * power(x0, k0) == (r0 * x0) * power(x0 * x0, h)) by (nonlinear_arith)
                    requires
                        power(x0, k0) == x0 * power(x0 * x0, h),
                ;
                lemma_mul_mod_noop_left(r0 * x0, power(x0 * x0, h), mi);
                lemma_mul_mod_noop_right(r as int, power(x0 * x0, h), mi);
                lemma_mul_mod_noop_right(r as int, power(x as int, h), mi);
                lemma_mod_bound(r0 * x0, mi);
            } else {
                assert(k0 == 2 * h);
                lemma_mul_mod_noop_right(r as int, power(x0 * x0, h), mi);
                lemma_mul_mod_noop_right(r as int, power(x as int, h), mi);
            }
        }
    }
    proof {
        if e > 0 {
            assert(power(x as int, 0) == 1);
            lemma_small_mod(r as nat, m as nat);
        }
    }
    r
}


// ---------------------------------------------------------------------------
// Primality
// ---------------------------------------------------------------------------

/// The odd part of `m`: `m` with every factor 2 taken out (`0` stays `0`).
pub open spec fn odd_part(m: nat) -> nat
    decreases m,
{
    if m > 0 && m % 2 == 0 {
        odd_part(m / 2)
    } else {
        m
    }
}

/// The number of factors 2 in `m` (`0` for `m = 0`).
pub open spec fn twos(m: nat) -> nat
    decreases m,
{
    if m > 0 && m % 2 == 0 {
        twos(m / 2) + 1
    } else {
        0
    }
}

/// `2^j`.
pub open spec fn two_pow(j: nat) -> nat
    decreases j,
{
    if j == 0 {
        1
    } else {
        2 * two_pow((j - 1) as nat)
    }
}

pub(crate) proof fn lemma_odd_part(m: nat)
    requires
        m > 0,
    ensures
        odd_part(m) % 2 == 1,
        m == two_pow(twos(m)) * odd_part(m),
        twos(m) <= m,
    decreases m,
{
    if m % 2 == 0 {
        lemma_odd_part(m / 2);
        lemma_fundamental_div_mod(m as int, 2);
        assert(two_pow(twos(m)) == 2 * two_pow(twos(m / 2)));
        assert(m == 2 * (m / 2));
        assert(2 * (two_pow(twos(m / 2)) * odd_part(m / 2)) == (2 * two_pow(twos(m / 2))) * odd_part(m / 2)) by (nonlinear_arith);
        assert(m / 2 == two_pow(twos(m / 2)) * odd_part(m / 2));
        assert(odd_part(m) == odd_part(m / 2));
        assert(twos(m) == twos(m / 2) + 1);
        assert(m == 2 * (two_pow(twos(m / 2)) * odd_part(m / 2)));
        assert(two_pow(twos(m)) * odd_part(m) == (2 * two_pow(twos(m / 2))) * odd_part(m / 2));
    } else {
        assert(two_pow(0) == 1);
        assert(twos(m) == 0);
        assert(odd_part(m) == m);
        assert(two_pow(twos(m)) * odd_part(m) == 1 * m);
    }
}

/// Whether `n` is prime, by trial division by every `i` with `i * i <= n`.
pub fn is_prime(n: u64) -> (b: bool)
    ensures
        b == prime(n as nat),
{
    if n <= 1 {
        return false;
    }
    let mut i: u64 = 2;
    while i <= n / i
        invariant
            2 <= n,
            2 <= i <= n,
            no_factor_below(n as nat, i as nat),
        decreases n - i,
    {
        proof {
            assert(i * i <= n) by (nonlinear_arith)
                requires
                    i <= n / i,
                    i > 0,
            ;
            assert(i < n) by (nonlinear_arith)
                requires
                    i * i <= n,
                    i >= 2,
            ;
        }
        if n % i == 0 {
            proof {
                assert(divides(i as nat, n as nat) && 1 < i < n);
            }
            return false;
        }
        proof {
            assert forall|d: nat| 2 <= d < i + 1 implies !#[trigger] divides(d, n as nat) by {
                if d == i {
                    assert(n % i != 0);
                }
            }
        }
        i += 1;
    }
    proof {
        assert(i * i > n) by (nonlinear_arith)
            requires
                i > n / i,
                i > 0,
        ;
        lemma_no_small_factor_prime(n as nat, i as nat);
    }
    true
}


// ---------------------------------------------------------------------------
// Factorisation
// ---------------------------------------------------------------------------

/// Product of the elements.
pub open spec fn seq_prod(s: Seq<u64>) -> int
    decreases s.len(),
{
    if s.len() == 0 {
        1
    } else {
        seq_prod(s.drop_last()) * s.last()
    }
}

/// No number in `2 .. i` divides `x`.
pub open spec fn no_factor_below(x: nat, i: nat) -> bool {
    forall|d: nat| 2 <= d < i ==> !#[trigger] divides(d, x)
}

pub(crate) proof fn lemma_divides_trans(d: nat, e: nat, x: nat)
    requires
        d > 0,
        e > 0,
        divides(d, e),
        divides(e, x),
    ensures
        divides(d, x),
{
    lemma_fundamental_div_mod(e as int, d as int);
    lemma_fundamental_div_mod(x as int, e as int);
    let a = e / d;
    let b = x / e;
    assert(x == d * (a * b)) by (nonlinear_arith)
        requires
            e == d * a,
            x == e * b,
    ;
    lemma_mod_multiples_basic((a * b) as int, d as int);
    lemma_mul_is_commutative(d as int, (a * b) as int);
}

pub(crate) proof fn lemma_divides_quotient(d: nat, x: nat, i: nat)
    requires
        d > 0,
        i > 0,
        x % i == 0,
        divides(d, x / i),
    ensures
        divides(d, x),
{
    lemma_fundamental_div_mod(x as int, i as int);
    lemma_fundamental_div_mod((x / i) as int, d as int);
    let q = x / i;
    let c = q / d;
    assert(x == d * (c * i)) by (nonlinear_arith)
        requires
            x == i * q,
            q == d * c,
    ;
    lemma_mod_multiples_basic((c * i) as int, d as int);
    lemma_mul_is_commutative(d as int, (c * i) as int);
}

/// A divisor `i` of `x` with no factor of `x` below it is prime.
pub(crate) proof fn lemma_least_factor_prime(x: nat, i: nat)
    requires
        i >= 2,
        divides(i, x),
        x > 0,
        no_factor_below(x, i),
    ensures
        prime(i),
{
    assert forall|d: nat| 1 < d < i implies !divides(d, i) by {
        if divides(d, i) {
            lemma_divides_trans(d, i, x);
        }
    }
}

/// A number above 1 with no factor below `i`, where `i * i > x`, is prime.
pub(crate) proof fn lemma_no_small_factor_prime(x: nat, i: nat)
    requires
        x > 1,
        i >= 2,
        i * i > x,
        no_factor_below(x, i),
    ensures
        prime(x),
{
    assert forall|d: nat| 1 < d < x implies !divides(d, x) by {
        if divides(d, x) {
            lemma_fundamental_div_mod(x as int, d as int);
            let e = x / d;
            assert(x == d * e);
            assert(e >= 2) by (nonlinear_arith)
                requires
                    x == d * e,
                    d < x,
                    d > 1,
            ;
            lemma_mod_multiples_basic(d as int, e as int);
            assert(divides(e, x)) by {
                lemma_mul_is_commutative(d as int, e as int);
            }
            if d <= e {
                assert(d * d <= x) by (nonlinear_arith)
                    requires
                        x == d * e,
                        d <= e,
                        d > 0,
                ;
                assert(d < i) by (nonlinear_arith)
                    requires
                        d * d <= x,
                        i * i > x,
                        d > 0,
                        i > 0,
                ;
            } else {
                assert(e * e <= x) by (nonlinear_arith)
                    requires
                        x == d * e,
                        e < d,
                        e > 0,
                ;
                assert(e < i) by (nonlinear_arith)
                    requires
                        e * e <= x,
                        i * i > x,
                        e > 0,
                        i > 0,
                ;
            }
        }
    }
}

/// The prime factors of `n` in non-decreasing order, each as often as it
/// divides `n` (`[]` for `1`, `[0]` for `0`).
pub fn prime_division(n: u64) -> (fs: Vec<u64>)
    ensures
        n == 0 ==> fs@ == seq![0u64],
        n >= 1 ==> seq_prod(fs@) == n,
        n >= 1 ==> forall|k: int| 0 <= k < fs@.len() ==> prime(#[trigger] fs@[k] as nat),
        forall|a: int, b: int| 0 <= a <= b < fs@.len() ==> fs@[a] <= fs@[b],
{
    let mut fs: Vec<u64> = Vec::new();
    let mut x = n;
    let mut i: u64 = 2;
    if n == 0 {
        fs.push(0);
        return fs;
    }
    while i <= x / i
        invariant
            n >= 1,
            x >= 1,
            2 <= i,
            seq_prod(fs@) * x == n,
            no_factor_below(x as nat, i as nat),
            forall|k: int| 0 <= k < fs@.len() ==> prime(#[trigger] fs@[k] as nat) && fs@[k] < i,
            forall|a: int, b: int| 0 <= a <= b < fs@.len() ==> fs@[a] <= fs@[b],
            i <= 0x1_0000_0000,
        decreases 0x1_0000_0001 - i,
    {
        proof {
            assert(i * i <= x) by (nonlinear_arith)
                requires
                    i <= x / i,
                    i > 0,
            ;
            assert(i < 0x1_0000_0000) by (nonlinear_arith)
                requires
                    i * i <= x,
                    x <= u64::MAX,
                    i > 0,
            ;
        }
        while x % i == 0
            invariant
                n >= 1,
                x >= 1,
                2 <= i,
                i < 0x1_0000_0000,
                seq_prod(fs@) * x == n,
                no_factor_below(x as nat, i as nat),
                forall|k: int| 0 <= k < fs@.len() ==> prime(#[trigger] fs@[k] as nat) && fs@[k] <= i,
                forall|a: int, b: int| 0 <= a <= b < fs@.len() ==> fs@[a] <= fs@[b],
                i <= 0x1_0000_0000,
            decreases x,
        {
            proof {
                lemma_least_factor_prime(x as nat, i as nat);
                lemma_fundamental_div_mod(x as int, i as int);
                assert forall|d: nat| 2 <= d < i implies !#[trigger] divides(d, (x / i) as nat) by {
                    if divides(d, (x / i) as nat) {
                        lemma_divides_quotient(d, x as nat, i as nat);
                    }
                }
            }
            let ghost old_fs = fs@;
            let ghost x0 = x;
            fs.push(i);
            x = x / i;
            proof {
                assert(fs@.drop_last() =~= old_fs);
                assert(seq_prod(fs@) == seq_prod(old_fs) * i);
                assert(seq_prod(old_fs) * (i * x) == (seq_prod(old_fs) * i) * x) by (nonlinear_arith);
                assert(x0 == i * x);
                assert(x >= 1) by (nonlinear_arith)
                    requires
                        x0 == i * x,
                        x0 >= 1,
                ;
                assert(seq_prod(old_fs) * x0 == n);
                assert(x < x0) by (nonlinear_arith)
                    requires
                        x0 == i * x,
                        i >= 2,
                        x >= 1,
                ;
            }
        }
        proof {
            assert forall|d: nat| 2 <= d < i + 1 implies !#[trigger] divides(d, x as nat) by {
                if d == i {
                    assert(x % i != 0);
                }
            }
        }
        i += 1;
    }
    if x != 1 {
        proof {
            assert(i * i > x) by (nonlinear_arith)
                requires
                    i > x / i,
                    i > 0,
            ;
            lemma_no_small_factor_prime(x as nat, i as nat);
        }
        let ghost old_fs = fs@;
        fs.push(x);
        proof {
            assert(fs@.drop_last() =~= old_fs);
            assert(x >= i) by {
                if x < i {
                    assert(divides(x as nat, x as nat)) by {
                        lemma_mod_multiples_basic(1, x as int);
                    }
                }
            }
        }
    }
    fs
}


// ---------------------------------------------------------------------------
// Divisors
// ---------------------------------------------------------------------------

proof fn lemma_cofactor(n: nat, d: nat)
    requires
        d >= 1,
        n % d == 0,
        n >= 1,
    ensures
        (n / d) * d == n,
        n / d >= 1,
        n % (n / d) == 0,
        n / (n / d) == d,
{
    lemma_fundamental_div_mod(n as int, d as int);
    let e = n / d;
    assert(n == d * e);
    assert(e >= 1) by (nonlinear_arith)
        requires
            n == d * e,
            n >= 1,
            d >= 1,
    ;
    lemma_mul_is_commutative(d as int, e as int);
    lemma_mod_multiples_basic(d as int, e as int);
    lemma_div_multiples_vanish(d as int, e as int);
}

/// The divisors of `n` in increasing order (`[]` for `0`).
pub fn divisors(n: u64) -> (ds: Vec<u64>)
    ensures
        forall|a: int, b: int| 0 <= a < b < ds@.len() ==> ds@[a] < ds@[b],
        forall|d: u64| ds@.contains(d) <==> (n >= 1 && d >= 1 && n % d == 0),
{
    let mut small: Vec<u64> = Vec::new();
    let mut big: Vec<u64> = Vec::new();
    let mut k: u64 = 1;
    proof {
        assert forall|e: u64| !(e >= 1 && #[trigger] (n % e) == 0 && n / e < 1 && n >= 1) by {
            if e >= 1 && n % e == 0 && n >= 1 {
                lemma_cofactor(n as nat, e as nat);
            }
        }
    }
    while (k as u128) * (k as u128) < n as u128
        invariant
            1 <= k,
            k as int * k as int <= u64::MAX as int * u64::MAX as int,
            (k - 1) * (k - 1) < n || k == 1,
            forall|a: int, b: int| 0 <= a < b < small@.len() ==> small@[a] < small@[b],
            forall|a: int, b: int| 0 <= a < b < big@.len() ==> big@[a] > big@[b],
            forall|d: u64| small@.contains(d) <==> (1 <= d < k && n % d == 0),
            forall|e: u64| big@.contains(e) <==> (e >= 1 && n % e == 0 && n / e < k && n >= 1),
            forall|a: int| 0 <= a < small@.len() ==> #[trigger] small@[a] < k && small@[a] * small@[a] < n,
            forall|a: int| 0 <= a < big@.len() ==> #[trigger] big@[a] * big@[a] > n,
            forall|a: int| 0 <= a < big@.len() ==> n / #[trigger] big@[a] < k,
        decreases n - k,
    {
        proof {
            assert(k < n) by (nonlinear_arith)
                requires
                    k * k < n,
                    k >= 1,
            ;
        }
        if n % k == 0 {
            let e = n / k;
            proof {
                lemma_cofactor(n as nat, k as nat);
                assert(e * e > n) by (nonlinear_arith)
                    requires
                        e * k == n,
                        k * k < n,
                        k >= 1,
                ;
                assert(e > k) by (nonlinear_arith)
                    requires
                        e * k == n,
                        k * k < n,
                        k >= 1,
                ;
            }
            let ghost os = small@;
            let ghost ob = big@;
            small.push(k);
            big.push(e);
            proof {
                assert(small@ == os.push(k));
                assert forall|d: u64| small@.contains(d) <==> (1 <= d < k + 1 && n % d == 0) by {
                    if small@.contains(d) && d != k {
                        let j = small@.index_of(d);
                        assert(j < os.len());
                        assert(os[j] == d);
                        assert(os.contains(d));
                    }
                    if 1 <= d < k && n % d == 0 {
                        assert(os.contains(d));
                        let j = os.index_of(d);
                        assert(small@[j] == d);
                    }
                    if d == k {
                        assert(small@[small@.len() - 1] == k);
                    }
                }
                assert(big@ == ob.push(e));
                assert(n % k == 0);
                assert forall|x: u64| big@.contains(x) <==> (x >= 1 && n % x == 0 && n / x < k + 1 && n >= 1) by {
                    if big@.contains(x) && x != e {
                        let j = big@.index_of(x);
                        assert(j < ob.len());
                        assert(ob[j] == x);
                        assert(ob.contains(x));
                    }
                    if x >= 1 && n % x == 0 && n / x < k && n >= 1 {
                        assert(ob.contains(x));
                        let j = ob.index_of(x);
                        assert(big@[j] == x);
                    }
                    if x >= 1 && n % x == 0 && n / x == k {
                        lemma_cofactor(n as nat, x as nat);
                        assert(x == e);
                    }
                    if x == e {
                        assert(big@[big@.len() - 1] == e);
                    }
                }
                assert forall|a: int, b: int| 0 <= a < b < big@.len() implies big@[a] > big@[b] by {
                    if b == big@.len() - 1 {
                        assert(ob.contains(ob[a]));
                        assert(n / ob[a] < k);
                        lemma_cofactor(n as nat, ob[a] as nat);
                        assert(ob[a] > e) by {
                            if ob[a] <= e {
                                assert(n / ob[a] >= n / e) by {
                                    vstd::arithmetic::div_mod::lemma_div_is_ordered_by_denominator(n as int, ob[a] as int, e as int);
                                }
                            }
                        }
                    }
                }
            }
        } else {
            proof {
                assert forall|d: u64| small@.contains(d) <==> (1 <= d < k + 1 && n % d == 0) by {}
                assert forall|x: u64| big@.contains(x) <==> (x >= 1 && n % x == 0 && n / x < k + 1 && n >= 1) by {
                    if x >= 1 && n % x == 0 && n / x == k && n >= 1 {
                        lemma_cofactor(n as nat, x as nat);
                    }
                }
            }
        }
        proof {
            assert((k + 1) * (k + 1) <= u64::MAX as int * u64::MAX as int) by (nonlinear_arith)
                requires
                    k < u64::MAX,
                    k >= 1,
            ;
        }
        k += 1;
    }
    let mut ds = small;
    let ghost sm = ds@;
    if (k as u128) * (k as u128) == n as u128 {
        ds.push(k);
    }
    let ghost mid = ds@;
    let mut j = big.len();
    while j > 0
        invariant
            j <= big@.len(),
            ds@.len() == mid.len() + (big@.len() - j),
            forall|a: int| 0 <= a < mid.len() ==> ds@[a] == mid[a],
            forall|b: int| mid.len() <= b < ds@.len() ==> #[trigger] ds@[b] == big@[big@.len() - 1 - (b - mid.len())],
        decreases j,
    {
        j -= 1;
        ds.push(big[j]);
    }
    proof {
        let kk = k as int;
        assert(kk * kk >= n);
        let has_mid = mid.len() > sm.len();
        assert(has_mid ==> kk * kk == n && mid[sm.len() as int] == k);
        let bl = big@.len() as int;
        let ml = mid.len() as int;
        assert forall|a: int| 0 <= a < ds@.len() implies
            (#[trigger] ds@[a] >= 1 && n % ds@[a] == 0 && n >= 1)
            && (a < sm.len() ==> ds@[a] * ds@[a] < n && ds@[a] == sm[a])
            && (sm.len() <= a < ml ==> ds@[a] * ds@[a] == n)
            && (ml <= a ==> ds@[a] * ds@[a] > n && ds@[a] == big@[bl - 1 - (a - ml)]) by {
            if a < sm.len() {
                assert(ds@[a] == mid[a]);
                assert(mid[a] == sm[a]);
                assert(sm.contains(sm[a]));
                assert(sm[a] * sm[a] < n);
            } else if a < ml {
                assert(ds@[a] == k);
                assert(n == kk * kk);
                lemma_mod_multiples_basic(kk, kk);
                assert(n >= 1) by (nonlinear_arith)
                    requires
                        n == kk * kk,
                        kk >= 1,
                ;
            } else {
                let e = big@[bl - 1 - (a - ml)];
                assert(ds@[a] == e);
                assert(big@.contains(e));
                assert(e * e > n);
            }
        }
        assert forall|a: int, b: int| 0 <= a < b < ds@.len() implies ds@[a] < ds@[b] by {
            let x = ds@[a];
            let y = ds@[b];
            if b < sm.len() {
            } else if ml <= a {
            } else {
                assert(x * x < y * y);
                assert(x < y) by (nonlinear_arith)
                    requires
                        x * x < y * y,
                        x >= 0,
                        y >= 0,
                ;
            }
        }
        assert forall|d: u64| ds@.contains(d) <==> (n >= 1 && d >= 1 && n % d == 0) by {
            if ds@.contains(d) {
                let a = ds@.index_of(d);
                assert(ds@[a] == d);
            }
            if n >= 1 && d >= 1 && n % d == 0 {
                if d < k {
                    assert(sm.contains(d));
                    let a = sm.index_of(d);
                    assert(ds@[a] == d);
                } else if d == k && kk * kk == n {
                    assert(ds@[sm.len() as int] == d);
                } else {
                    lemma_cofactor(n as nat, d as nat);
                    let q = n / d;
                    assert(q < k) by {
                        if q >= k {
                            assert(q * d >= kk * kk) by (nonlinear_arith)
                                requires
                                    q >= kk,
                                    d >= kk,
                                    kk >= 0,
                            ;
                            if d == k {
                                assert(kk * kk > n);
                            } else {
                                assert(q * d > kk * kk) by (nonlinear_arith)
                                    requires
                                        q >= kk,
                                        d > kk,
                                        kk >= 1,
                            ;
                            }
                        }
                    }
                    assert(big@.contains(d));
                    let c = big@.index_of(d);
                    let a = ml + (bl - 1 - c);
                    assert(ds@[a] == big@[bl - 1 - (a - ml)]);
                    assert(ds@[a] == d);
                }
            }
        }
    }
    ds
}

} // verus!
