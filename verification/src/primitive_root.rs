//! Search for a primitive root modulo `p`: the least `g >= 2` whose powers
//! `g^((p - 1) / q)` avoid `1` for `q = 2` and every prime factor `q` of the
//! odd part of `(p - 1) / 2`.
use vstd::prelude::*;
use vstd::arithmetic::div_mod::{lemma_fundamental_div_mod, lemma_mod_multiples_basic};
use crate::number::{
    prime, power, divides, no_factor_below, odd_part, pow_mod, lemma_divides_quotient,
    lemma_least_factor_prime, lemma_no_small_factor_prime, lemma_divides_trans,
};
use crate::sieve::lemma_prime_divides_product;
use crate::quadratic::lemma_fermat;

verus! {

/// The number whose prime factors the test uses: the odd part of `(p - 1) / 2`.
pub open spec fn test_base(p: nat) -> nat {
    odd_part(((p - 1) as nat) / 2)
}

/// `g^e mod p` avoids `1` for `e = (p - 1) / 2` and `e = (p - 1) / q`, `q`
/// each prime factor of `test_base(p)`.
pub open spec fn root_test(p: nat, g: nat) -> bool {
    &&& power(g as int, ((p - 1) as nat) / 2) % (p as int) != 1
    &&& forall|q: nat| prime(q) && divides(q, test_base(p)) ==> #[trigger] power(g as int, ((p - 1) as nat) / q) % (p as int) != 1
}

proof fn lemma_power_of_multiple(p: int, e: nat)
    requires
        p >= 1,
        e >= 1,
    ensures
        power(p, e) % p == 0,
{
    lemma_mod_multiples_basic(power(p, (e - 1) as nat), p);
    vstd::arithmetic::mul::lemma_mul_is_commutative(p, power(p, (e - 1) as nat));
}

proof fn lemma_odd_part_halves(m: nat)
    requires
        m > 0,
    ensures
        odd_part(m) % 2 == 1,
        odd_part(m) >= 1,
        divides(odd_part(m), m),
    decreases m,
{
    crate::number::lemma_odd_part(m);
    let k = crate::number::two_pow(crate::number::twos(m));
    assert(m == k * odd_part(m));
    lemma_mod_multiples_basic(k as int, odd_part(m) as int);
}

proof fn lemma_odd_prime_divides_odd_part(q: nat, m: nat)
    requires
        prime(q),
        q % 2 == 1,
        m > 0,
        divides(q, m),
    ensures
        divides(q, odd_part(m)),
    decreases m,
{
    if m % 2 == 0 {
        lemma_fundamental_div_mod(m as int, 2);
        let h = m / 2;
        assert(m == 2 * h);
        lemma_prime_divides_product(q, 2, h);
        if divides(q, 2) {
            assert(q != 2);
            assert(q > 2);
            vstd::arithmetic::div_mod::lemma_small_mod(2, q);
        }
        lemma_odd_prime_divides_odd_part(q, h);
    }
}

pub(crate) proof fn lemma_power_add(g: int, a: nat, b: nat)
    ensures
        power(g, a + b) == power(g, a) * power(g, b),
    decreases a,
{
    if a > 0 {
        lemma_power_add(g, (a - 1) as nat, b);
        assert(power(g, a + b) == g * power(g, (a - 1 + b) as nat));
        assert(g * (power(g, (a - 1) as nat) * power(g, b)) == (g * power(g, (a - 1) as nat)) * power(g, b))
            by (nonlinear_arith);
    }
}

pub(crate) proof fn lemma_power_mul(g: int, a: nat, k: nat)
    ensures
        power(g, a * k) == power(power(g, a), k),
    decreases k,
{
    if k > 0 {
        let k1 = (k - 1) as nat;
        lemma_power_mul(g, a, k1);
        assert(a * k == a * k1 + a) by (nonlinear_arith)
            requires
                k1 == k - 1,
        ;
        lemma_power_add(g, a * k1, a);
        assert(power(power(g, a), k1) * power(g, a) == power(g, a) * power(power(g, a), k1)) by (nonlinear_arith);
    } else {
        assert(a * k == 0) by (nonlinear_arith)
            requires
                k == 0,
        ;
    }
}

proof fn lemma_power_of_one(k: nat)
    ensures
        power(1, k) == 1,
    decreases k,
{
    if k > 0 {
        lemma_power_of_one((k - 1) as nat);
    }
}

pub(crate) proof fn lemma_power_one_mod(x: int, k: nat, p: int)
    requires
        p > 1,
        x % p == 1,
    ensures
        power(x, k) % p == 1,
{
    crate::number::lemma_power_mod(x, k, p);
    lemma_power_of_one(k);
    vstd::arithmetic::div_mod::lemma_small_mod(1, p as nat);
}

/// The least `o` in `1 ..= n` with `g^o mod p == 1`, given that `n` is one.
proof fn lemma_least_order(g: int, p: int, n: nat) -> (o: nat)
    requires
        p > 1,
        n >= 1,
        power(g, n) % p == 1,
    ensures
        1 <= o <= n,
        power(g, o) % p == 1,
        forall|d: nat| 1 <= d < o ==> #[trigger] power(g, d) % p != 1,
    decreases n,
{
    if exists|d: nat| 1 <= d < n && #[trigger] power(g, d) % p == 1 {
        let d = choose|d: nat| 1 <= d < n && #[trigger] power(g, d) % p == 1;
        lemma_least_order(g, p, d)
    } else {
        n
    }
}

/// The least exponent `o` with `g^o mod p == 1` divides every such exponent.
proof fn lemma_order_divides(g: int, p: int, o: nat, n: nat)
    requires
        p > 1,
        o >= 1,
        power(g, o) % p == 1,
        forall|d: nat| 1 <= d < o ==> #[trigger] power(g, d) % p != 1,
        power(g, n) % p == 1,
    ensures
        n % o == 0,
{
    lemma_fundamental_div_mod(n as int, o as int);
    let k = n / o;
    let s = n % o;
    assert(n == o * k + s);
    lemma_power_add(g, o * k, s);
    lemma_power_mul(g, o, k);
    lemma_power_one_mod(power(g, o), k, p);
    let a = power(g, o * k);
    let b = power(g, s);
    vstd::arithmetic::div_mod::lemma_mul_mod_noop(a, b, p);
    vstd::arithmetic::div_mod::lemma_mod_bound(b, p);
    vstd::arithmetic::div_mod::lemma_small_mod((b % p) as nat, p as nat);
    assert(1 * (b % p) == b % p);
    assert(b % p == 1);
    if s > 0 {
        assert(power(g, s) % p != 1);
    }
}

/// Law: for a prime `p > 2`, a number `g` that `p` does not divide and
/// that passes `root_test` has order `p - 1` modulo `p`: `g^(p-1) mod p`
/// is `1` and no smaller positive power of `g` is.
pub proof fn lemma_root_test_full_order(p: nat, g: nat)
    requires
        prime(p),
        p > 2,
        g % p != 0,
        root_test(p, g),
    ensures
        power(g as int, (p - 1) as nat) % (p as int) == 1,
        forall|d: nat| 1 <= d < p - 1 ==> #[trigger] power(g as int, d) % (p as int) != 1,
{
    let n = (p - 1) as nat;
    let pi = p as int;
    let gi = g as int;
    lemma_fermat(g, p);
    assert(p % 2 == 1) by {
        if p % 2 == 0 {
            assert(divides(2, p));
        }
    }
    assert forall|d: nat| 1 <= d < p - 1 implies #[trigger] power(gi, d) % pi != 1 by {
        if power(gi, d) % pi == 1 {
            let o = lemma_least_order(gi, pi, d);
            lemma_order_divides(gi, pi, o, n);
            lemma_fundamental_div_mod(n as int, o as int);
            let c = n / o;
            assert(n == o * c);
            assert(c >= 2) by (nonlinear_arith)
                requires
                    n == o * c,
                    o < n,
                    o >= 1,
            ;
            crate::sieve::lemma_lpf(c);
            let q = crate::sieve::lpf(c);
            let c2 = c / q;
            assert(c == q * c2);
            assert(n == q * (o * c2)) by (nonlinear_arith)
                requires
                    n == o * c,
                    c == q * c2,
            ;
            vstd::arithmetic::div_mod::lemma_div_multiples_vanish((o * c2) as int, q as int);
            assert(n / q == o * c2);
            lemma_power_mul(gi, o, c2);
            lemma_power_one_mod(power(gi, o), c2, pi);
            assert(power(gi, n / q) % pi == 1);
            if q == 2 {
                assert(power(gi, n / 2) % pi != 1);
            } else {
                assert(q % 2 == 1) by {
                    if q % 2 == 0 {
                        assert(divides(2, q));
                    }
                }
                let h = n / 2;
                lemma_fundamental_div_mod(n as int, 2);
                assert(n == 2 * h);
                lemma_mod_multiples_basic((o * c2) as int, q as int);
                assert((o * c2) * q == q * (o * c2)) by (nonlinear_arith);
                assert(divides(q, n));
                lemma_prime_divides_product(q, 2, h);
                if divides(q, 2) {
                    vstd::arithmetic::div_mod::lemma_small_mod(2, q);
                }
                assert(h > 0);
                lemma_odd_prime_divides_odd_part(q, h);
                assert(divides(q, test_base(p)));
                assert(power(gi, n / q) % pi != 1);
            }
        }
    }
}

/// The distinct prime factors of the odd `x0 >= 1`, found by trial division
/// by `3, 5, 7, ..`, after a leading `2`.
fn odd_prime_factors(x0: u64) -> (ds: Vec<u64>)
    requires
        x0 >= 1,
        x0 % 2 == 1,
        x0 <= 0x1_0000_0000,
    ensures
        ds@.len() >= 1,
        ds@[0] == 2,
        forall|i: int| 1 <= i < ds@.len() ==> prime(#[trigger] ds@[i] as nat) && divides(ds@[i] as nat, x0 as nat),
        forall|q: nat| prime(q) && divides(q, x0 as nat) ==> #[trigger] ds@.subrange(1, ds@.len() as int).contains(q as u64),
{
    let mut ds: Vec<u64> = Vec::new();
    ds.push(2);
    let mut x = x0;
    let mut i: u64 = 3;
    let ghost mut c: nat = 1;
    proof {
        assert forall|q: nat| prime(q) && #[trigger] divides(q, c) implies q < 3 by {
            vstd::arithmetic::div_mod::lemma_small_mod(1, q);
        }
    }
    while i * i <= x
        invariant
            1 <= x <= x0 <= 0x1_0000_0000,
            x0 % 2 == 1,
            3 <= i <= 0x1_0002,
            i * i <= 0x1_0002 * 0x1_0002,
            i % 2 == 1,
            x0 == c * x,
            c >= 1,
            no_factor_below(x as nat, i as nat),
            forall|q: nat| prime(q) && #[trigger] divides(q, c) ==> q < i,
            ds@.len() >= 1,
            ds@[0] == 2,
            forall|k: int| 1 <= k < ds@.len() ==> prime(#[trigger] ds@[k] as nat) && divides(ds@[k] as nat, x0 as nat) && ds@[k] < i,
            forall|q: nat| prime(q) && q < i && divides(q, x0 as nat) ==> #[trigger] ds@.subrange(1, ds@.len() as int).contains(q as u64),
        decreases 0x1_0003 - i,
    {
        proof {
            assert(i <= 0x1_0000) by (nonlinear_arith)
                requires
                    i * i <= x,
                    x <= 0x1_0000_0000,
                    i >= 3,
            ;
        }
        let ghost old_ds = ds@;
        let ghost x_start = x;
        let ghost c_start = c;
        if x % i == 0 {
            proof {
                lemma_least_factor_prime(x as nat, i as nat);
                lemma_fundamental_div_mod(x as int, i as int);
                assert(divides(x as nat, x0 as nat)) by {
                    lemma_mod_multiples_basic(c as int, x as int);
                }
                lemma_divides_trans(i as nat, x as nat, x0 as nat);
            }
            ds.push(i);
            proof {
                assert(ds@.subrange(1, ds@.len() as int) == old_ds.subrange(1, old_ds.len() as int).push(i));
            }
            while x % i == 0
                invariant
                    1 <= x <= x0 <= 0x1_0000_0000,
                    3 <= i <= 0x1_0000,
                    prime(i as nat),
                    x0 == c * x,
                    c >= 1,
                    no_factor_below(x as nat, i as nat),
                    forall|q: nat| prime(q) && #[trigger] divides(q, c) ==> q <= i,
                decreases x,
            {
                proof {
                    lemma_fundamental_div_mod(x as int, i as int);
                    assert forall|d: nat| 2 <= d < i implies !#[trigger] divides(d, (x / i) as nat) by {
                        if divides(d, (x / i) as nat) {
                            lemma_divides_quotient(d, x as nat, i as nat);
                        }
                    }
                    let c2: nat = c * (i as nat);
                    assert forall|q: nat| prime(q) && #[trigger] divides(q, c2) implies q <= i by {
                        lemma_prime_divides_product(q, c, i as nat);
                        if divides(q, i as nat) {
                            assert(q <= i) by {
                                if q > i {
                                    vstd::arithmetic::div_mod::lemma_small_mod(i as nat, q);
                                }
                            }
                        }
                    }
                    assert(x0 == c2 * (x / i)) by (nonlinear_arith)
                        requires
                            x0 == c * x,
                            x == i * (x / i),
                            c2 == c * i,
                    ;
                    assert(c2 >= 1) by (nonlinear_arith)
                        requires
                            c2 == c * i,
                            c >= 1,
                            i >= 3,
                    ;
                    assert(x / i >= 1 && x / i < x) by (nonlinear_arith)
                        requires
                            x == i * (x / i),
                            x >= 1,
                            i >= 3,
                    ;
                    c = c2;
                }
                x = x / i;
            }
        }
        proof {
            assert forall|d: nat| 2 <= d < i + 2 implies !#[trigger] divides(d, x as nat) by {
                if d == i {
                } else if d == i + 1 {
                    // even, and x divides the odd x0
                    if divides(d, x as nat) {
                        assert(divides(2, d)) by {
                            assert(d % 2 == 0);
                        }
                        lemma_divides_trans(2, d, x as nat);
                        assert(divides(x as nat, x0 as nat)) by {
                            lemma_mod_multiples_basic(c as int, x as int);
                            vstd::arithmetic::mul::lemma_mul_is_commutative(c as int, x as int);
                        }
                        lemma_divides_trans(2, x as nat, x0 as nat);
                    }
                }
            }
            assert forall|q: nat| prime(q) && #[trigger] divides(q, c) implies q < i + 2 by {}
            assert forall|k: int| 1 <= k < ds@.len() implies prime(#[trigger] ds@[k] as nat) && divides(ds@[k] as nat, x0 as nat) && ds@[k] < i + 2 by {
                if k < old_ds.len() {
                    assert(ds@[k] == old_ds[k]);
                }
            }
            assert forall|q: nat| prime(q) && q < i + 2 && divides(q, x0 as nat) implies #[trigger] ds@.subrange(1, ds@.len() as int).contains(q as u64) by {
                if q < i {
                    assert(old_ds.subrange(1, old_ds.len() as int).contains(q as u64));
                    let k = choose|k: int| 0 <= k < old_ds.subrange(1, old_ds.len() as int).len() && old_ds.subrange(1, old_ds.len() as int)[k] == q as u64;
                    assert(ds@.subrange(1, ds@.len() as int)[k] == q as u64);
                } else if q == i {
                    if x_start % i == 0 {
                        assert(ds@.subrange(1, ds@.len() as int)[old_ds.len() - 1] == q as u64);
                    } else {
                        lemma_prime_divides_product(q, c_start, x_start as nat);
                        assert(!divides(q, c_start));
                    }
                } else {
                    assert(q == i + 1);
                    assert(divides(2, q)) by {
                        assert(q % 2 == 0);
                    }
                }
            }
        }
        proof {
            assert((i + 2) * (i + 2) <= 0x1_0002 * 0x1_0002) by (nonlinear_arith)
                requires
                    i <= 0x1_0000,
            ;
        }
        i = i + 2;
    }
    let ghost old_ds = ds@;
    if x > 1 {
        proof {
            lemma_no_small_factor_prime(x as nat, i as nat);
            assert(divides(x as nat, x0 as nat)) by {
                lemma_mod_multiples_basic(c as int, x as int);
                vstd::arithmetic::mul::lemma_mul_is_commutative(c as int, x as int);
            }
        }
        ds.push(x);
    }
    proof {
        assert forall|k: int| 1 <= k < ds@.len() implies prime(#[trigger] ds@[k] as nat) && divides(ds@[k] as nat, x0 as nat) by {
            if k < old_ds.len() {
                assert(ds@[k] == old_ds[k]);
            }
        }
        assert forall|q: nat| prime(q) && divides(q, x0 as nat) implies #[trigger] ds@.subrange(1, ds@.len() as int).contains(q as u64) by {
            if q < i {
                assert(old_ds.subrange(1, old_ds.len() as int).contains(q as u64));
                let k = choose|k: int| 0 <= k < old_ds.subrange(1, old_ds.len() as int).len() && old_ds.subrange(1, old_ds.len() as int)[k] == q as u64;
                assert(ds@.subrange(1, ds@.len() as int)[k] == q as u64);
            } else {
                lemma_prime_divides_product(q, c, x as nat);
                assert(!divides(q, c));
                if x == 1 {
                    vstd::arithmetic::div_mod::lemma_small_mod(1, q);
                } else {
                    assert(q == x) by {
                        if q < x {
                            assert(!divides(q, x as nat));
                        } else if q > x {
                            vstd::arithmetic::div_mod::lemma_small_mod(x as nat, q);
                        }
                    }
                    assert(ds@.subrange(1, ds@.len() as int)[old_ds.len() - 1] == q as u64);
                }
            }
        }
    }
    ds
}

/// A primitive root modulo the prime `p`: `1` for `2`, the known roots of
/// four NTT primes, otherwise the least `g >= 2` that passes `root_test`
/// (which `p` itself passes, so the search ends by `p`).
pub fn primitive_root(p: u64) -> (r: Option<u64>)
    requires
        2 <= p <= 0x1_0000_0000,
    ensures
        p == 2 ==> r == Some(1u64),
        (p == 167772161 || p == 469762049 || p == 998244353) ==> r == Some(3u64),
        p == 754974721 ==> r == Some(11u64),
        !(p == 2 || p == 167772161 || p == 469762049 || p == 998244353 || p == 754974721) ==> {
            &&& r is Some
            &&& 2 <= r.unwrap() <= p
            &&& root_test(p as nat, r.unwrap() as nat)
            &&& forall|g: nat| 2 <= g < r.unwrap() ==> !#[trigger] root_test(p as nat, g)
            &&& (prime(p as nat) && r.unwrap() < p) ==> {
                &&& power(r.unwrap() as int, (p - 1) as nat) % (p as int) == 1
                &&& forall|d: nat| 1 <= d < p - 1 ==> #[trigger] power(r.unwrap() as int, d) % (p as int) != 1
            }
        },
{
    if p == 2 {
        return Some(1);
    }
    if p == 167772161 || p == 469762049 || p == 998244353 {
        return Some(3);
    }
    if p == 754974721 {
        return Some(11);
    }
    let ghost half = ((p - 1) / 2) as nat;
    let pm1 = p - 1;
    let mut x = pm1 >> 1;
    proof {
        assert(pm1 >> 1 == pm1 / 2) by (bit_vector);
    }
    while x % 2 == 0
        invariant
            x >= 1,
            x <= half,
            odd_part(half) == odd_part(x as nat),
        decreases x,
    {
        proof {
            assert(x >> 1 == x / 2) by (bit_vector);
        }
        x = x >> 1;
    }
    proof {
        assert(odd_part(x as nat) == x);
        assert(test_base(p as nat) == x);
    }
    let divs = odd_prime_factors(x);
    let mut g: u64 = 2;
    proof {
        assert(root_test(p as nat, p as nat)) by {
            lemma_power_of_multiple(p as int, ((p - 1) as nat) / 2);
            assert forall|q: nat| prime(q) && divides(q, test_base(p as nat)) implies #[trigger] power(p as int, ((p - 1) as nat) / q) % (p as int) != 1 by {
                lemma_odd_part_halves(half);
                assert(q <= x) by {
                    if q > x {
                        vstd::arithmetic::div_mod::lemma_small_mod(x as nat, q);
                    }
                }
                assert(q >= 2);
                assert(q <= (p - 1) as nat);
                assert(((p - 1) as nat) / q >= 1) by (nonlinear_arith)
                    requires
                        2 <= q <= (p - 1) as nat,
                ;
                lemma_power_of_multiple(p as int, ((p - 1) as nat) / q);
            }
        }
    }
    loop
        invariant
            3 <= p <= 0x1_0000_0000,
            !(p == 167772161 || p == 469762049 || p == 998244353 || p == 754974721),
            2 <= g <= p,
            x == test_base(p as nat),
            1 <= x <= half,
            half == (p - 1) / 2,
            root_test(p as nat, p as nat),
            divs@.len() >= 1,
            divs@[0] == 2,
            forall|i: int| 1 <= i < divs@.len() ==> prime(#[trigger] divs@[i] as nat) && divides(divs@[i] as nat, x as nat),
            forall|q: nat| prime(q) && divides(q, x as nat) ==> #[trigger] divs@.subrange(1, divs@.len() as int).contains(q as u64),
            forall|h: nat| 2 <= h < g ==> !#[trigger] root_test(p as nat, h),
        decreases p - g,
    {
        let mut ok = true;
        let mut i: usize = 0;
        while i < divs.len()
            invariant_except_break
                ok,
                forall|k: int| 0 <= k < i ==> #[trigger] power(g as int, ((p - 1) as nat) / (divs@[k] as nat)) % (p as int) != 1,
            invariant
                3 <= p <= 0x1_0000_0000,
                1 <= x <= half,
                half == (p - 1) / 2,
                divs@.len() >= 1,
                divs@[0] == 2,
                forall|k: int| 1 <= k < divs@.len() ==> prime(#[trigger] divs@[k] as nat) && divides(divs@[k] as nat, x as nat),
                i <= divs@.len(),
            ensures
                ok ==> forall|k: int| 0 <= k < divs@.len() ==> #[trigger] power(g as int, ((p - 1) as nat) / (divs@[k] as nat)) % (p as int) != 1,
                !ok ==> exists|k: int| 0 <= k < divs@.len() && #[trigger] power(g as int, ((p - 1) as nat) / (divs@[k] as nat)) % (p as int) == 1,
            decreases divs@.len() - i,
        {
            let d = divs[i];
            proof {
                if i > 0 {
                    assert(prime(d as nat) && divides(d as nat, x as nat));
                    assert(d <= x) by {
                        if d > x {
                            vstd::arithmetic::div_mod::lemma_small_mod(x as nat, d as nat);
                        }
                    }
                }
                assert(d >= 2);
                assert((p - 1) / (d as int) >= 1) by (nonlinear_arith)
                    requires
                        d <= p - 1,
                        d >= 1,
                ;
                assert((p - 1) * (p - 1) <= u64::MAX) by (nonlinear_arith)
                    requires
                        p <= 0x1_0000_0000,
                        p >= 1,
                ;
            }
            if pow_mod(g, (p - 1) / d, p) == 1 {
                proof {
                    assert(power(g as int, ((p - 1) as nat) / (divs@[i as int] as nat)) % (p as int) == 1);
                }
                ok = false;
                break;
            }
            i += 1;
        }
        if ok {
            proof {
                assert(power(g as int, ((p - 1) as nat) / (divs@[0] as nat)) % (p as int) != 1);
                assert forall|q: nat| prime(q) && divides(q, test_base(p as nat)) implies #[trigger] power(g as int, ((p - 1) as nat) / q) % (p as int) != 1 by {
                    let sub = divs@.subrange(1, divs@.len() as int);
                    assert(divides(q, x as nat));
                    assert(q <= x) by {
                        if q > x {
                            vstd::arithmetic::div_mod::lemma_small_mod(x as nat, q);
                        }
                    }
                    assert(sub.contains(q as u64));
                    let k = choose|k: int| 0 <= k < sub.len() && sub[k] == q as u64;
                    assert(divs@[k + 1] == q as u64);
                    assert(power(g as int, ((p - 1) as nat) / (divs@[k + 1] as nat)) % (p as int) != 1);
                }
                if prime(p as nat) && g < p {
                    vstd::arithmetic::div_mod::lemma_small_mod(g as nat, p as nat);
                    lemma_root_test_full_order(p as nat, g as nat);
                }
            }
            return Some(g);
        }
        proof {
            let k = choose|k: int| 0 <= k < divs@.len() && #[trigger] power(g as int, ((p - 1) as nat) / (divs@[k] as nat)) % (p as int) == 1;
            if k > 0 {
                let q = divs@[k] as nat;
                assert(prime(q) && divides(q, test_base(p as nat)));
                assert(power(g as int, ((p - 1) as nat) / q) % (p as int) == 1);
            }
            assert(!root_test(p as nat, g as nat));
            assert(g != p);
        }
        g += 1;
    }
}

} // verus!
