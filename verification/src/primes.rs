//! Primes up to a limit by the linear sieve, trial-division factorisation,
//! a primality test, and modular inverses.
use vstd::prelude::*;
use vstd::arithmetic::div_mod::{lemma_fundamental_div_mod, lemma_mod_multiples_basic};
use crate::number::{
    prime, power, gcd_spec, seq_prod, divides, no_factor_below, lemma_divides_quotient,
    lemma_least_factor_prime, lemma_no_small_factor_prime,
};
use vstd::arithmetic::div_mod::{lemma_mod_bound, lemma_mod_twice, lemma_mul_mod_noop_left};
use crate::sieve::{
    lpf, primes_upto, linear_sieve, lemma_lpf, lemma_lpf_quotient, lemma_power_exceeds,
};

verus! {

/// Product of `p^e` over the pairs `(p, e)`.
pub open spec fn factor_prod(s: Seq<(usize, usize)>) -> int
    decreases s.len(),
{
    if s.len() == 0 {
        1
    } else {
        factor_prod(s.drop_last()) * power(s.last().0 as int, s.last().1 as nat)
    }
}

/// The primes up to a limit, with the least prime factor of each number up
/// to it.
pub struct LinearSieve {
    limit: usize,
    primes: Vec<usize>,
    table: Vec<usize>,
}

impl LinearSieve {
    /// The largest number the sieve knows.
    pub closed spec fn limit(&self) -> nat {
        self.limit as nat
    }

    pub closed spec fn wf(&self) -> bool {
        &&& 1 <= self.limit < usize::MAX
        &&& self.table@.len() == self.limit + 1
        &&& self.table@[0] == 0
        &&& self.table@[1] == 0
        &&& forall|m: int| 2 <= m <= self.limit ==> #[trigger] self.table@[m] == lpf(m as nat)
        &&& primes_upto(self.primes@, self.limit as nat)
    }

    /// Sieves the numbers up to `limit`.
    pub fn new(limit: usize) -> (s: Self)
        requires
            1 <= limit < usize::MAX,
        ensures
            s.wf(),
            s.limit() == limit,
    {
        let (primes, table) = linear_sieve(limit);
        LinearSieve { limit, primes, table }
    }

    /// Whether `n` is prime.
    pub fn is_prime(&self, n: usize) -> (b: bool)
        requires
            self.wf(),
            n <= self.limit(),
        ensures
            b == prime(n as nat),
    {
        proof {
            if n >= 2 {
                lemma_lpf(n as nat);
            }
        }
        n > 1 && self.table[n] == n
    }

    /// The primes up to the limit, in increasing order.
    pub fn primes(&self) -> (ps: Vec<usize>)
        requires
            self.wf(),
        ensures
            primes_upto(ps@, self.limit()),
    {
        self.primes.clone()
    }

    /// The least prime factor of `n` (`0` for `0` and `1`).
    pub fn least_prime_factor(&self, n: usize) -> (p: usize)
        requires
            self.wf(),
            n <= self.limit(),
        ensures
            p == if n < 2 { 0 } else { lpf(n as nat) },
    {
        self.table[n]
    }

    /// The factorisation of `n` as pairs (prime, exponent), primes
    /// increasing (`[]` for `0` and `1`).
    pub fn prime_division(&self, n: usize) -> (fs: Vec<(usize, usize)>)
        requires
            self.wf(),
            n <= self.limit(),
        ensures
            n < 2 ==> fs@.len() == 0,
            n >= 1 ==> factor_prod(fs@) == n,
            forall|i: int| 0 <= i < fs@.len() ==> prime(#[trigger] fs@[i].0 as nat) && fs@[i].1 >= 1,
            forall|i: int, j: int| 0 <= i < j < fs@.len() ==> fs@[i].0 < fs@[j].0,
    {
        let ghost n0 = n;
        let mut n = n;
        let mut divisors: Vec<(usize, usize)> = Vec::new();
        while n > 1
            invariant
                self.wf(),
                n <= self.limit(),
                n0 == 0 ==> n == 0 && divisors@.len() == 0,
                n0 == 1 ==> divisors@.len() == 0,
                n0 >= 1 ==> n >= 1 && factor_prod(divisors@) * n == n0,
                forall|i: int| 0 <= i < divisors@.len() ==> prime(#[trigger] divisors@[i].0 as nat) && divisors@[i].1 >= 1,
                forall|i: int, j: int| 0 <= i < j < divisors@.len() ==> divisors@[i].0 < divisors@[j].0,
                n >= 2 && divisors@.len() > 0 ==> divisors@.last().0 < lpf(n as nat),
            decreases n,
        {
            let ghost ns = n;
            proof {
                lemma_lpf(n as nat);
            }
            let p = self.table[n];
            n = n / p;
            let mut e: usize = 1;
            proof {
                assert(power(p as int, 1) == p) by {
                    assert(power(p as int, 0) == 1);
                }
                assert(1 <= n <= ns) by (nonlinear_arith)
                    requires
                        ns == p * n,
                        ns >= 2,
                        p >= 2,
                ;
                assert(ns == power(p as int, e as nat) * n);
                if n >= 2 {
                    lemma_lpf_quotient(ns as nat, p as nat);
                }
                lemma_power_exceeds(p as int, e as nat);
            }
            while self.table[n] == p
                invariant
                    self.wf(),
                    2 <= p <= ns <= self.limit(),
                    prime(p as nat),
                    p == lpf(ns as nat),
                    1 <= n <= ns,
                    1 <= e,
                    ns == power(p as int, e as nat) * n,
                    power(p as int, e as nat) > e,
                    n >= 2 ==> lpf(n as nat) >= p,
                decreases n,
            {
                let ghost nb = n;
                proof {
                    lemma_lpf(n as nat);
                }
                n = n / p;
                proof {
                    assert(power(p as int, (e + 1) as nat) == p * power(p as int, e as nat));
                    assert(ns == power(p as int, (e + 1) as nat) * n) by (nonlinear_arith)
                        requires
                            ns == power(p as int, e as nat) * nb,
                            nb == p * n,
                            power(p as int, (e + 1) as nat) == p * power(p as int, e as nat),
                    ;
                    assert(n >= 1 && n < nb) by (nonlinear_arith)
                        requires
                            nb == p * n,
                            nb >= 2,
                            p >= 2,
                    ;
                    if n >= 2 {
                        lemma_lpf_quotient(nb as nat, p as nat);
                    }
                    lemma_power_exceeds(p as int, (e + 1) as nat);
                    assert(power(p as int, (e + 1) as nat) <= ns) by (nonlinear_arith)
                        requires
                            ns == power(p as int, (e + 1) as nat) * n,
                            n >= 1,
                            power(p as int, (e + 1) as nat) >= 0,
                    ;
                }
                e += 1;
            }
            let ghost old_divs = divisors@;
            divisors.push((p, e));
            proof {
                assert(divisors@.drop_last() =~= old_divs);
                assert(factor_prod(divisors@) == factor_prod(old_divs) * power(p as int, e as nat));
                assert(factor_prod(divisors@) * n == n0) by (nonlinear_arith)
                    requires
                        factor_prod(divisors@) == factor_prod(old_divs) * power(p as int, e as nat),
                        factor_prod(old_divs) * ns == n0,
                        ns == power(p as int, e as nat) * n,
                ;
                if n >= 2 {
                    lemma_lpf(n as nat);
                    assert(self.table@[n as int] == lpf(n as nat));
                }
            }
        }
        divisors
    }
}

/// `a^e mod m`, with `1` for `e = 0` (not reduced when `m = 1`).
pub fn pow_mod(a: u64, e: u64, m: u64) -> (r: u64)
    requires
        m >= 1,
        e <= i64::MAX,
        (m - 1) * (m - 1) <= i64::MAX,
    ensures
        r == if e == 0 { 1 } else { power(a as int, e as nat) % (m as int) },
{
    crate::number::pow_mod(a, e, m)
}

/// `a^(m - 2) mod m`: the inverse of `a` modulo a prime `m`.
pub fn inv_mod(a: u64, m: u64) -> (r: u64)
    requires
        m >= 2,
        (m - 1) * (m - 1) <= i64::MAX,
    ensures
        r == if m == 2 { 1 } else { power(a as int, (m - 2) as nat) % (m as int) },
{
    proof {
        assert(m - 2 <= i64::MAX) by (nonlinear_arith)
            requires
                (m - 1) * (m - 1) <= i64::MAX,
                m >= 2,
        ;
    }
    pow_mod(a, m - 2, m)
}

/// `(g, x)`: `g = gcd(a, b)` and `x` in `0 .. b / g` with `a * x = g`
/// modulo `b`; `(b, 0)` for `a = 0`.
pub fn ext_gcd(a: u64, b: u64) -> (r: (u64, u64))
    requires
        b <= i64::MAX,
        a == 0 || b >= 1,
    ensures
        r.0 == gcd_spec(a as nat, b as nat),
        a == 0 ==> r == (b, 0u64),
        b >= 1 ==> r.0 >= 1 && r.1 < (b as int) / (r.0 as int),
        b >= 1 ==> (a * r.1) % (b as int) == (r.0 as int) % (b as int),
{
    if a == 0 {
        proof {
            assert(gcd_spec(0, b as nat) == gcd_spec(b as nat, 0)) by {
                if b > 0 {
                    vstd::arithmetic::div_mod::lemma_small_mod(0, b as nat);
                    assert(gcd_spec(b as nat, 0) == b);
                }
            }
        }
        return (b, 0);
    }
    let a0 = a % b;
    let (g, x) = crate::inv_gcd::inv_gcd(a0 as i64, b as i64);
    proof {
        lemma_mod_bound(a as int, b as int);
        lemma_mod_twice(a as int, b as int);
        assert(gcd_spec(a0 as nat, b as nat) == gcd_spec(b as nat, (a0 % b) as nat));
        assert(gcd_spec(a as nat, b as nat) == gcd_spec(b as nat, (a % b) as nat));
        lemma_mul_mod_noop_left(a as int, x as int, b as int);
        crate::number::lemma_gcd_divisors(a0 as nat, b as nat, 0);
    }
    (g as u64, x as u64)
}

/// The inverse of `a` modulo `m` when they are coprime.
pub fn inv_gcd(a: u64, m: u64) -> (r: Option<u64>)
    requires
        m <= i64::MAX,
        a == 0 || m >= 1,
    ensures
        r.is_some() == (gcd_spec(a as nat, m as nat) == 1),
        r.is_some() ==> r.unwrap() < m && (a * r.unwrap()) % (m as int) == 1int % (m as int),
{
    let (g, x) = ext_gcd(a, m);
    if g == 1 {
        Some(x)
    } else {
        None
    }
}

/// `p * p`.
pub open spec fn square(p: nat) -> nat {
    p * p
}

/// The last element of `s` does not occur exactly twice at its end.
pub open spec fn last_not_doubled(s: Seq<u64>) -> bool {
    (s.len() >= 2 && s[s.len() - 2] == s.last()) ==> (s.len() >= 3 && s[s.len() - 3] == s.last())
}

/// Trial division by `2, 3, 4, ..` while the square of the divisor is below
/// what is left, which is then appended: the prime factors of `n` in
/// non-decreasing order, each as often as it divides `n`, except that when
/// the largest prime `p` divides `n` exactly twice, `p * p` stands in place
/// of `p, p` (`[]` for `0` and `1`).
pub fn prime_division(n: u64) -> (fs: Vec<u64>)
    requires
        n <= 0xFFFF_FFFE_0000_0001,
    ensures
        n < 2 ==> fs@.len() == 0,
        n >= 2 ==> fs@.len() >= 1 && seq_prod(fs@) == n,
        forall|a: int, b: int| 0 <= a <= b < fs@.len() ==> fs@[a] <= fs@[b],
        forall|i: int| 0 <= i < fs@.len() - 1 ==> prime(#[trigger] fs@[i] as nat),
        n >= 2 ==> (prime(fs@.last() as nat) && last_not_doubled(fs@)) || (exists|p: nat|
            prime(p) && #[trigger] square(p) == fs@.last() && forall|i: int| 0 <= i < fs@.len() - 1 ==> fs@[i] < p),
{
    let mut divisors: Vec<u64> = Vec::new();
    let mut x = n;
    let mut k: u64 = 2;
    if n < 2 {
        return divisors;
    }
    while x > 1 && k * k < x
        invariant
            2 <= n <= 0xFFFF_FFFE_0000_0001,
            1 <= x <= n,
            2 <= k <= 0xFFFF_FFFF,
            k * k <= 0xFFFF_FFFE_0000_0001,
            seq_prod(divisors@) * x == n,
            no_factor_below(x as nat, k as nat),
            forall|i: int| 0 <= i < divisors@.len() ==> prime(#[trigger] divisors@[i] as nat) && divisors@[i] < k,
            forall|a: int, b: int| 0 <= a <= b < divisors@.len() ==> divisors@[a] <= divisors@[b],
            x == 1 ==> last_not_doubled(divisors@),
        decreases 0x1_0000_0000 - k,
    {
        proof {
            assert(k < 0xFFFF_FFFF) by (nonlinear_arith)
                requires
                    k * k < x,
                    x <= 0xFFFF_FFFE_0000_0001,
                    k >= 2,
            ;
        }
        let ghost xs = x;
        let ghost len0 = divisors@.len();
        let ghost mut e: nat = 0;
        proof {
            assert(power(k as int, 0) == 1);
        }
        while x % k == 0
            invariant
                2 <= n <= 0xFFFF_FFFE_0000_0001,
                1 <= x <= xs,
                2 <= k < 0xFFFF_FFFF,
                k * k < xs,
                xs == power(k as int, e) * x,
                divisors@.len() == len0 + e,
                forall|i: int| len0 <= i < divisors@.len() ==> divisors@[i] == k,
                seq_prod(divisors@) * x == n,
                no_factor_below(x as nat, k as nat),
                forall|i: int| 0 <= i < divisors@.len() ==> prime(#[trigger] divisors@[i] as nat) && divisors@[i] <= k,
                forall|a: int, b: int| 0 <= a <= b < divisors@.len() ==> divisors@[a] <= divisors@[b],
            decreases x,
        {
            proof {
                lemma_least_factor_prime(x as nat, k as nat);
                lemma_fundamental_div_mod(x as int, k as int);
                assert forall|d: nat| 2 <= d < k implies !#[trigger] divides(d, (x / k) as nat) by {
                    if divides(d, (x / k) as nat) {
                        lemma_divides_quotient(d, x as nat, k as nat);
                    }
                }
            }
            let ghost old_divs = divisors@;
            let ghost x0 = x;
            divisors.push(k);
            x = x / k;
            proof {
                assert(divisors@.drop_last() =~= old_divs);
                assert(seq_prod(divisors@) == seq_prod(old_divs) * k);
                assert(x0 == k * x);
                assert(seq_prod(divisors@) * x == n) by (nonlinear_arith)
                    requires
                        seq_prod(divisors@) == seq_prod(old_divs) * k,
                        seq_prod(old_divs) * x0 == n,
                        x0 == k * x,
                ;
                assert(x >= 1 && x < x0) by (nonlinear_arith)
                    requires
                        x0 == k * x,
                        x0 >= 1,
                        k >= 2,
                ;
                assert(power(k as int, e + 1) == k * power(k as int, e));
                assert(xs == power(k as int, e + 1) * x) by (nonlinear_arith)
                    requires
                        xs == power(k as int, e) * x0,
                        x0 == k * x,
                        power(k as int, e + 1) == k * power(k as int, e),
                ;
                e = e + 1;
            }
        }
        proof {
            assert forall|d: nat| 2 <= d < k + 1 implies !#[trigger] divides(d, x as nat) by {
                if d == k {
                    assert(x % k != 0);
                }
            }
            if x == 1 {
                if e <= 2 {
                    assert(power(k as int, 1) == k * power(k as int, 0));
                    assert(power(k as int, 2) == k * power(k as int, 1));
                    assert(power(k as int, e) <= k * k) by {
                        if e == 0 {
                        } else if e == 1 {
                            assert(k <= k * k) by (nonlinear_arith)
                                requires
                                    k >= 2,
                            ;
                        }
                    }
                }
                assert(e >= 3);
                let l = divisors@.len();
                assert(divisors@[l - 1] == k && divisors@[l - 2] == k && divisors@[l - 3] == k);
            }
            assert((k + 1) * (k + 1) <= 0xFFFF_FFFE_0000_0001) by (nonlinear_arith)
                requires
                    k < 0xFFFF_FFFF,
                    k >= 2,
            ;
        }
        k += 1;
    }
    if x > 1 {
        let ghost old_divs = divisors@;
        proof {
            assert(x >= k) by {
                if x < k {
                    assert(divides(x as nat, x as nat)) by {
                        lemma_mod_multiples_basic(1, x as int);
                    }
                }
            }
        }
        divisors.push(x);
        proof {
            assert(divisors@.drop_last() =~= old_divs);
            assert(seq_prod(divisors@) == seq_prod(old_divs) * x);
            if k * k > x {
                lemma_no_small_factor_prime(x as nat, k as nat);
            } else {
                assert(k * k == x);
                assert(divides(k as nat, x as nat)) by {
                    lemma_mod_multiples_basic(k as int, k as int);
                }
                lemma_least_factor_prime(x as nat, k as nat);
                assert(square(k as nat) == divisors@.last());
            }
        }
    } else {
        proof {
            if divisors@.len() == 0 {
                assert(seq_prod(divisors@) == 1);
            }
        }
    }
    divisors
}

/// Whether `n` is prime.
pub fn is_prime(n: u64) -> (b: bool)
    ensures
        b == prime(n as nat),
{
    crate::number::is_prime(n)
}

} // verus!
