//! Least prime factors: their definition, the facts the sieves rest on, and
//! the linear sieve that tabulates them.
use vstd::prelude::*;
use vstd::arithmetic::div_mod::{
    lemma_fundamental_div_mod, lemma_mod_bound, lemma_small_mod, lemma_mul_mod_noop_left,
    lemma_mod_multiples_basic,
};
use crate::number::{divides, prime, power, no_factor_below, lemma_divides_trans, lemma_divides_quotient, lemma_least_factor_prime};

verus! {

/// The least divisor of `n` that is at least `k`, searching upwards
/// (`n` itself once `k` reaches it).
pub open spec fn least_factor_from(n: nat, k: nat) -> nat
    decreases n - k,
{
    if k >= n {
        n
    } else if n % k == 0 {
        k
    } else {
        least_factor_from(n, k + 1)
    }
}

/// The least prime factor of `n >= 2`.
pub open spec fn lpf(n: nat) -> nat {
    least_factor_from(n, 2)
}

/// `s` lists, in increasing order, exactly the primes up to `n`.
pub open spec fn primes_upto(s: Seq<usize>, n: nat) -> bool {
    &&& forall|i: int, j: int| 0 <= i < j < s.len() ==> s[i] < s[j]
    &&& forall|i: int| 0 <= i < s.len() ==> prime(#[trigger] s[i] as nat) && s[i] <= n
    &&& forall|q: usize| prime(q as nat) && q <= n ==> #[trigger] s.contains(q)
}

proof fn lemma_least_factor_from(n: nat, k: nat)
    requires
        n >= 2,
        2 <= k <= n,
        no_factor_below(n, k),
    ensures
        k <= least_factor_from(n, k) <= n,
        divides(least_factor_from(n, k), n),
        no_factor_below(n, least_factor_from(n, k)),
    decreases n - k,
{
    if k >= n {
        lemma_mod_multiples_basic(1, n as int);
    } else if n % k == 0 {
    } else {
        assert(no_factor_below(n, k + 1)) by {
            assert forall|d: nat| 2 <= d < k + 1 implies !#[trigger] divides(d, n) by {
                if d < k {
                    assert(!divides(d, n));
                }
            }
        }
        lemma_least_factor_from(n, k + 1);
    }
}

/// The least prime factor of `n` divides it, is prime, and no number in
/// `2 .. lpf(n)` divides `n`; it is `n` exactly when `n` is prime.
pub proof fn lemma_lpf(n: nat)
    requires
        n >= 2,
    ensures
        2 <= lpf(n) <= n,
        divides(lpf(n), n),
        n % lpf(n) == 0,
        no_factor_below(n, lpf(n)),
        prime(lpf(n)),
        prime(n) <==> lpf(n) == n,
        n / lpf(n) < n,
        n == lpf(n) * (n / lpf(n)),
{
    lemma_least_factor_from(n, 2);
    let f = lpf(n);
    lemma_least_factor_prime(n, f);
    if prime(n) {
        if f < n {
            assert(divides(f, n));
        }
    }
    if f == n {
        assert forall|d: nat| 1 < d < n implies !divides(d, n) by {
            assert(2 <= d < f);
        }
    }
    lemma_fundamental_div_mod(n as int, f as int);
    assert(n / f < n) by (nonlinear_arith)
        requires
            f >= 2,
            n == f * (n / f),
            n >= 2,
    ;
}

/// A divisor `d >= 2` of `n` with no factor of `n` below it is `lpf(n)`.
pub proof fn lemma_lpf_unique(n: nat, d: nat)
    requires
        n >= 2,
        d >= 2,
        divides(d, n),
        no_factor_below(n, d),
    ensures
        lpf(n) == d,
{
    lemma_lpf(n);
    if lpf(n) < d {
        assert(!divides(lpf(n), n));
    }
    if d < lpf(n) {
        assert(!divides(d, n));
    }
}

proof fn lemma_euclid_small(q: nat, a: nat, b: nat)
    requires
        prime(q),
        0 < a < q,
        (a * b) % q == 0,
    ensures
        b % q == 0,
    decreases a,
{
    if a > 1 {
        let c = q / a;
        let r = q % a;
        lemma_fundamental_div_mod(q as int, a as int);
        lemma_mod_bound(q as int, a as int);
        assert(!divides(a, q));
        assert(r > 0);
        lemma_fundamental_div_mod((a * b) as int, q as int);
        let t = (a * b) / q;
        assert(r * b == q * (b - c * t)) by (nonlinear_arith)
            requires
                q == a * c + r,
                a * b == q * t,
        ;
        let w = b - c * t;
        assert(w >= 0) by (nonlinear_arith)
            requires
                r * b == q * w,
                r > 0,
                q > 0,
                b >= 0,
        ;
        lemma_mod_multiples_basic(w, q as int);
        assert((q * w) % (q as int) == 0) by {
            vstd::arithmetic::mul::lemma_mul_is_commutative(q as int, w);
        }
        lemma_euclid_small(q, r, b);
    } else {
        assert(a * b == b) by (nonlinear_arith)
            requires
                a == 1,
        ;
    }
}

/// Euclid's lemma: a prime that divides a product divides a factor.
pub proof fn lemma_prime_divides_product(q: nat, a: nat, b: nat)
    requires
        prime(q),
        divides(q, a * b),
    ensures
        divides(q, a) || divides(q, b),
{
    if a % q != 0 {
        lemma_mod_bound(a as int, q as int);
        lemma_mul_mod_noop_left(a as int, b as int, q as int);
        lemma_euclid_small(q, a % q, b);
    }
}

/// A prime `p` at most `lpf(n)` is the least prime factor of `n * p`.
pub proof fn lemma_lpf_mul(n: nat, p: nat)
    requires
        n >= 2,
        prime(p),
        p <= lpf(n),
    ensures
        lpf(n * p) == p,
        (n * p) / p == n,
{
    lemma_lpf(n);
    let m = n * p;
    assert(m >= 2) by (nonlinear_arith)
        requires
            n >= 2,
            p >= 2,
            m == n * p,
    ;
    lemma_mod_multiples_basic(n as int, p as int);
    vstd::arithmetic::div_mod::lemma_div_multiples_vanish(n as int, p as int);
    vstd::arithmetic::mul::lemma_mul_is_commutative(n as int, p as int);
    assert forall|d: nat| 2 <= d < p implies !#[trigger] divides(d, m) by {
        if divides(d, m) {
            lemma_lpf(d);
            let q = lpf(d);
            lemma_divides_trans(q, d, m);
            lemma_prime_divides_product(q, n, p);
            if divides(q, n) {
                assert(!divides(q, n));
            } else {
                assert(1 < q < p);
            }
        }
    }
    lemma_lpf_unique(m, p);
}

/// For composite `m`, the cofactor `m / lpf(m)` has no smaller prime
/// factor: `lpf(m) <= lpf(m / lpf(m))`.
pub proof fn lemma_lpf_cofactor(m: nat)
    requires
        m >= 2,
        m / lpf(m) >= 2,
    ensures
        lpf(m) <= lpf(m / lpf(m)),
{
    lemma_lpf(m);
    let p = lpf(m);
    let k = m / p;
    lemma_lpf(k);
    assert(divides(k, m)) by {
        lemma_mod_multiples_basic(p as int, k as int);
        vstd::arithmetic::mul::lemma_mul_is_commutative(p as int, k as int);
    }
    lemma_divides_trans(lpf(k), k, m);
    if lpf(k) < p {
        assert(!divides(lpf(k), m));
    }
}

/// Dividing out a factor leaves no smaller prime factor: `lpf(n) <= lpf(n / d)`.
pub proof fn lemma_lpf_quotient(n: nat, d: nat)
    requires
        n >= 2,
        d >= 1,
        n % d == 0,
        n / d >= 2,
    ensures
        lpf(n) <= lpf(n / d),
{
    lemma_lpf(n);
    lemma_lpf(n / d);
    lemma_divides_quotient(lpf(n / d), n, d);
    if lpf(n / d) < lpf(n) {
        assert(!divides(lpf(n / d), n));
    }
}

/// `p^e > e` for `p >= 2`.
pub proof fn lemma_power_exceeds(p: int, e: nat)
    requires
        p >= 2,
    ensures
        power(p, e) > e,
    decreases e,
{
    if e > 0 {
        lemma_power_exceeds(p, (e - 1) as nat);
        assert(p * power(p, (e - 1) as nat) > e) by (nonlinear_arith)
            requires
                p >= 2,
                power(p, (e - 1) as nat) > e - 1,
                e >= 1,
        ;
    }
}

/// The table entry for `m` once the sieve has handled every cofactor below
/// `n`, and for the cofactor `n` the primes up to `done`.
pub open spec fn sieved(m: nat, n: nat, done: nat) -> nat {
    if m / lpf(m) < n || (m / lpf(m) == n && lpf(m) <= done) {
        lpf(m)
    } else {
        m
    }
}

/// A prime `q <= n` stands in a list of the primes up to `n` at some index,
/// and the list's order decides its position.
proof fn lemma_prime_index(s: Seq<usize>, n: nat, q: nat) -> (i: int)
    requires
        primes_upto(s, n),
        prime(q),
        q <= n,
        n <= usize::MAX,
    ensures
        0 <= i < s.len(),
        s[i] == q,
{
    let qu = q as usize;
    assert(qu as nat == q);
    assert(s.contains(qu));
    choose|i: int| 0 <= i < s.len() && s[i] == qu
}

/// The linear sieve up to `limit`: the primes up to `limit` in increasing
/// order, and the table whose entry `m >= 2` is the least prime factor of
/// `m` (entries `0` and `1` are `0`).
pub(crate) fn linear_sieve(limit: usize) -> (r: (Vec<usize>, Vec<usize>))
    requires
        1 <= limit < usize::MAX,
    ensures
        primes_upto(r.0@, limit as nat),
        r.1@.len() == limit + 1,
        r.1@[0] == 0,
        r.1@[1] == 0,
        forall|m: int| 2 <= m <= limit ==> #[trigger] r.1@[m] == lpf(m as nat),
{
    let mut table: Vec<usize> = Vec::new();
    let mut i: usize = 0;
    while i <= limit
        invariant
            limit < usize::MAX,
            i <= limit + 1,
            table@.len() == i,
            forall|k: int| 0 <= k < i ==> #[trigger] table@[k] == k,
        decreases limit + 1 - i,
    {
        table.push(i);
        i += 1;
    }
    table.set(1, 0);
    let mut primes: Vec<usize> = Vec::new();
    let mut n: usize = 2;
    proof {
        assert forall|m: int| 2 <= m <= limit implies #[trigger] table@[m] == sieved(m as nat, 2, 0) by {
            lemma_lpf(m as nat);
            let f = lpf(m as nat) as int;
            assert(m / f < 2 ==> f == m) by (nonlinear_arith)
                requires
                    m == f * (m / f),
                    m >= 2,
                    f >= 2,
            ;
        }
        assert forall|q: usize| prime(q as nat) && q <= 1 implies #[trigger] primes@.contains(q) by {}
    }
    while n <= limit
        invariant
            2 <= n <= limit + 1,
            limit < usize::MAX,
            table@.len() == limit + 1,
            table@[0] == 0,
            table@[1] == 0,
            forall|m: int| 2 <= m <= limit ==> #[trigger] table@[m] == sieved(m as nat, n as nat, 0),
            primes_upto(primes@, (n - 1) as nat),
        decreases limit + 1 - n,
    {
        proof {
            lemma_lpf(n as nat);
            assert(table@[n as int] == lpf(n as nat));
        }
        let ghost old_primes = primes@;
        if table[n] == n {
            primes.push(n);
        }
        proof {
            let s = primes@;
            assert(forall|k: int| 0 <= k < old_primes.len() ==> s[k] == old_primes[k]);
            assert forall|i: int, j: int| 0 <= i < j < s.len() implies s[i] < s[j] by {
                if j == s.len() - 1 && s.len() > 0 && s[j] == n {
                    assert(prime(s[i] as nat) && s[i] <= n - 1);
                }
            }
            assert forall|q: usize| prime(q as nat) && q <= n implies #[trigger] s.contains(q) by {
                if q == n {
                    assert(s[s.len() - 1] == q);
                } else {
                    assert(old_primes.contains(q));
                    let k = choose|k: int| 0 <= k < old_primes.len() && old_primes[k] == q;
                    assert(s[k] == q);
                }
            }
        }
        let mut j: usize = 0;
        while j < primes.len()
            invariant
                2 <= n <= limit,
                limit < usize::MAX,
                table@.len() == limit + 1,
                table@[0] == 0,
                table@[1] == 0,
                table@[n as int] == lpf(n as nat),
                2 <= lpf(n as nat) <= n,
                primes_upto(primes@, n as nat),
                j <= primes@.len(),
                forall|m: int| 2 <= m <= limit ==> #[trigger] table@[m] == sieved(m as nat, n as nat,
                    if j == 0 { 0 } else { primes@[j - 1] as nat }),
            ensures
                j <= primes@.len(),
                j < primes@.len() ==> (primes@[j as int] > limit / n || primes@[j as int] > lpf(n as nat)),
                forall|m: int| 2 <= m <= limit ==> #[trigger] table@[m] == sieved(m as nat, n as nat,
                    if j == 0 { 0 } else { primes@[j - 1] as nat }),
            decreases primes@.len() - j,
        {
            let p = primes[j];
            if p > limit / n || p > table[n] {
                break;
            }
            let ghost done: nat = if j == 0 { 0 } else { primes@[j - 1] as nat };
            let ghost old_table = table@;
            proof {
                assert(prime(p as nat));
                assert(n * p <= limit) by (nonlinear_arith)
                    requires
                        p <= limit / n,
                        n >= 1,
                ;
                assert(p >= 2);
                assert(n * p != n) by (nonlinear_arith)
                    requires
                        p >= 2,
                        n >= 2,
                ;
            }
            table.set(n * p, p);
            proof {
                let np = (n * p) as nat;
                lemma_lpf_mul(n as nat, p as nat);
                assert forall|m: int| 2 <= m <= limit implies #[trigger] table@[m] == sieved(m as nat, n as nat, p as nat) by {
                    if m == np {
                    } else {
                        assert(table@[m] == old_table[m]);
                        let mn = m as nat;
                        lemma_lpf(mn);
                        if mn / lpf(mn) == n && done < lpf(mn) && lpf(mn) <= p {
                            lemma_lpf_cofactor(mn);
                            let i = lemma_prime_index(primes@, n as nat, lpf(mn));
                            if i < j {
                                assert(primes@[i] <= primes@[j - 1]);
                            }
                            if i > j {
                                assert(primes@[j as int] < primes@[i]);
                            }
                            assert(i == j);
                            assert(mn == np) by (nonlinear_arith)
                                requires
                                    mn == lpf(mn) * (mn / lpf(mn)),
                                    mn / lpf(mn) == n,
                                    lpf(mn) == p,
                                    np == n * p,
                            ;
                        }
                    }
                }
            }
            j += 1;
        }
        proof {
            let done: nat = if j == 0 { 0 } else { primes@[j - 1] as nat };
            assert forall|m: int| 2 <= m <= limit implies #[trigger] table@[m] == sieved(m as nat, (n + 1) as nat, 0) by {
                let mn = m as nat;
                lemma_lpf(mn);
                if mn / lpf(mn) == n {
                    let q = lpf(mn);
                    lemma_lpf_cofactor(mn);
                    let i = lemma_prime_index(primes@, n as nat, q);
                    if done < q {
                        if j > 0 && i < j {
                            assert(primes@[i] <= primes@[j - 1]);
                        }
                        assert(i >= j);
                        if i > j {
                            assert(primes@[j as int] < primes@[i]);
                        }
                        let pj = primes@[j as int] as nat;
                        assert(pj <= q);
                        if pj > limit / n {
                            assert(n * pj > limit) by (nonlinear_arith)
                                requires
                                    pj > limit / n,
                                    n >= 1,
                            ;
                            assert(n * pj <= mn) by (nonlinear_arith)
                                requires
                                    pj <= q,
                                    mn == q * (mn / q),
                                    mn / q == n,
                                    n >= 1,
                            ;
                        }
                    }
                }
            }
        }
        n += 1;
    }
    proof {
        assert forall|m: int| 2 <= m <= limit implies #[trigger] table@[m] == lpf(m as nat) by {
            lemma_lpf(m as nat);
        }
    }
    (primes, table)
}

} // verus!
