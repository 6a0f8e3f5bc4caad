//! Euler's totient by trial division, proved to count the numbers coprime
//! to `n`, and towers of powers modulo `m` computed through it.
use vstd::prelude::*;
use vstd::arithmetic::div_mod::{lemma_fundamental_div_mod, lemma_mod_multiples_basic};
use crate::sieve::lemma_prime_divides_product;
use crate::number::{divides, prime, no_factor_below, power, pow_mod, lemma_divides_quotient, lemma_divides_trans, lemma_no_small_factor_prime};
use crate::sieve::{lpf, lemma_lpf};

verus! {

/// No divisor `d > 1` of `k` divides `n`.
pub open spec fn coprime(k: nat, n: nat) -> bool {
    forall|d: nat| d > 1 && #[trigger] divides(d, k) ==> !divides(d, n)
}

/// The number of `k` in `1 ..= l` coprime to `n`.
pub open spec fn count_coprime(l: nat, n: nat) -> nat
    decreases l,
{
    if l == 0 {
        0
    } else {
        count_coprime((l - 1) as nat, n) + if coprime(l, n) { 1nat } else { 0nat }
    }
}

/// Euler's totient: the number of `k` in `1 ..= n` coprime to `n`.
pub open spec fn totient(n: nat) -> nat {
    count_coprime(n, n)
}

/// No number of `ps` divides `k`.
pub open spec fn avoids(k: nat, ps: Seq<nat>) -> bool {
    forall|i: int| 0 <= i < ps.len() ==> #[trigger] (k % ps[i]) != 0
}

/// The number of `k` in `1 ..= l` that no number of `ps` divides.
pub open spec fn count_avoiding(l: nat, ps: Seq<nat>) -> nat
    decreases l,
{
    if l == 0 {
        0
    } else {
        count_avoiding((l - 1) as nat, ps) + if avoids(l, ps) { 1nat } else { 0nat }
    }
}

/// The number of `k` in `1 ..= l` that no number of `ps` divides and `q`
/// divides.
spec fn count_avoiding_multiples(l: nat, ps: Seq<nat>, q: nat) -> nat
    decreases l,
{
    if l == 0 {
        0
    } else {
        count_avoiding_multiples((l - 1) as nat, ps, q) + if avoids(l, ps) && l % q == 0 { 1nat } else { 0nat }
    }
}

/// Product of the numbers.
pub open spec fn prod_nat(ps: Seq<nat>) -> nat
    decreases ps.len(),
{
    if ps.len() == 0 {
        1
    } else {
        prod_nat(ps.drop_last()) * ps.last()
    }
}

/// Every number of `ps` is prime.
pub open spec fn all_prime(ps: Seq<nat>) -> bool {
    forall|i: int| 0 <= i < ps.len() ==> prime(#[trigger] ps[i])
}

proof fn lemma_prod_multiple(ps: Seq<nat>, i: int)
    requires
        all_prime(ps),
        0 <= i < ps.len(),
    ensures
        prod_nat(ps) > 0,
        prod_nat(ps) % ps[i] == 0,
    decreases ps.len(),
{
    let l = ps.drop_last();
    assert(all_prime(l)) by {
        assert forall|j: int| 0 <= j < l.len() implies prime(#[trigger] l[j]) by {
            assert(l[j] == ps[j]);
        }
    }
    lemma_prod_pos(l);
    let a = prod_nat(l);
    let b = ps.last();
    assert(prime(ps[ps.len() - 1]));
    assert(a * b > 0) by (nonlinear_arith)
        requires
            a > 0,
            b > 1,
    ;
    if i == ps.len() - 1 {
        lemma_mod_multiples_basic(a as int, b as int);
        assert(a * b == b * a) by (nonlinear_arith);
    } else {
        lemma_prod_multiple(l, i);
        assert(l[i] == ps[i]);
        lemma_fundamental_div_mod(a as int, ps[i] as int);
        let c = a / ps[i];
        assert(a * b == ps[i] * (c * b)) by (nonlinear_arith)
            requires
                a == ps[i] * c,
        ;
        lemma_mod_multiples_basic((c * b) as int, ps[i] as int);
        assert((c * b) * ps[i] == ps[i] * (c * b)) by (nonlinear_arith);
    }
}

proof fn lemma_prod_pos(ps: Seq<nat>)
    requires
        all_prime(ps),
    ensures
        prod_nat(ps) > 0,
    decreases ps.len(),
{
    if ps.len() > 0 {
        let l = ps.drop_last();
        assert(all_prime(l)) by {
            assert forall|j: int| 0 <= j < l.len() implies prime(#[trigger] l[j]) by {
                assert(l[j] == ps[j]);
            }
        }
        lemma_prod_pos(l);
        let a = prod_nat(l);
        assert(prime(ps[ps.len() - 1]));
        let b = ps.last();
        assert(a * b > 0) by (nonlinear_arith)
            requires
                a > 0,
                b > 1,
        ;
    }
}

/// Shifting by a multiple of the product of `ps` does not change which
/// numbers avoid `ps`.
proof fn lemma_count_shift(ps: Seq<nat>, l: nat, m: nat)
    requires
        all_prime(ps),
        l % prod_nat(ps) == 0,
    ensures
        count_avoiding(l + m, ps) == count_avoiding(l, ps) + count_avoiding(m, ps),
    decreases m,
{
    if m > 0 {
        lemma_count_shift(ps, l, (m - 1) as nat);
        assert(count_avoiding(l + m, ps) == count_avoiding((l + m - 1) as nat, ps)
            + if avoids(l + m, ps) { 1nat } else { 0nat });
        assert(avoids(l + m, ps) == avoids(m, ps)) by {
            assert forall|i: int| 0 <= i < ps.len() implies ((l + m) % #[trigger] ps[i] == 0) == (m % ps[i] == 0) by {
                lemma_prod_multiple(ps, i);
                let pp = prod_nat(ps);
                lemma_fundamental_div_mod(l as int, pp as int);
                lemma_fundamental_div_mod(pp as int, ps[i] as int);
                let c = (l / pp) * (pp / ps[i]);
                assert(l == ps[i] * c) by (nonlinear_arith)
                    requires
                        l == pp * (l / pp),
                        pp == ps[i] * (pp / ps[i]),
                        c == (l / pp) * (pp / ps[i]),
                ;
                vstd::arithmetic::div_mod::lemma_mod_multiples_vanish(c as int, m as int, ps[i] as int);
                assert(ps[i] * c + m == l + m);
            }
        }
    }
}

/// Over `c` whole periods the count grows by one period's count each time.
proof fn lemma_count_periods(ps: Seq<nat>, c: nat)
    requires
        all_prime(ps),
    ensures
        count_avoiding(c * prod_nat(ps), ps) == c * count_avoiding(prod_nat(ps), ps),
    decreases c,
{
    let pp = prod_nat(ps);
    if c > 0 {
        lemma_count_periods(ps, (c - 1) as nat);
        let l = ((c - 1) * pp) as nat;
        lemma_prod_pos(ps);
        lemma_mod_multiples_basic((c - 1) as int, pp as int);
        assert(l % pp == 0);
        lemma_count_shift(ps, l, pp);
        assert(c * pp == l + pp) by (nonlinear_arith)
            requires
                l == (c - 1) * pp,
        ;
        assert(count_avoiding(l, ps) == ((c - 1) as nat) * count_avoiding(pp, ps));
        assert(count_avoiding(c * pp, ps) == count_avoiding(l, ps) + count_avoiding(pp, ps));
        assert(c * count_avoiding(pp, ps) == (c - 1) * count_avoiding(pp, ps) + count_avoiding(pp, ps))
            by (nonlinear_arith);
    } else {
        let k = count_avoiding(pp, ps);
        assert(c * pp == 0 && c * k == 0) by (nonlinear_arith)
            requires
                c == 0,
        ;
    }
}

/// For a prime `q` outside `ps`, `q * j` avoids `ps` exactly when `j` does.
proof fn lemma_avoids_times(ps: Seq<nat>, q: nat, j: nat)
    requires
        all_prime(ps),
        prime(q),
        !ps.contains(q),
    ensures
        avoids(q * j, ps) == avoids(j, ps),
{
    assert forall|i: int| 0 <= i < ps.len() implies ((q * j) % #[trigger] ps[i] == 0) == (j % ps[i] == 0) by {
        let p = ps[i];
        assert(prime(p));
        if j % p == 0 {
            lemma_fundamental_div_mod(j as int, p as int);
            assert(q * j == p * (q * (j / p))) by (nonlinear_arith)
                requires
                    j == p * (j / p),
            ;
            lemma_mod_multiples_basic((q * (j / p)) as int, p as int);
            assert((q * (j / p)) * p == p * (q * (j / p))) by (nonlinear_arith);
        }
        if (q * j) % p == 0 {
            lemma_prime_divides_product(p, q, j);
            if q % p == 0 {
                assert(divides(p, q));
                assert(p == q) by {
                    if p < q {
                        assert(!divides(p, q));
                    } else if p > q {
                        vstd::arithmetic::div_mod::lemma_small_mod(q, p);
                    }
                }
                assert(ps[i] == q);
                assert(ps.contains(q));
            }
        }
    }
}

proof fn lemma_multiples_within(ps: Seq<nat>, q: nat, c: nat, t: nat)
    requires
        q > 1,
        t < q,
    ensures
        count_avoiding_multiples(q * c + t, ps, q) == count_avoiding_multiples(q * c, ps, q),
    decreases t,
{
    if t > 0 {
        lemma_multiples_within(ps, q, c, (t - 1) as nat);
        vstd::arithmetic::div_mod::lemma_mod_multiples_vanish(c as int, t as int, q as int);
        vstd::arithmetic::div_mod::lemma_small_mod(t, q);
        assert((q * c + t) % q == t % q) by {
            assert(q * c + t == q * c + t);
        }
    }
}

/// Counting the multiples of `q` that avoid `ps` up to `q * c` counts the
/// numbers that avoid `ps` up to `c`.
proof fn lemma_multiples_count(ps: Seq<nat>, q: nat, c: nat)
    requires
        all_prime(ps),
        prime(q),
        !ps.contains(q),
    ensures
        count_avoiding_multiples(q * c, ps, q) == count_avoiding(c, ps),
    decreases c,
{
    if c > 0 {
        let c1 = (c - 1) as nat;
        lemma_multiples_count(ps, q, c1);
        lemma_multiples_within(ps, q, c1, (q - 1) as nat);
        assert(q * c == (q * c1 + (q - 1)) + 1) by (nonlinear_arith)
            requires
                c1 == c - 1,
                q > 1,
        ;
        lemma_mod_multiples_basic(c as int, q as int);
        assert(c * q == q * c) by (nonlinear_arith);
        lemma_avoids_times(ps, q, c);
        let l = q * c;
        let t = (q - 1) as nat;
        assert(((l - 1) as nat) == q * c1 + t);
        assert(count_avoiding_multiples(q * c1 + t, ps, q) == count_avoiding(c1, ps));
        assert(count_avoiding_multiples((l - 1) as nat, ps, q) == count_avoiding(c1, ps));
        assert(l % q == 0);
        assert(count_avoiding_multiples(l, ps, q) == count_avoiding_multiples((l - 1) as nat, ps, q)
            + if avoids(l, ps) && l % q == 0 { 1nat } else { 0nat });
        assert(count_avoiding(c, ps) == count_avoiding(c1, ps) + if avoids(c, ps) { 1nat } else { 0nat });
    } else {
        assert(q * c == 0) by (nonlinear_arith)
            requires
                c == 0,
        ;
    }
}

/// The numbers avoiding `ps` split into those avoiding `ps` and `q` and
/// the multiples of `q` avoiding `ps`.
proof fn lemma_count_split(ps: Seq<nat>, q: nat, l: nat)
    ensures
        count_avoiding(l, ps) == count_avoiding(l, ps.push(q)) + count_avoiding_multiples(l, ps, q),
    decreases l,
{
    if l > 0 {
        lemma_count_split(ps, q, (l - 1) as nat);
        let pq = ps.push(q);
        assert(avoids(l, pq) == (avoids(l, ps) && l % q != 0)) by {
            if avoids(l, pq) {
                assert forall|i: int| 0 <= i < ps.len() implies #[trigger] (l % ps[i]) != 0 by {
                    assert(pq[i] == ps[i]);
                }
                assert(pq[ps.len() as int] == q);
            }
            if avoids(l, ps) && l % q != 0 {
                assert forall|i: int| 0 <= i < pq.len() implies #[trigger] (l % pq[i]) != 0 by {
                    if i < ps.len() {
                        assert(pq[i] == ps[i]);
                    }
                }
            }
        }
    }
}

/// One step of the product formula: adding a new prime factor `q` of `n`
/// takes the count `r` to `r - r / q`, and `q` divides `r`.
proof fn lemma_sieve_step(n: nat, ps: Seq<nat>, q: nat)
    requires
        all_prime(ps),
        prime(q),
        !ps.contains(q),
        n % (prod_nat(ps) * q) == 0,
    ensures
        count_avoiding(n, ps) % q == 0,
        count_avoiding(n, ps.push(q)) == count_avoiding(n, ps) - count_avoiding(n, ps) / q,
{
    let pp = prod_nat(ps);
    lemma_prod_pos(ps);
    assert(pp * q > 0) by (nonlinear_arith)
        requires
            pp > 0,
            q > 1,
    ;
    lemma_fundamental_div_mod(n as int, (pp * q) as int);
    let c = n / (pp * q);
    let k = count_avoiding(pp, ps);
    assert(n == (q * c) * pp) by (nonlinear_arith)
        requires
            n == (pp * q) * c,
    ;
    lemma_count_periods(ps, q * c);
    lemma_count_periods(ps, c);
    lemma_multiples_count(ps, q, c * pp);
    assert(q * (c * pp) == n) by (nonlinear_arith)
        requires
            n == (q * c) * pp,
    ;
    lemma_count_split(ps, q, n);
    let r = count_avoiding(n, ps);
    assert(r == q * (c * k)) by (nonlinear_arith)
        requires
            r == (q * c) * k,
    ;
    lemma_mod_multiples_basic((c * k) as int, q as int);
    assert((c * k) * q == q * (c * k)) by (nonlinear_arith);
    vstd::arithmetic::div_mod::lemma_div_multiples_vanish((c * k) as int, q as int);
    assert(count_avoiding(c * pp, ps) == c * k);
}

/// For `ps` the prime factors of `n`, the numbers coprime to `n` are those
/// no number of `ps` divides.
proof fn lemma_coprime_avoids(n: nat, ps: Seq<nat>, l: nat)
    requires
        all_prime(ps),
        forall|i: int| 0 <= i < ps.len() ==> n % #[trigger] ps[i] == 0,
        forall|p: nat| prime(p) && #[trigger] divides(p, n) ==> ps.contains(p),
    ensures
        count_coprime(l, n) == count_avoiding(l, ps),
    decreases l,
{
    if l > 0 {
        lemma_coprime_avoids(n, ps, (l - 1) as nat);
        assert(coprime(l, n) == avoids(l, ps)) by {
            if coprime(l, n) {
                assert forall|i: int| 0 <= i < ps.len() implies #[trigger] (l % ps[i]) != 0 by {
                    assert(prime(ps[i]));
                    if l % ps[i] == 0 {
                        assert(divides(ps[i], l));
                        assert(divides(ps[i], n));
                    }
                }
            }
            if avoids(l, ps) && !coprime(l, n) {
                let d = choose|d: nat| d > 1 && #[trigger] divides(d, l) && divides(d, n);
                lemma_lpf(d);
                let f = lpf(d);
                lemma_divides_trans(f, d, l);
                lemma_divides_trans(f, d, n);
                assert(ps.contains(f));
                let i = choose|i: int| 0 <= i < ps.len() && ps[i] == f;
                assert(l % ps[i] != 0);
            }
        }
    }
}

proof fn lemma_count_all(n: nat)
    ensures
        count_avoiding(n, Seq::<nat>::empty()) == n,
    decreases n,
{
    if n > 0 {
        lemma_count_all((n - 1) as nat);
    }
}

proof fn lemma_count_le(n: nat, ps: Seq<nat>)
    ensures
        count_avoiding(n, ps) <= n,
    decreases n,
{
    if n > 0 {
        lemma_count_le((n - 1) as nat, ps);
    }
}

proof fn lemma_coprime_le(l: nat, n: nat)
    ensures
        count_coprime(l, n) <= l,
        l >= 1 ==> count_coprime(l, n) >= 1,
    decreases l,
{
    if l > 0 {
        lemma_coprime_le((l - 1) as nat, n);
        if l == 1 {
            assert(coprime(1, n)) by {
                assert forall|d: nat| d > 1 && #[trigger] divides(d, 1) implies !divides(d, n) by {
                    vstd::arithmetic::div_mod::lemma_small_mod(1, d);
                }
            }
        }
    }
}

proof fn lemma_totient_bounds(n: nat)
    ensures
        n >= 1 ==> 1 <= totient(n) <= n,
{
    lemma_coprime_le(n, n);
}

proof fn lemma_mul_keeps_multiple(a: nat, d: nat, q: nat)
    requires
        d > 0,
        a % d == 0,
    ensures
        (a * q) % d == 0,
{
    lemma_fundamental_div_mod(a as int, d as int);
    let c = a / d;
    assert(a * q == (c * q) * d) by (nonlinear_arith)
        requires
            a == d * c,
    ;
    lemma_mod_multiples_basic((c * q) as int, d as int);
}

proof fn lemma_times_prime_divisors(ps: Seq<nat>, q: nat, m: nat)
    requires
        prime(q),
        ps.contains(q),
        forall|p: nat| prime(p) && #[trigger] divides(p, m) ==> ps.contains(p),
    ensures
        forall|p: nat| prime(p) && #[trigger] divides(p, m * q) ==> ps.contains(p),
{
    assert forall|p: nat| prime(p) && #[trigger] divides(p, m * q) implies ps.contains(p) by {
        lemma_prime_divides_product(p, m, q);
        if divides(p, q) {
            assert(p == q) by {
                if p < q {
                    assert(!divides(p, q));
                } else if p > q {
                    vstd::arithmetic::div_mod::lemma_small_mod(q, p);
                }
            }
        }
    }
}

proof fn lemma_prod_push_divides(ps: Seq<nat>, q: nat, m: nat, x: nat)
    requires
        all_prime(ps),
        prime(q),
        m % prod_nat(ps) == 0,
        forall|p: nat| prime(p) && #[trigger] divides(p, m) ==> ps.contains(p),
    ensures
        all_prime(ps.push(q)),
        (m * q) % prod_nat(ps.push(q)) == 0,
        forall|p: nat| prime(p) && #[trigger] divides(p, m * q) ==> ps.push(q).contains(p),
{
    let pq = ps.push(q);
    assert(all_prime(pq)) by {
        assert forall|j: int| 0 <= j < pq.len() implies prime(#[trigger] pq[j]) by {
            if j < ps.len() {
                assert(pq[j] == ps[j]);
            }
        }
    }
    assert(pq.drop_last() =~= ps);
    let pp = prod_nat(ps);
    lemma_prod_pos(ps);
    lemma_fundamental_div_mod(m as int, pp as int);
    let c = m / pp;
    assert(m * q == c * (pp * q)) by (nonlinear_arith)
        requires
            m == pp * c,
    ;
    assert(pp * q > 0) by (nonlinear_arith)
        requires
            pp > 0,
            q > 1,
    ;
    lemma_mod_multiples_basic(c as int, (pp * q) as int);
    assert forall|p: nat| prime(p) && #[trigger] divides(p, m) implies pq.contains(p) by {
        assert(ps.contains(p));
        let j = choose|j: int| 0 <= j < ps.len() && ps[j] == p;
        assert(pq[j] == p);
    }
    assert(pq[ps.len() as int] == q);
    lemma_times_prime_divisors(pq, q, m);
}

/// Euler's totient of `n`: the number of `k` in `1 ..= n` coprime to `n`,
/// computed as `n` times `1 - 1/p` over the prime factors `p` of `n`,
/// found by trial division.
pub fn euler_phi(n: u64) -> (r: u64)
    requires
        n < 0xFFFF_FFFE_0000_0001,
    ensures
        r == totient(n as nat),
        n >= 1 ==> 1 <= r <= n,
{
    if n == 0 {
        return 0;
    }
    let mut x = n;
    let mut r = n;
    let mut i: u64 = 2;
    let ghost mut ps: Seq<nat> = Seq::empty();
    let ghost mut m: nat = 1;
    proof {
        lemma_count_all(n as nat);
        assert forall|p: nat| prime(p) && #[trigger] divides(p, m) implies ps.contains(p) by {
            vstd::arithmetic::div_mod::lemma_small_mod(1, p);
        }
    }
    while i * i <= x
        invariant
            1 <= x <= n < 0xFFFF_FFFE_0000_0001,
            2 <= i <= 0xFFFF_FFFF,
            i * i <= 0xFFFF_FFFE_0000_0001,
            n == x * m,
            all_prime(ps),
            m % prod_nat(ps) == 0,
            forall|j: int| 0 <= j < ps.len() ==> (n as nat) % #[trigger] ps[j] == 0 && (x as nat) % ps[j] != 0,
            forall|p: nat| prime(p) && #[trigger] divides(p, m) ==> ps.contains(p),
            no_factor_below(x as nat, i as nat),
            r == count_avoiding(n as nat, ps),
        decreases 0x1_0000_0000 - i,
    {
        proof {
            assert(i < 0xFFFF_FFFF) by (nonlinear_arith)
                requires
                    i * i <= x,
                    x < 0xFFFF_FFFE_0000_0001,
                    i >= 2,
            ;
        }
        if x % i == 0 {
            let ghost q = i as nat;
            proof {
                assert(prime(q)) by {
                    assert forall|d: nat| 1 < d < q implies !divides(d, q) by {
                        if divides(d, q) {
                            lemma_divides_trans(d, q, x as nat);
                            assert(divides(d, x as nat));
                        }
                    }
                }
                assert(!ps.contains(q)) by {
                    if ps.contains(q) {
                        let j = choose|j: int| 0 <= j < ps.len() && ps[j] == q;
                        assert((x as nat) % ps[j] != 0);
                    }
                }
                let pp = prod_nat(ps);
                lemma_prod_pos(ps);
                lemma_fundamental_div_mod(m as int, pp as int);
                lemma_fundamental_div_mod(x as int, i as int);
                let c = (m / pp) * (x / i);
                assert(n == (pp * q) * c) by (nonlinear_arith)
                    requires
                        n == x * m,
                        m == pp * (m / pp),
                        x == i * (x / i),
                        q == i,
                        c == (m / pp) * (x / i),
                ;
                assert(pp * q > 0) by (nonlinear_arith)
        requires
            pp > 0,
            q > 1,
    ;
    lemma_mod_multiples_basic(c as int, (pp * q) as int);
                assert(c * (pp * q) == (pp * q) * c) by (nonlinear_arith);
                lemma_sieve_step(n as nat, ps, q);
                lemma_count_le(n as nat, ps);
            }
            r = r - r / i;
            let ghost xs = x;
            let ghost ms = m;
            proof {
                lemma_prod_push_divides(ps, q, m, x as nat);
                ps = ps.push(q);
                m = m * q;
                lemma_fundamental_div_mod(x as int, i as int);
                assert(n == (x / i) * m) by (nonlinear_arith)
                    requires
                        n == xs * ms,
                        xs == i * (xs / i),
                        m == ms * q,
                        q == i,
                        x == xs,
                ;
            }
            x = x / i;
            proof {
                assert(x >= 1) by (nonlinear_arith)
                    requires
                        xs == i * x,
                        xs >= 1,
                ;
                assert forall|d: nat| d >= 1 && #[trigger] divides(d, x as nat) implies divides(d, xs as nat) by {
                    lemma_divides_quotient(d, xs as nat, i as nat);
                }
            }
            while x % i == 0
                invariant
                    1 <= x <= xs,
                    2 <= i < 0xFFFF_FFFF,
                    q == i,
                    prime(q),
                    n == x * m,
                    all_prime(ps),
                    ps.last() == q,
                    ps.len() >= 1,
                    forall|j: int| 0 <= j < ps.len() - 1 ==> (n as nat) % #[trigger] ps[j] == 0 && (xs as nat) % ps[j] != 0,
                    m % prod_nat(ps) == 0,
                    forall|p: nat| prime(p) && #[trigger] divides(p, m) ==> ps.contains(p),
                    forall|d: nat| d >= 1 && #[trigger] divides(d, x as nat) ==> divides(d, xs as nat),
                decreases x,
            {
                let ghost xo = x;
                let ghost mo = m;
                proof {
                    lemma_fundamental_div_mod(x as int, i as int);
                    assert(1 <= x / i < x) by (nonlinear_arith)
                        requires
                            x == i * (x / i),
                            i >= 2,
                            x >= 1,
                    ;
                    assert forall|d: nat| d >= 1 && #[trigger] divides(d, (x / i) as nat) implies divides(d, xs as nat) by {
                        lemma_divides_quotient(d, x as nat, i as nat);
                    }
                    lemma_times_prime_divisors(ps, q, m);
                    m = m * q;
                    lemma_prod_pos(ps);
                    lemma_mul_keeps_multiple(mo, prod_nat(ps), q);
                    assert(n == (x / i) * m) by (nonlinear_arith)
                        requires
                            n == xo * mo,
                            xo == i * (xo / i),
                            m == mo * q,
                            q == i,
                            x == xo,
                    ;
                }
                x = x / i;
            }
            proof {
                assert forall|j: int| 0 <= j < ps.len() implies (n as nat) % #[trigger] ps[j] == 0 && (x as nat) % ps[j] != 0 by {
                    if j < ps.len() - 1 {
                        assert((n as nat) % ps[j] == 0);
                        assert((xs as nat) % ps[j] != 0);
                        if (x as nat) % ps[j] == 0 {
                            assert(divides(ps[j], x as nat));
                            assert(divides(ps[j], xs as nat));
                        }
                    } else {
                        assert(ps[j] == q);
                        lemma_fundamental_div_mod(xs as int, i as int);
                        assert(divides(q, xs as nat));
                        assert(divides(xs as nat, n as nat)) by {
                            lemma_mod_multiples_basic(ms as int, xs as int);
                            assert(ms * xs == n) by (nonlinear_arith)
                                requires
                                    n == xs * ms,
                            ;
                        }
                        lemma_divides_trans(q, xs as nat, n as nat);
                    }
                }
                assert forall|d: nat| 2 <= d < i + 1 implies !#[trigger] divides(d, x as nat) by {
                    if d < i && divides(d, x as nat) {
                        assert(divides(d, xs as nat));
                    }
                }
            }
        } else {
            proof {
                assert forall|d: nat| 2 <= d < i + 1 implies !#[trigger] divides(d, x as nat) by {
                    if d < i {
                    }
                }
            }
        }
        proof {
            assert((i + 1) * (i + 1) <= 0xFFFF_FFFE_0000_0001) by (nonlinear_arith)
                requires
                    i < 0xFFFF_FFFF,
            ;
        }
        i += 1;
    }
    if x > 1 {
        proof {
            assert(i * i > x);
            lemma_no_small_factor_prime(x as nat, i as nat);
            let q = x as nat;
            assert(!ps.contains(q)) by {
                if ps.contains(q) {
                    let j = choose|j: int| 0 <= j < ps.len() && ps[j] == q;
                    vstd::arithmetic::div_mod::lemma_mod_self_0(x as int);
                }
            }
            let pp = prod_nat(ps);
            lemma_prod_pos(ps);
            lemma_fundamental_div_mod(m as int, pp as int);
            let c = m / pp;
            assert(n == (pp * q) * c) by (nonlinear_arith)
                requires
                    n == x * m,
                    m == pp * (m / pp),
                    q == x,
                    c == m / pp,
            ;
            assert(pp * q > 0) by (nonlinear_arith)
        requires
            pp > 0,
            q > 1,
    ;
    lemma_mod_multiples_basic(c as int, (pp * q) as int);
            assert(c * (pp * q) == (pp * q) * c) by (nonlinear_arith);
            lemma_sieve_step(n as nat, ps, q);
            lemma_count_le(n as nat, ps);
            assert forall|p: nat| prime(p) && #[trigger] divides(p, n as nat) implies ps.push(q).contains(p) by {
                lemma_prime_divides_product(p, x as nat, m);
                if divides(p, x as nat) {
                    assert(p == q) by {
                        if p < q {
                            assert(!divides(p, q));
                        } else if p > q {
                            vstd::arithmetic::div_mod::lemma_small_mod(q, p);
                        }
                    }
                    assert(ps.push(q)[ps.len() as int] == q);
                } else {
                    assert(ps.contains(p));
                    let j = choose|j: int| 0 <= j < ps.len() && ps[j] == p;
                    assert(ps.push(q)[j] == p);
                }
            }
            assert forall|j: int| 0 <= j < ps.push(q).len() implies (n as nat) % #[trigger] ps.push(q)[j] == 0 by {
                if j < ps.len() {
                    assert(ps.push(q)[j] == ps[j]);
                } else {
                    lemma_mod_multiples_basic(m as int, x as int);
                    assert(m * x == n) by (nonlinear_arith)
                        requires
                            n == x * m,
                    ;
                }
            }
            assert(all_prime(ps.push(q))) by {
                assert forall|j: int| 0 <= j < ps.push(q).len() implies prime(#[trigger] ps.push(q)[j]) by {
                    if j < ps.len() {
                        assert(ps.push(q)[j] == ps[j]);
                    }
                }
            }
            lemma_coprime_avoids(n as nat, ps.push(q), n as nat);
        }
        r = r - r / x;
    } else {
        proof {
            assert(x == 1);
            assert(n == m) by (nonlinear_arith)
                requires
                    n == x * m,
                    x == 1,
            ;
            lemma_coprime_avoids(n as nat, ps, n as nat);
        }
    }
    proof {
        lemma_totient_bounds(n as nat);
    }
    r
}

/// The tower `a^a^..^a` of height `e` modulo `m`, taken by reducing the
/// exponent modulo Euler's totient of `m` (kept positive): `0` for `m = 1`,
/// `0 ^ .. ^ 0` alternating between `0` and `1`.
pub open spec fn tetration_spec(a: nat, e: nat, m: nat) -> nat
    decreases e,
{
    if m == 1 {
        0
    } else if a == 0 {
        if e % 2 == 1 { 0 } else { 1 }
    } else if e == 1 {
        a % m
    } else if e == 2 {
        (power(a as int, a) % (m as int)) as nat
    } else if e == 0 {
        0
    } else {
        let phi = totient(m);
        let t0 = tetration_spec(a, (e - 1) as nat, phi);
        let t = if t0 == 0 { t0 + phi } else { t0 };
        (power(a as int, t) % (m as int)) as nat
    }
}

/// The tower `a^a^..^a` of height `e` modulo `m`, with each exponent
/// reduced modulo the totient of the modulus above it (`tetration_spec`).
pub fn tetration_mod(a: u64, e: u64, m: u64) -> (r: u64)
    requires
        1 <= m <= 0x1_0000_0000,
        e >= 1 || a == 0 || m == 1,
    ensures
        r == tetration_spec(a as nat, e as nat, m as nat),
        r < m,
    decreases e,
{
    proof {
        assert((m - 1) * (m - 1) <= u64::MAX) by (nonlinear_arith)
            requires
                1 <= m <= 0x1_0000_0000,
        ;
    }
    if m == 1 {
        0
    } else if a == 0 {
        if e % 2 == 1 { 0 } else { 1 }
    } else if e == 1 {
        a % m
    } else if e == 2 {
        pow_mod(a, a, m)
    } else {
        let phi = euler_phi(m);
        let mut t = tetration_mod(a, e - 1, phi);
        if t == 0 {
            t = t + phi;
        }
        pow_mod(a, t, m)
    }
}

/// The exact tower `a^a^..^a` of height `e` (`a` for `e = 1`, `1` for
/// `e = 0`).
pub open spec fn tower(a: nat, e: nat) -> nat
    decreases e,
{
    if e == 0 {
        1
    } else if e == 1 {
        a
    } else {
        power(a as int, tower(a, (e - 1) as nat)) as nat
    }
}

proof fn lemma_power_nonneg(a: nat, k: nat)
    ensures
        power(a as int, k) >= 0,
    decreases k,
{
    if k > 0 {
        lemma_power_nonneg(a, (k - 1) as nat);
        let q = power(a as int, (k - 1) as nat);
        assert(a * q >= 0) by (nonlinear_arith)
            requires
                q >= 0,
        ;
    }
}

proof fn lemma_power_of_one_base(k: nat)
    ensures
        power(1, k) == 1,
    decreases k,
{
    if k > 0 {
        lemma_power_of_one_base((k - 1) as nat);
    }
}

/// A positive power of a multiple of `m` is a multiple of `m`.
proof fn lemma_power_multiple(a: nat, k: nat, m: nat)
    requires
        m >= 1,
        a % m == 0,
        k >= 1,
    ensures
        power(a as int, k) % (m as int) == 0,
{
    lemma_power_nonneg(a, (k - 1) as nat);
    let q = power(a as int, (k - 1) as nat);
    lemma_fundamental_div_mod(a as int, m as int);
    let c = a / m;
    assert(a * q == (c * q) * m) by (nonlinear_arith)
        requires
            a == m * c,
    ;
    lemma_mod_multiples_basic(c * q, m as int);
}

/// Law: a tower whose base is a multiple of `m` is `0` modulo `m`: every
/// level of the tower raises the base to a positive exponent.
pub proof fn lemma_tetration_of_multiple(a: nat, e: nat, m: nat)
    requires
        a >= 1,
        e >= 1,
        m >= 1,
        a % m == 0,
    ensures
        tetration_spec(a, e, m) == 0,
{
    if m != 1 {
        if e == 2 {
            lemma_power_multiple(a, a, m);
        } else if e >= 3 {
            let phi = totient(m);
            lemma_totient_bounds(m);
            let t0 = tetration_spec(a, (e - 1) as nat, phi);
            let t = if t0 == 0 { t0 + phi } else { t0 };
            assert(t >= 1);
            lemma_power_multiple(a, t, m);
        }
    }
}

/// Law: a tower of ones is `1` modulo `m`.
pub proof fn lemma_tetration_of_one(e: nat, m: nat)
    requires
        e >= 1,
        m >= 1,
    ensures
        tetration_spec(1, e, m) == 1nat % m,
{
    if m != 1 && e >= 2 {
        if e == 2 {
            lemma_power_of_one_base(1);
        } else {
            let phi = totient(m);
            let t0 = tetration_spec(1, (e - 1) as nat, phi);
            let t = if t0 == 0 { t0 + phi } else { t0 };
            lemma_power_of_one_base(t);
        }
    }
}

/// Each exponent of the tower below `e` stays within the totient of the
/// modulus it is reduced by: `tower(a, e - 1) <= totient(m)`, and so on
/// down the chain `m, totient(m), totient(totient(m)), ..`.
pub open spec fn exponents_within(a: nat, e: nat, m: nat) -> bool
    decreases e,
{
    if e <= 2 {
        true
    } else {
        1 <= tower(a, (e - 1) as nat) <= totient(m) && exponents_within(a, (e - 1) as nat, totient(m))
    }
}

/// Law: while every exponent of the tower is at most the totient of the
/// modulus it is reduced by, the result is the exact tower modulo `m`;
/// an exponent equal to that totient is kept, not reduced to `0`.
pub proof fn lemma_tetration_exact(a: nat, e: nat, m: nat)
    requires
        a >= 1,
        e >= 1,
        m >= 1,
        exponents_within(a, e, m),
    ensures
        tetration_spec(a, e, m) == tower(a, e) % m,
    decreases e,
{
    if m == 1 {
    } else if e == 1 {
    } else if e == 2 {
        assert(tower(a, 1) == a);
        lemma_power_nonneg(a, a);
    } else {
        let phi = totient(m);
        lemma_totient_bounds(m);
        let e1 = (e - 1) as nat;
        lemma_tetration_exact(a, e1, phi);
        let tp = tower(a, e1);
        let t0 = tetration_spec(a, e1, phi);
        assert(t0 == tp % phi);
        let t = if t0 == 0 { t0 + phi } else { t0 };
        if tp < phi {
            vstd::arithmetic::div_mod::lemma_small_mod(tp, phi);
        } else {
            assert(tp == phi);
            vstd::arithmetic::div_mod::lemma_mod_self_0(phi as int);
        }
        assert(t == tp);
        lemma_power_nonneg(a, tp);
    }
}

/// A prime `p` has `p - 1` numbers coprime to it in `1 ..= p`.
proof fn lemma_totient_prime(p: nat)
    requires
        prime(p),
    ensures
        totient(p) == p - 1,
{
    lemma_count_coprime_below_prime(p, (p - 1) as nat);
    assert(!coprime(p, p)) by {
        assert(divides(p, p)) by {
            vstd::arithmetic::div_mod::lemma_mod_self_0(p as int);
        }
    }
}

proof fn lemma_count_coprime_below_prime(p: nat, l: nat)
    requires
        prime(p),
        l < p,
    ensures
        count_coprime(l, p) == l,
    decreases l,
{
    if l > 0 {
        lemma_count_coprime_below_prime(p, (l - 1) as nat);
        assert(coprime(l, p)) by {
            assert forall|d: nat| d > 1 && #[trigger] divides(d, l) implies !divides(d, p) by {
                if d > l {
                    vstd::arithmetic::div_mod::lemma_small_mod(l, d);
                }
                assert(d <= l);
            }
        }
    }
}

/// Law: for a prime `p`, the tower of height `3` is exact modulo `p`:
/// `tetration_spec(a, 3, p) == a^(a^a) mod p` (Fermat's little theorem
/// lets the exponent be reduced modulo `p - 1`).
pub proof fn lemma_tetration_three_prime(a: nat, p: nat)
    requires
        prime(p),
        a >= 1,
    ensures
        tetration_spec(a, 3, p) == tower(a, 3) % p,
{
    let pi = p as int;
    let phi = totient(p);
    lemma_totient_prime(p);
    let k = tower(a, 2);
    assert(tower(a, 1) == a);
    lemma_power_nonneg(a, a);
    assert(k == power(a as int, a));
    assert(tower(a, 3) == power(a as int, k) as nat);
    lemma_power_nonneg(a, k);
    let t0 = tetration_spec(a, 2, phi);
    assert(t0 == k % phi) by {
        if phi == 1 {
            vstd::arithmetic::div_mod::lemma_mod_self_0(1);
            vstd::arithmetic::div_mod::lemma_small_mod(0, 1);
            assert(k % 1 == 0);
        }
    }
    let t = if t0 == 0 { t0 + phi } else { t0 };
    assert(tetration_spec(a, 3, p) == (power(a as int, t) % pi) as nat);
    if a % p == 0 {
        lemma_power_multiple(a, t, p);
        assert(k >= 1) by {
            crate::quadratic::lemma_power_pos_nat(a, a);
        }
        lemma_power_multiple(a, k, p);
    } else {
        crate::quadratic::lemma_fermat(a, p);
        // k == t + c * phi for some c >= 0
        assert(k >= 1) by {
            crate::quadratic::lemma_power_pos_nat(a, a);
        }
        lemma_fundamental_div_mod(k as int, phi as int);
        let q = k / phi;
        let c: nat = if t0 == 0 { (q - 1) as nat } else { q };
        assert(q >= 1 || t0 != 0) by {
            if t0 == 0 && q == 0 {
                assert(k == phi * q + t0);
                assert(phi * q == 0) by (nonlinear_arith)
                    requires
                        q == 0,
                ;
            }
        }
        assert(k == t + phi * c) by (nonlinear_arith)
            requires
                k == phi * q + t0,
                t == (if t0 == 0 { t0 + phi } else { t0 }),
                c == (if t0 == 0 { q - 1 } else { q as int }),
                t0 == 0 ==> q >= 1,
        ;
        crate::primitive_root::lemma_power_add(a as int, t, phi * c);
        crate::primitive_root::lemma_power_mul(a as int, phi, c);
        crate::primitive_root::lemma_power_one_mod(power(a as int, phi), c, pi);
        let x = power(a as int, t);
        let y = power(a as int, phi * c);
        vstd::arithmetic::div_mod::lemma_mul_mod_noop(x, y, pi);
        vstd::arithmetic::div_mod::lemma_mod_bound(x, pi);
        vstd::arithmetic::div_mod::lemma_small_mod((x % pi) as nat, p);
        assert((x % pi) * 1 == x % pi);
        assert(power(a as int, k) == x * y);
    }
}

/// The numbers in `1 ..= l` coprime to `n`, in increasing order.
pub open spec fn coprimes_upto(n: nat, l: nat) -> Seq<int>
    decreases l,
{
    if l == 0 {
        Seq::empty()
    } else if coprime(l, n) {
        coprimes_upto(n, (l - 1) as nat).push(l as int)
    } else {
        coprimes_upto(n, (l - 1) as nat)
    }
}

proof fn lemma_coprimes_facts(n: nat, l: nat)
    ensures
        coprimes_upto(n, l).len() == count_coprime(l, n),
        forall|i: int| 0 <= i < coprimes_upto(n, l).len() ==> 1 <= #[trigger] coprimes_upto(n, l)[i] <= l
            && coprime(coprimes_upto(n, l)[i] as nat, n),
        forall|i: int, j: int| 0 <= i < j < coprimes_upto(n, l).len() ==> coprimes_upto(n, l)[i] < coprimes_upto(n, l)[j],
        forall|x: nat| 1 <= x <= l && coprime(x, n) ==> #[trigger] coprimes_upto(n, l).contains(x as int),
    decreases l,
{
    if l > 0 {
        let l1 = (l - 1) as nat;
        lemma_coprimes_facts(n, l1);
        let prev = coprimes_upto(n, l1);
        let cur = coprimes_upto(n, l);
        if coprime(l, n) {
            assert(cur == prev.push(l as int));
            assert forall|i: int| 0 <= i < cur.len() implies 1 <= #[trigger] cur[i] <= l && coprime(cur[i] as nat, n) by {
                if i < prev.len() {
                    assert(cur[i] == prev[i]);
                }
            }
            assert forall|i: int, j: int| 0 <= i < j < cur.len() implies cur[i] < cur[j] by {
                if j < prev.len() {
                    assert(cur[i] == prev[i] && cur[j] == prev[j]);
                } else {
                    assert(cur[i] == prev[i]);
                    assert(prev[i] <= l1);
                }
            }
            assert forall|x: nat| 1 <= x <= l && coprime(x, n) implies #[trigger] cur.contains(x as int) by {
                if x < l {
                    assert(prev.contains(x as int));
                    let w = choose|w: int| 0 <= w < prev.len() && prev[w] == x as int;
                    assert(cur[w] == x as int);
                } else {
                    assert(cur[prev.len() as int] == x as int);
                }
            }
        } else {
            assert forall|x: nat| 1 <= x <= l && coprime(x, n) implies #[trigger] cur.contains(x as int) by {
                if x < l {
                    assert(prev.contains(x as int));
                }
            }
        }
    }
}

/// No divisor `d > 1` of `x` divides `n` once `x` is coprime to `n`:
/// the least prime factor of a common divisor would divide both.
proof fn lemma_coprime_prime(x: nat, n: nat, f: nat)
    requires
        coprime(x, n),
        prime(f),
        divides(f, n),
    ensures
        !divides(f, x),
{
}

proof fn lemma_coprime_mul(x: nat, y: nat, n: nat)
    requires
        coprime(x, n),
        coprime(y, n),
    ensures
        coprime(x * y, n),
{
    assert forall|d: nat| d > 1 && #[trigger] divides(d, x * y) implies !divides(d, n) by {
        if divides(d, n) {
            lemma_lpf(d);
            let f = lpf(d);
            lemma_divides_trans(f, d, x * y);
            lemma_divides_trans(f, d, n);
            lemma_prime_divides_product(f, x, y);
            lemma_coprime_prime(x, n, f);
            lemma_coprime_prime(y, n, f);
        }
    }
}

proof fn lemma_coprime_mod(w: nat, n: nat)
    requires
        n >= 1,
        coprime(w, n),
    ensures
        coprime(w % n, n),
{
    assert forall|d: nat| d > 1 && #[trigger] divides(d, w % n) implies !divides(d, n) by {
        if divides(d, n) {
            lemma_fundamental_div_mod(w as int, n as int);
            lemma_fundamental_div_mod(n as int, d as int);
            lemma_fundamental_div_mod((w % n) as int, d as int);
            let c = (n / d) * (w / n) + (w % n) / d;
            assert(w == d * c) by (nonlinear_arith)
                requires
                    w == n * (w / n) + w % n,
                    n == d * (n / d),
                    w % n == d * ((w % n) / d),
                    c == (n / d) * (w / n) + (w % n) / d,
            ;
            lemma_mod_multiples_basic(c as int, d as int);
            assert(c * d == d * c) by (nonlinear_arith);
            assert(divides(d, w));
        }
    }
}

/// Cancelling a factor coprime to the modulus.
proof fn lemma_coprime_cancel(a: nat, m: nat, z: nat)
    requires
        m >= 1,
        coprime(a, m),
        (a * z) % m == 0,
    ensures
        z % m == 0,
    decreases m,
{
    if m == 1 {
        vstd::arithmetic::div_mod::lemma_small_mod(0, 1);
        lemma_fundamental_div_mod(z as int, 1);
    } else {
        lemma_lpf(m);
        let p = lpf(m);
        let m1 = m / p;
        assert(m == p * m1);
        assert(m1 >= 1) by (nonlinear_arith)
            requires
                m == p * m1,
                m >= 2,
        ;
        assert(m1 < m) by (nonlinear_arith)
            requires
                m == p * m1,
                p >= 2,
                m1 >= 1,
        ;
        assert(divides(m, a * z));
        lemma_divides_trans(p, m, a * z);
        lemma_prime_divides_product(p, a, z);
        lemma_coprime_prime(a, m, p);
        lemma_fundamental_div_mod(z as int, p as int);
        let z1 = z / p;
        assert(z == p * z1);
        lemma_fundamental_div_mod((a * z) as int, m as int);
        let c = (a * z) / m;
        assert(a * z1 == m1 * c) by (nonlinear_arith)
            requires
                a * z == m * c,
                z == p * z1,
                m == p * m1,
                p >= 2,
        ;
        lemma_mod_multiples_basic(c as int, m1 as int);
        assert(c * m1 == m1 * c) by (nonlinear_arith);
        assert(coprime(a, m1)) by {
            assert forall|d: nat| d > 1 && #[trigger] divides(d, a) implies !divides(d, m1) by {
                if divides(d, m1) {
                    lemma_mod_multiples_basic(p as int, m1 as int);
                    assert(divides(m1, m));
                    lemma_divides_trans(d, m1, m);
                }
            }
        }
        lemma_coprime_cancel(a, m1, z1);
        lemma_fundamental_div_mod(z1 as int, m1 as int);
        let c1 = z1 / m1;
        assert(z == c1 * m) by (nonlinear_arith)
            requires
                z == p * z1,
                z1 == m1 * c1,
                m == p * m1,
        ;
        lemma_mod_multiples_basic(c1 as int, m as int);
    }
}

/// `(a * r[i]) % m` for each element.
pub open spec fn scaled_by(a: int, m: int, r: Seq<int>) -> Seq<int> {
    Seq::new(r.len(), |i: int| (a * r[i]) % m)
}

proof fn lemma_scaled_by_prod(a: int, m: int, r: Seq<int>)
    requires
        m > 0,
    ensures
        crate::quadratic::prod(scaled_by(a, m, r)) % m == (power(a, r.len()) * crate::quadratic::prod(r)) % m,
    decreases r.len(),
{
    if r.len() > 0 {
        let r1 = r.drop_last();
        lemma_scaled_by_prod(a, m, r1);
        assert(scaled_by(a, m, r).drop_last() =~= scaled_by(a, m, r1));
        let x = crate::quadratic::prod(scaled_by(a, m, r1));
        let b = power(a, r1.len()) * crate::quadratic::prod(r1);
        let c = a * r.last();
        assert(crate::quadratic::prod(scaled_by(a, m, r)) == x * (c % m));
        assert(power(a, r.len()) * crate::quadratic::prod(r) == b * c) by (nonlinear_arith)
            requires
                power(a, r.len()) == a * power(a, r1.len()),
                crate::quadratic::prod(r) == crate::quadratic::prod(r1) * r.last(),
                b == power(a, r1.len()) * crate::quadratic::prod(r1),
                c == a * r.last(),
        ;
        vstd::arithmetic::div_mod::lemma_mul_mod_noop(x, c % m, m);
        vstd::arithmetic::div_mod::lemma_mod_bound(c, m);
        vstd::arithmetic::div_mod::lemma_small_mod((c % m) as nat, m as nat);
        vstd::arithmetic::div_mod::lemma_mul_mod_noop(b, c, m);
        vstd::arithmetic::div_mod::lemma_mul_mod_noop(x, c, m);
    }
}

proof fn lemma_prod_coprime(r: Seq<int>, n: nat)
    requires
        forall|i: int| 0 <= i < r.len() ==> #[trigger] r[i] >= 1 && coprime(r[i] as nat, n),
    ensures
        crate::quadratic::prod(r) >= 1,
        coprime(crate::quadratic::prod(r) as nat, n),
    decreases r.len(),
{
    if r.len() == 0 {
        assert forall|d: nat| d > 1 && #[trigger] divides(d, 1) implies !divides(d, n) by {
            vstd::arithmetic::div_mod::lemma_small_mod(1, d);
        }
    } else {
        let r1 = r.drop_last();
        assert forall|i: int| 0 <= i < r1.len() implies #[trigger] r1[i] >= 1 && coprime(r1[i] as nat, n) by {
            assert(r1[i] == r[i]);
        }
        lemma_prod_coprime(r1, n);
        let x = crate::quadratic::prod(r1);
        let y = r.last();
        assert(y >= 1 && coprime(y as nat, n));
        assert(x * y >= 1) by (nonlinear_arith)
            requires
                x >= 1,
                y >= 1,
        ;
        lemma_coprime_mul(x as nat, y as nat, n);
    }
}

/// Euler's theorem: for `a` coprime to `m >= 2`, `a^totient(m) mod m == 1`.
pub proof fn lemma_euler(a: nat, m: nat)
    requires
        m >= 2,
        coprime(a, m),
    ensures
        power(a as int, totient(m)) % (m as int) == 1,
{
    let mi = m as int;
    let r = coprimes_upto(m, m);
    lemma_coprimes_facts(m, m);
    let n = r.len();
    assert(n == totient(m));
    let s = scaled_by(a as int, mi, r);
    assert forall|i: int| 0 <= i < r.len() implies r[i] < m by {
        if r[i] == m {
            assert(coprime(m, m));
            vstd::arithmetic::div_mod::lemma_mod_self_0(mi);
            assert(divides(m, m));
        }
    }
    assert forall|i: int| 0 <= i < s.len() implies r.contains(#[trigger] s[i]) by {
        let x = r[i] as nat;
        lemma_coprime_mul(a, x, m);
        lemma_coprime_mod(a * x, m);
        let y = (a * x) % m;
        vstd::arithmetic::div_mod::lemma_mod_bound((a * x) as int, mi);
        assert(s[i] == y as int);
        assert(y != 0) by {
            if y == 0 {
                vstd::arithmetic::div_mod::lemma_mod_self_0(mi);
                assert(divides(m, y));
                assert(divides(m, m));
            }
        }
    }
    assert(s.no_duplicates()) by {
        assert forall|i: int, j: int| 0 <= i < s.len() && 0 <= j < s.len() && i != j implies s[i] != s[j] by {
            let (lo, hi) = if r[i] < r[j] { (i, j) } else { (j, i) };
            if i < j {
                assert(r[i] < r[j]);
            } else {
                assert(r[j] < r[i]);
            }
            let x = r[lo] as nat;
            let y = r[hi] as nat;
            if s[i] == s[j] {
                let d = (y - x) as nat;
                vstd::arithmetic::div_mod::lemma_sub_mod_noop((a * y) as int, (a * x) as int, mi);
                assert((a * y) as int - (a * x) as int == (a * d) as int) by (nonlinear_arith)
                    requires
                        d == y - x,
                ;
                vstd::arithmetic::div_mod::lemma_small_mod(0, m);
                assert(((a * d) as int) % mi == 0);
                lemma_coprime_cancel(a, m, d);
                vstd::arithmetic::div_mod::lemma_small_mod(d, m);
            }
        }
    }
    crate::quadratic::lemma_prod_perm(s, r);
    lemma_scaled_by_prod(a as int, mi, r);
    assert forall|i: int| 0 <= i < r.len() implies #[trigger] r[i] >= 1 && coprime(r[i] as nat, m) by {}
    lemma_prod_coprime(r, m);
    let f = crate::quadratic::prod(r);
    let big = power(a as int, n);
    assert(a >= 1) by {
        if a == 0 {
            assert(divides(m, 0));
            vstd::arithmetic::div_mod::lemma_mod_self_0(mi);
            assert(divides(m, m));
        }
    }
    crate::quadratic::lemma_power_pos_nat(a, n);
    assert((big - 1) * f == big * f - f) by (nonlinear_arith);
    vstd::arithmetic::div_mod::lemma_sub_mod_noop(big * f, f, mi);
    vstd::arithmetic::div_mod::lemma_small_mod(0, m);
    assert(crate::quadratic::prod(s) == f);
    assert(((big - 1) * f) % mi == 0);
    assert((big - 1) * f >= 0) by (nonlinear_arith)
        requires
            big >= 1,
            f >= 1,
    ;
    assert(((f as nat) * ((big - 1) as nat)) % m == 0) by {
        assert((f as nat) * ((big - 1) as nat) == (big - 1) * f) by (nonlinear_arith)
            requires
                big >= 1,
                f >= 1,
        ;
    }
    lemma_coprime_cancel(f as nat, m, (big - 1) as nat);
    lemma_fundamental_div_mod(big - 1, mi);
    let q = (big - 1) / mi;
    vstd::arithmetic::div_mod::lemma_mod_multiples_vanish(q, 1, mi);
    assert(big == mi * q + 1);
    vstd::arithmetic::div_mod::lemma_small_mod(1, m);
}

/// Reducing a positive exponent `k` modulo the totient of `m` (kept
/// positive) does not change `a^k mod m` when `a` is coprime to `m`.
proof fn lemma_reduce_exponent(a: nat, m: nat, k: nat)
    requires
        m >= 2,
        coprime(a, m),
        k >= 1,
    ensures
        ({
            let phi = totient(m);
            let t0 = k % phi;
            let t = if t0 == 0 { t0 + phi } else { t0 };
            power(a as int, t) % (m as int) == power(a as int, k) % (m as int)
        }),
{
    let mi = m as int;
    let phi = totient(m);
    lemma_totient_bounds(m);
    let t0 = k % phi;
    let t = if t0 == 0 { t0 + phi } else { t0 };
    lemma_euler(a, m);
    lemma_fundamental_div_mod(k as int, phi as int);
    let q = k / phi;
    let c: nat = if t0 == 0 { (q - 1) as nat } else { q };
    assert(q >= 1 || t0 != 0) by {
        if t0 == 0 && q == 0 {
            assert(k == phi * q + t0);
            assert(phi * q == 0) by (nonlinear_arith)
                requires
                    q == 0,
            ;
        }
    }
    assert(k == t + phi * c) by (nonlinear_arith)
        requires
            k == phi * q + t0,
            t == (if t0 == 0 { t0 + phi } else { t0 }),
            c == (if t0 == 0 { q - 1 } else { q as int }),
            t0 == 0 ==> q >= 1,
    ;
    crate::primitive_root::lemma_power_add(a as int, t, phi * c);
    crate::primitive_root::lemma_power_mul(a as int, phi, c);
    crate::primitive_root::lemma_power_one_mod(power(a as int, phi), c, mi);
    let x = power(a as int, t);
    let y = power(a as int, phi * c);
    vstd::arithmetic::div_mod::lemma_mul_mod_noop(x, y, mi);
    vstd::arithmetic::div_mod::lemma_mod_bound(x, mi);
    vstd::arithmetic::div_mod::lemma_small_mod((x % mi) as nat, m);
    assert((x % mi) * 1 == x % mi);
    assert(power(a as int, k) == x * y);
}

/// `a` is coprime to each modulus the tower of height `e` is reduced by:
/// `m`, `totient(m)`, `totient(totient(m))`, ..
pub open spec fn coprime_chain(a: nat, e: nat, m: nat) -> bool
    decreases e,
{
    if e <= 2 {
        true
    } else {
        coprime(a, m) && coprime_chain(a, (e - 1) as nat, totient(m))
    }
}

/// Law: when `a` is coprime to every modulus of the chain `m`,
/// `totient(m)`, `totient(totient(m))`, .. that the exponents are reduced
/// by, the result is the exact tower `a^a^..^a` of height `e` modulo `m`
/// (Euler's theorem at each level).
pub proof fn lemma_tetration_coprime_chain(a: nat, e: nat, m: nat)
    requires
        a >= 1,
        e >= 1,
        m >= 1,
        coprime_chain(a, e, m),
    ensures
        tetration_spec(a, e, m) == tower(a, e) % m,
    decreases e,
{
    if m == 1 {
        assert(tower(a, e) % 1 == 0);
    } else if e == 1 {
    } else if e == 2 {
        assert(tower(a, 1) == a);
        lemma_power_nonneg(a, a);
    } else {
        let phi = totient(m);
        lemma_totient_bounds(m);
        let e1 = (e - 1) as nat;
        lemma_tetration_coprime_chain(a, e1, phi);
        let k = tower(a, e1);
        assert(k >= 1) by {
            lemma_tower_pos(a, e1);
        }
        lemma_power_nonneg(a, k);
        lemma_reduce_exponent(a, m, k);
    }
}

proof fn lemma_tower_pos(a: nat, e: nat)
    requires
        a >= 1,
    ensures
        tower(a, e) >= 1,
    decreases e,
{
    if e >= 2 {
        lemma_tower_pos(a, (e - 1) as nat);
        crate::quadratic::lemma_power_pos_nat(a, tower(a, (e - 1) as nat));
    }
}

/// Law: for `a` coprime to `m`, the tower of height `3` is exact modulo `m`.
pub proof fn lemma_tetration_three_coprime(a: nat, m: nat)
    requires
        a >= 1,
        m >= 1,
        coprime(a, m),
    ensures
        tetration_spec(a, 3, m) == tower(a, 3) % m,
{
    assert(coprime_chain(a, 2, totient(m)));
    assert(coprime_chain(a, 3, m));
    lemma_tetration_coprime_chain(a, 3, m);
}

} // verus!
