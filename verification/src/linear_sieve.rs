//! A linear sieve that keeps the least prime factor of every number up to
//! its limit, with `1` for `0` and `1`.
use vstd::prelude::*;
use crate::number::{prime, seq_prod};
use crate::sieve::{lpf, primes_upto, linear_sieve, lemma_lpf, lemma_lpf_quotient};

verus! {

pub struct LinearSieve {
    primes: Vec<usize>,
    lpf: Vec<usize>,
}

impl LinearSieve {
    /// The largest number the sieve knows.
    pub closed spec fn limit(&self) -> nat {
        (self.lpf@.len() - 1) as nat
    }

    /// The table: `1` at `0` and `1`, the least prime factor above.
    pub closed spec fn table(&self) -> Seq<usize> {
        self.lpf@
    }

    pub closed spec fn wf(&self) -> bool {
        &&& 2 <= self.lpf@.len() <= usize::MAX
        &&& self.lpf@[0] == 1
        &&& self.lpf@[1] == 1
        &&& forall|m: int| 2 <= m < self.lpf@.len() ==> #[trigger] self.lpf@[m] == lpf(m as nat)
        &&& primes_upto(self.primes@, self.limit())
    }

    /// Sieves the numbers up to `n`.
    pub fn new(n: usize) -> (s: Self)
        requires
            1 <= n < usize::MAX,
        ensures
            s.wf(),
            s.limit() == n,
    {
        let (primes, mut table) = linear_sieve(n);
        table.set(0, 1);
        table.set(1, 1);
        LinearSieve { primes, lpf: table }
    }

    /// Whether `n` is prime.
    pub fn is_prime(&self, n: usize) -> (b: bool)
        requires
            self.wf(),
            n <= self.limit(),
        ensures
            b == prime(n as nat),
    {
        proof {
            if n >= 2 {
                lemma_lpf(n as nat);
            }
        }
        n != 1 && self.lpf(n) == n
    }

    /// The whole table of least prime factors (`1` at `0` and `1`).
    pub fn primes(&self) -> (t: &[usize])
        requires
            self.wf(),
        ensures
            t@ == self.table(),
            t@.len() == self.limit() + 1,
            t@[0] == 1 && t@[1] == 1,
            forall|m: int| 2 <= m <= self.limit() ==> #[trigger] t@[m] == lpf(m as nat),
    {
        self.lpf.as_slice()
    }

    /// The least prime factor of `n` (`1` for `0` and `1`).
    pub fn lpf(&self, n: usize) -> (p: usize)
        requires
            self.wf(),
            n <= self.limit(),
        ensures
            p == if n < 2 { 1 } else { lpf(n as nat) },
    {
        self.lpf[n]
    }

    /// The prime factors of `n` in non-decreasing order, each as often as
    /// it divides `n` (`[]` for `0` and `1`).
    pub fn prime_division(&self, n: usize) -> (fs: Vec<u64>)
        requires
            self.wf(),
            n <= self.limit(),
        ensures
            n < 2 ==> fs@.len() == 0,
            n >= 1 ==> seq_prod(fs@) == n,
            forall|i: int| 0 <= i < fs@.len() ==> prime(#[trigger] fs@[i] as nat),
            forall|a: int, b: int| 0 <= a <= b < fs@.len() ==> fs@[a] <= fs@[b],
    {
        let ghost n0 = n;
        let mut n = n;
        let mut divisors: Vec<u64> = Vec::new();
        while n > 1
            invariant
                self.wf(),
                n <= self.limit(),
                n0 < 2 ==> n == n0 && divisors@.len() == 0,
                n0 >= 1 ==> n >= 1 && seq_prod(divisors@) * n == n0,
                forall|i: int| 0 <= i < divisors@.len() ==> prime(#[trigger] divisors@[i] as nat),
                forall|a: int, b: int| 0 <= a <= b < divisors@.len() ==> divisors@[a] <= divisors@[b],
                n >= 2 && divisors@.len() > 0 ==> divisors@.last() <= lpf(n as nat),
            decreases n,
        {
            let ghost nb = n;
            proof {
                lemma_lpf(n as nat);
            }
            let d = self.lpf[n];
            n = n / d;
            let ghost old_divs = divisors@;
            divisors.push(d as u64);
            proof {
                assert(divisors@.drop_last() =~= old_divs);
                assert(seq_prod(divisors@) == seq_prod(old_divs) * d);
                assert(n >= 1) by (nonlinear_arith)
                    requires
                        nb == d * n,
                        nb >= 2,
                        d >= 2,
                ;
                assert(seq_prod(divisors@) * n == n0) by (nonlinear_arith)
                    requires
                        seq_prod(divisors@) == seq_prod(old_divs) * d,
                        seq_prod(old_divs) * nb == n0,
                        nb == d * n,
                ;
                if n >= 2 {
                    lemma_lpf_quotient(nb as nat, d as nat);
                }
            }
        }
        divisors
    }
}

} // verus!
