//! Factorials, and tables of factorials and inverse factorials modulo `m`.
use vstd::prelude::*;
use vstd::arithmetic::div_mod::{
    lemma_mod_bound, lemma_small_mod, lemma_mul_mod_noop_left, lemma_mul_mod_noop_right,
    lemma_mul_mod_noop,
};
use vstd::arithmetic::mul::{
    lemma_mul_inequality, lemma_mul_is_commutative, lemma_mul_is_associative,
};
use crate::inverse::{is_prime, inv_entry, lemma_inv_entry_bound, lemma_inv_entry_is_inverse, InverseMod};

verus! {

/// `n!`.
pub open spec fn fact(n: nat) -> nat
    decreases n,
{
    if n == 0 {
        1
    } else {
        n * fact((n - 1) as nat)
    }
}

/// The `i`-th entry of a factorial table modulo `m`: `1` at `0`, then each
/// entry is the previous one times `i`, reduced modulo `m`.
pub open spec fn fact_mod(m: nat, i: nat) -> nat
    decreases i,
{
    if i == 0 {
        1
    } else {
        (fact_mod(m, (i - 1) as nat) * i) % m
    }
}

/// The `i`-th entry of an inverse factorial table modulo `m`: `1` at `0`,
/// then each entry is the previous one times the `i`-th inverse table entry.
pub open spec fn fact_inv_mod(m: nat, i: nat) -> nat
    decreases i,
{
    if i == 0 {
        1
    } else {
        (fact_inv_mod(m, (i - 1) as nat) * inv_entry(m, i)) % m
    }
}

/// The values `one * (1*one) * (2*one) * .. * (k*one)`: the `k`-th item of
/// the list of factorials built from the unit `one`.
pub open spec fn unit_fact(one: nat, k: nat) -> nat
    decreases k,
{
    if k == 0 {
        one
    } else {
        unit_fact(one, (k - 1) as nat) * (k * one)
    }
}

pub proof fn lemma_fact_positive(n: nat)
    ensures
        fact(n) >= 1,
    decreases n,
{
    if n > 0 {
        lemma_fact_positive((n - 1) as nat);
        lemma_mul_inequality(1, n as int, fact((n - 1) as nat) as int);
    }
}

pub proof fn lemma_fact_monotone(i: nat, j: nat)
    requires
        i <= j,
    ensures
        fact(i) <= fact(j),
    decreases j,
{
    if i < j {
        lemma_fact_monotone(i, (j - 1) as nat);
        lemma_fact_positive((j - 1) as nat);
        lemma_mul_inequality(1, j as int, fact((j - 1) as nat) as int);
    }
}

pub proof fn lemma_unit_fact_monotone(one: nat, i: nat, j: nat)
    requires
        one >= 1,
        i <= j,
    ensures
        unit_fact(one, i) <= unit_fact(one, j),
        unit_fact(one, i) >= 1,
    decreases j,
{
    if i < j {
        lemma_unit_fact_monotone(one, i, (j - 1) as nat);
        lemma_mul_inequality(1, j as int, one as int);
        lemma_mul_inequality(1, (j * one) as int, unit_fact(one, (j - 1) as nat) as int);
        lemma_mul_is_commutative((j * one) as int, unit_fact(one, (j - 1) as nat) as int);
    } else if i > 0 {
        lemma_unit_fact_monotone(one, (i - 1) as nat, (i - 1) as nat);
        lemma_mul_inequality(1, i as int, one as int);
        lemma_mul_inequality(1, (i * one) as int, unit_fact(one, (i - 1) as nat) as int);
        lemma_mul_is_commutative((i * one) as int, unit_fact(one, (i - 1) as nat) as int);
    }
}

/// Law: from `1` on, the factorial table modulo `m` holds `i! mod m`.
pub proof fn lemma_fact_mod_is_fact(m: nat, i: nat)
    requires
        m >= 1,
        i >= 1,
    ensures
        fact_mod(m, i) == fact(i) % m,
    decreases i,
{
    if i == 1 {
        assert(fact(1) == 1 * fact(0));
        assert(fact_mod(m, 1) == (fact_mod(m, 0) * 1) % m);
    } else {
        lemma_fact_mod_is_fact(m, (i - 1) as nat);
        let p = fact((i - 1) as nat);
        lemma_mul_mod_noop_left(p as int, i as int, m as int);
        lemma_mul_is_commutative(p as int, i as int);
    }
}

/// Every entry of the factorial table modulo `m` is at most `m`, and below
/// `m` from `1` on.
pub proof fn lemma_fact_mod_bound(m: nat, i: nat)
    requires
        m >= 1,
    ensures
        fact_mod(m, i) <= m,
        i >= 1 ==> fact_mod(m, i) < m,
{
    if i >= 1 {
        lemma_mod_bound((fact_mod(m, (i - 1) as nat) * i) as int, m as int);
    }
}

/// Every entry of the inverse factorial table modulo `m` is at most `m`,
/// and below `m` from `1` on.
pub proof fn lemma_fact_inv_mod_bound(m: nat, i: nat)
    requires
        m >= 1,
    ensures
        fact_inv_mod(m, i) <= m,
        i >= 1 ==> fact_inv_mod(m, i) < m,
{
    if i >= 1 {
        lemma_mod_bound((fact_inv_mod(m, (i - 1) as nat) * inv_entry(m, i)) as int, m as int);
    }
}

/// Law: for a prime modulus `m` and `i < m`, the two tables hold inverse
/// values: `i! * (i!)^-1 = 1 (mod m)`.
pub proof fn lemma_fact_inv_mod_is_inverse(m: nat, i: nat)
    requires
        is_prime(m),
        i < m,
    ensures
        (fact_mod(m, i) * fact_inv_mod(m, i)) % m == 1,
    decreases i,
{
    let mi = m as int;
    if i == 0 {
        lemma_small_mod(1, m);
    } else {
        let ii = i as int;
        lemma_fact_inv_mod_is_inverse(m, (i - 1) as nat);
        lemma_inv_entry_is_inverse(m, i);
        let f = fact_mod(m, (i - 1) as nat) as int;
        let g = fact_inv_mod(m, (i - 1) as nat) as int;
        let v = inv_entry(m, i) as int;
        // (f*i % m) * (g*v % m) == (f*i) * (g*v)  (mod m)
        lemma_mul_mod_noop(f * ii, g * v, mi);
        assert((f * ii) * (g * v) == (f * g) * (ii * v)) by (nonlinear_arith);
        lemma_mul_mod_noop(f * g, ii * v, mi);
        assert(((f * g) % mi) * ((ii * v) % mi) == 1);
        lemma_small_mod(1, m);
    }
}

/// `n!`.
pub fn factorial(n: u64) -> (r: u64)
    requires
        fact(n as nat) <= u64::MAX,
    ensures
        r == fact(n as nat),
{
    let mut r: u64 = 1;
    let mut i: u64 = 1;
    while i <= n
        invariant
            1 <= i,
            i <= n + 1,
            r == fact((i - 1) as nat),
            fact(n as nat) <= u64::MAX,
        decreases n + 1 - i,
    {
        proof {
            lemma_fact_monotone(i as nat, n as nat);
            assert(fact(i as nat) == i * fact((i - 1) as nat));
            lemma_mul_is_commutative(i as int, r as int);
        }
        r = r * i;
        if i == n {
            return r;
        }
        i = i + 1;
    }
    r
}

proof fn lemma_mul_le_iff_div(k: nat, one: nat, n: nat)
    requires
        one >= 1,
    ensures
        k * one <= n <==> k <= n / one,
{
    let q = n / one;
    let r = n % one;
    vstd::arithmetic::div_mod::lemma_fundamental_div_mod(n as int, one as int);
    lemma_mod_bound(n as int, one as int);
    assert(n == q * one + r) by {
        lemma_mul_is_commutative(one as int, q as int);
    }
    if k <= q {
        assert(k * one <= q * one) by (nonlinear_arith)
            requires k <= q;
    } else {
        assert(k * one >= q * one + one) by (nonlinear_arith)
            requires k >= q + 1;
    }
}

/// The list `[one, one*(1*one), one*(1*one)*(2*one), ..]`, one item for
/// each multiple `k*one` up to `n` and a first item for `0`; with `one = 1`
/// it is `[0!, 1!, .., n!]`.
pub fn factorials(one: u64, n: u64) -> (fs: Vec<u64>)
    requires
        one >= 1,
        n + one <= u64::MAX,
        unit_fact(one as nat, (n / one) as nat) <= u64::MAX,
    ensures
        fs@.len() == n / one + 1,
        forall|k: int| 0 <= k < fs@.len() ==> #[trigger] fs@[k] == unit_fact(one as nat, k as nat),
{
    let mut fact: Vec<u64> = Vec::new();
    fact.push(one);
    let mut r: u64 = one;
    let mut i: u64 = one;
    let ghost mut k: nat = 1;
    proof {
        lemma_mul_le_iff_div(1, one as nat, n as nat);
    }
    while i <= n
        invariant
            one >= 1,
            n + one <= u64::MAX,
            unit_fact(one as nat, (n / one) as nat) <= u64::MAX,
            i == k * one,
            k >= 1,
            fact@.len() == k,
            r == unit_fact(one as nat, (k - 1) as nat),
            forall|j: int| 0 <= j < fact@.len() ==> #[trigger] fact@[j] == unit_fact(one as nat, j as nat),
            i > n ==> k == n / one + 1,
            i <= n ==> k <= n / one,
        decreases n / one + 1 - k,
    {
        proof {
            lemma_unit_fact_monotone(one as nat, k, (n / one) as nat);
            assert(unit_fact(one as nat, k) == unit_fact(one as nat, (k - 1) as nat) * (k * one));
        }
        r = r * i;
        fact.push(r);
        proof {
            assert((k + 1) * one == k * one + one) by (nonlinear_arith);
            k = k + 1;
            lemma_mul_le_iff_div(k, one as nat, n as nat);
        }
        i = i + one;
    }
    fact
}

/// A growing table of `i! mod modulus`.
#[derive(Debug, Clone)]
pub struct FactorialMod {
    fact: Vec<u64>,
    modulus: u64,
}

impl View for FactorialMod {
    type V = Seq<u64>;

    /// The entries computed so far.
    closed spec fn view(&self) -> Seq<u64> {
        self.fact@
    }
}

impl FactorialMod {
    /// The modulus this table was made with.
    pub closed spec fn modulus_spec(&self) -> nat {
        self.modulus as nat
    }

    /// Every entry follows the factorial recurrence modulo the modulus.
    pub closed spec fn wf(&self) -> bool {
        &&& self.modulus >= 1
        &&& self.fact@.len() >= 1
        &&& forall|i: int| 0 <= i < self.fact@.len() ==> #[trigger] self.fact@[i] == fact_mod(self.modulus as nat, i as nat)
    }

    /// The table `[1]` for `modulus`.
    pub fn empty(modulus: u64) -> (t: Self)
        requires
            modulus >= 1,
        ensures
            t.wf(),
            t.modulus_spec() == modulus,
            t@.len() == 1,
    {
        let mut fact: Vec<u64> = Vec::new();
        fact.push(1);
        FactorialMod { fact, modulus }
    }

    /// The table covering `0 ..= n` for `modulus`.
    pub fn new(n: usize, modulus: u64) -> (t: Self)
        requires
            modulus >= 1,
            n < usize::MAX,
            (modulus - 1) * n <= u64::MAX,
        ensures
            t.wf(),
            t.modulus_spec() == modulus,
            t@.len() == n + 1,
    {
        let mut t = Self::empty(modulus);
        t.ensure(n);
        t
    }

    pub fn modulus(&self) -> (m: u64)
        ensures
            m == self.modulus_spec(),
    {
        self.modulus
    }

    pub fn len(&self) -> (n: usize)
        ensures
            n == self@.len(),
    {
        self.fact.len()
    }

    /// Extends the table to cover `0 ..= n`.
    pub fn ensure(&mut self, n: usize)
        requires
            old(self).wf(),
            n < usize::MAX,
            (old(self).modulus_spec() - 1) * n <= u64::MAX,
        ensures
            final(self).wf(),
            final(self).modulus_spec() == old(self).modulus_spec(),
            final(self)@.len() == if n + 1 > old(self)@.len() { n + 1 } else { old(self)@.len() as int },
            old(self)@ == final(self)@.subrange(0, old(self)@.len() as int),
    {
        if self.fact.len() > n {
            proof {
                assert(self.fact@.subrange(0, self.fact@.len() as int) =~= self.fact@);
            }
            return;
        }
        let m = self.modulus;
        let mut last = self.fact[self.fact.len() - 1];
        let mut i = self.fact.len();
        while i <= n
            invariant
                self.wf(),
                self.modulus == m,
                n < usize::MAX,
                (m - 1) * n <= u64::MAX,
                i == self.fact@.len(),
                last == self.fact@[i - 1],
                old(self).fact@.len() <= i <= n + 1,
                old(self).fact@ == self.fact@.subrange(0, old(self).fact@.len() as int),
            decreases n + 1 - i,
        {
            proof {
                lemma_fact_mod_bound(m as nat, (i - 1) as nat);
                if m >= 2 {
                    assert(last <= m - 1);
                    assert(last * i <= (m - 1) * n) by (nonlinear_arith)
                        requires
                            last <= m - 1,
                            i <= n,
                    ;
                } else {
                    assert(last <= 1);
                    assert(last * i <= n) by (nonlinear_arith)
                        requires
                            last <= 1,
                            i <= n,
                    ;
                }
            }
            let ghost before = self.fact@;
            last = last * (i as u64) % m;
            self.fact.push(last);
            proof {
                assert(last == fact_mod(m as nat, i as nat));
                assert forall|k: int| 0 <= k < self.fact@.len() implies #[trigger] self.fact@[k] == fact_mod(self.modulus as nat, k as nat) by {
                    if k < i {
                        assert(self.fact@[k] == before[k]);
                    }
                }
                assert(old(self).fact@ =~= self.fact@.subrange(0, old(self).fact@.len() as int));
            }
            i += 1;
        }
        proof {
            assert(self.fact@.subrange(0, self.fact@.len() as int) =~= self.fact@);
        }
    }

    /// The entry for `idx`.
    pub fn index(&self, idx: usize) -> (v: u64)
        requires
            self.wf(),
            idx < self@.len(),
        ensures
            v == fact_mod(self.modulus_spec(), idx as nat),
    {
        self.fact[idx]
    }
}

/// Tables of factorials, inverses and inverse factorials modulo `modulus`.
#[derive(Debug, Clone)]
pub struct FactorialInvMod {
    fact: FactorialMod,
    inv: InverseMod,
    finv: Vec<u64>,
    modulus: u64,
}

impl View for FactorialInvMod {
    type V = Seq<u64>;

    /// The inverse factorial entries computed so far.
    closed spec fn view(&self) -> Seq<u64> {
        self.finv@
    }
}

impl FactorialInvMod {
    /// The modulus these tables were made with.
    pub closed spec fn modulus_spec(&self) -> nat {
        self.modulus as nat
    }

    /// The factorial table.
    pub closed spec fn fact_table(&self) -> Seq<u64> {
        self.fact@
    }

    /// The inverse table.
    pub closed spec fn inv_table(&self) -> Seq<u64> {
        self.inv@
    }

    /// The three tables share the modulus, the factorial and inverse tables
    /// reach at least as far as the inverse factorials, and each inverse
    /// factorial follows its recurrence.
    pub closed spec fn wf(&self) -> bool {
        &&& self.modulus >= 1
        &&& self.modulus * self.modulus <= u64::MAX
        &&& self.fact.wf()
        &&& self.inv.wf()
        &&& self.fact.modulus_spec() == self.modulus
        &&& self.inv.modulus_spec() == self.modulus
        &&& self.finv@.len() >= 1
        &&& self.fact@.len() >= self.finv@.len()
        &&& self.inv@.len() >= self.finv@.len()
        &&& forall|i: int| 0 <= i < self.finv@.len() ==> #[trigger] self.finv@[i] == fact_inv_mod(self.modulus as nat, i as nat)
    }

    pub proof fn lemma_wf(&self)
        requires
            self.wf(),
        ensures
            forall|i: int| 0 <= i < self.fact_table().len() ==> #[trigger] self.fact_table()[i] == fact_mod(self.modulus_spec(), i as nat),
            forall|i: int| 0 <= i < self.inv_table().len() ==> #[trigger] self.inv_table()[i] == inv_entry(self.modulus_spec(), i as nat),
            self.fact_table().len() >= self@.len(),
            self.inv_table().len() >= self@.len(),
            self.inv_table().len() >= 2,
    {
        self.inv.lemma_entries();
    }

    /// The tables `[1]`, `[0, 1]` and `[1]` for `modulus`.
    pub fn empty(modulus: u64) -> (t: Self)
        requires
            modulus >= 1,
            modulus * modulus <= u64::MAX,
        ensures
            t.wf(),
            t.modulus_spec() == modulus,
            t@.len() == 1,
    {
        proof {
            assert(modulus * (modulus / 2) <= modulus * modulus) by (nonlinear_arith)
                requires modulus >= 1;
        }
        let mut finv: Vec<u64> = Vec::new();
        finv.push(1);
        let t = FactorialInvMod {
            fact: FactorialMod::empty(modulus),
            inv: InverseMod::empty(modulus),
            finv,
            modulus,
        };
        t
    }

    /// The tables covering `0 ..= n` for `modulus`.
    pub fn new(n: usize, modulus: u64) -> (t: Self)
        requires
            modulus >= 1,
            modulus * modulus <= u64::MAX,
            n < usize::MAX,
            (modulus - 1) * n <= u64::MAX,
        ensures
            t.wf(),
            t.modulus_spec() == modulus,
            t@.len() == n + 1,
    {
        let mut t = Self::empty(modulus);
        t.ensure(n);
        t
    }

    pub fn modulus(&self) -> (m: u64)
        ensures
            m == self.modulus_spec(),
    {
        self.modulus
    }

    pub fn len(&self) -> (n: usize)
        ensures
            n == self@.len(),
    {
        self.finv.len()
    }

    /// `n! mod modulus` (for `n = 0` the entry is `1`).
    pub fn fact(&self, n: usize) -> (v: u64)
        requires
            self.wf(),
            n < self.fact_table().len(),
        ensures
            v == fact_mod(self.modulus_spec(), n as nat),
    {
        self.fact.index(n)
    }

    /// The inverse table entry for `n`.
    pub fn inv(&self, n: usize) -> (v: u64)
        requires
            self.wf(),
            n < self.inv_table().len(),
        ensures
            v == inv_entry(self.modulus_spec(), n as nat),
    {
        proof {
            self.inv.lemma_entries();
        }
        self.inv.index(n)
    }

    /// The inverse factorial entry for `n`.
    pub fn fact_inv(&self, n: usize) -> (v: u64)
        requires
            self.wf(),
            n < self@.len(),
        ensures
            v == fact_inv_mod(self.modulus_spec(), n as nat),
    {
        self.index(n)
    }

    /// Extends the tables to cover `0 ..= n`.
    pub fn ensure(&mut self, n: usize)
        requires
            old(self).wf(),
            n < usize::MAX,
            (old(self).modulus_spec() - 1) * n <= u64::MAX,
        ensures
            final(self).wf(),
            final(self).modulus_spec() == old(self).modulus_spec(),
            final(self)@.len() == if n + 1 > old(self)@.len() { n + 1 } else { old(self)@.len() as int },
            old(self)@ == final(self)@.subrange(0, old(self)@.len() as int),
    {
        if self.finv.len() > n {
            proof {
                assert(self.finv@.subrange(0, self.finv@.len() as int) =~= self.finv@);
            }
            return;
        }
        let m = self.modulus;
        proof {
            assert(m * (m / 2) <= m * m) by (nonlinear_arith)
                requires m >= 1;
        }
        self.fact.ensure(n);
        self.inv.ensure(n);
        let mut last = self.finv[self.finv.len() - 1];
        let mut i = self.finv.len();
        while i <= n
            invariant
                self.wf(),
                self.modulus == m,
                n < usize::MAX,
                i == self.finv@.len(),
                self.inv@.len() >= n + 1,
                self.fact@.len() >= n + 1,
                last == self.finv@[i - 1],
                old(self).finv@.len() <= i <= n + 1,
                old(self).finv@ == self.finv@.subrange(0, old(self).finv@.len() as int),
            decreases n + 1 - i,
        {
            let iv = self.inv.index(i);
            proof {
                lemma_fact_inv_mod_bound(m as nat, (i - 1) as nat);
                lemma_inv_entry_bound(m as nat, i as nat);
                lemma_mul_inequality(last as int, m as int, iv as int);
                lemma_mul_inequality(iv as int, m as int, m as int);
                lemma_mul_is_commutative(m as int, iv as int);
            }
            let ghost before = self.finv@;
            last = last * iv % m;
            self.finv.push(last);
            proof {
                assert(last == fact_inv_mod(m as nat, i as nat));
                assert forall|k: int| 0 <= k < self.finv@.len() implies #[trigger] self.finv@[k] == fact_inv_mod(self.modulus as nat, k as nat) by {
                    if k < i {
                        assert(self.finv@[k] == before[k]);
                    }
                }
                assert(old(self).finv@ =~= self.finv@.subrange(0, old(self).finv@.len() as int));
            }
            i += 1;
        }
        proof {
            assert(self.finv@.subrange(0, self.finv@.len() as int) =~= self.finv@);
        }
    }

    /// The inverse factorial entry for `idx`.
    pub fn index(&self, idx: usize) -> (v: u64)
        requires
            self.wf(),
            idx < self@.len(),
        ensures
            v == fact_inv_mod(self.modulus_spec(), idx as nat),
    {
        self.finv[idx]
    }
}

} // verus!
