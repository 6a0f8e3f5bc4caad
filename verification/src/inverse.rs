//! Table of modular inverses `1^-1, 2^-1, ..` by the recurrence
//! `i^-1 = -(m / i) * (m mod i)^-1  (mod m)`.
use vstd::prelude::*;
use vstd::arithmetic::div_mod::{
    lemma_fundamental_div_mod, lemma_mod_bound, lemma_small_mod, lemma_mul_mod_noop_left,
    lemma_mul_mod_noop_right, lemma_mod_multiples_vanish, lemma_sub_mod_noop, lemma_mod_twice,
    lemma_add_mod_noop,
};
use vstd::arithmetic::mul::{
    lemma_mul_is_distributive_sub, lemma_mul_is_associative, lemma_mul_is_commutative,
    lemma_mul_inequality, lemma_mul_nonnegative,
};

verus! {

/// `m` is a prime number.
pub open spec fn is_prime(m: nat) -> bool {
    m > 1 && forall|d: nat| 1 < d < m ==> #[trigger] (m % d) != 0
}

/// The `i`-th entry of the inverse table for modulus `m`.
pub open spec fn inv_entry(m: nat, i: nat) -> nat
    decreases i,
{
    if i == 0 {
        0
    } else if i == 1 {
        1
    } else {
        let r = m % i;
        if r < i {
            (m - (inv_entry(m, r) * (m / i)) % m) as nat
        } else {
            0
        }
    }
}

pub proof fn lemma_inv_entry_bound(m: nat, i: nat)
    requires
        m >= 1,
    ensures
        inv_entry(m, i) <= m,
    decreases i,
{
    if i >= 2 {
        lemma_mod_bound(m as int, i as int);
        lemma_inv_entry_bound(m, m % i);
        lemma_mod_bound((inv_entry(m, m % i) * (m / i)) as int, m as int);
    }
}

/// Law: for a prime modulus every entry `1 <= i < m` is the inverse of `i`.
pub proof fn lemma_inv_entry_is_inverse(m: nat, i: nat)
    requires
        is_prime(m),
        1 <= i < m,
    ensures
        (i * inv_entry(m, i)) % m == 1,
    decreases i,
{
    let mi = m as int;
    if i == 1 {
        lemma_small_mod(1, m);
    } else {
        let ii = i as int;
        let r = m % i;
        let ri = r as int;
        let q = (m / i) as int;
        lemma_fundamental_div_mod(mi, ii);
        lemma_mod_bound(mi, ii);
        assert(r != 0) by {
            assert(1 < i < m);
            assert((m % i) != 0);
        }
        lemma_inv_entry_is_inverse(m, r);
        let a = inv_entry(m, r) as int;
        assert((ri * a) % mi == 1);
        let t = (a * q) % mi;
        lemma_mod_bound(a * q, mi);
        assert(inv_entry(m, i) as int == mi - t);
        assert(ii * (mi - t) == ii * mi - ii * t) by {
            lemma_mul_is_distributive_sub(ii, mi, t);
        }
        assert((ii * mi - ii * t) % mi == (-(ii * t)) % mi) by {
            lemma_mod_multiples_vanish(ii, -(ii * t), mi);
            lemma_mul_is_commutative(ii, mi);
        }
        assert((ii * t) % mi == (ii * (a * q)) % mi) by {
            lemma_mul_mod_noop_right(ii, a * q, mi);
        }
        assert(ii * (a * q) == a * (ii * q)) by {
            lemma_mul_is_associative(ii, a, q);
            lemma_mul_is_commutative(ii, a);
            lemma_mul_is_associative(a, ii, q);
        }
        assert(ii * q == mi - ri) by {
            lemma_mul_is_commutative(ii, q);
        }
        assert(a * (mi - ri) == a * mi - a * ri) by {
            lemma_mul_is_distributive_sub(a, mi, ri);
        }
        assert((-(ii * t)) % mi == (-(a * (ii * q))) % mi) by {
            lemma_sub_mod_noop(0, ii * t, mi);
            lemma_sub_mod_noop(0, ii * (a * q), mi);
        }
        assert(-(a * (mi - ri)) == mi * (-a) + a * ri) by (nonlinear_arith);
        assert((-(a * (ii * q))) % mi == (a * ri) % mi) by {
            lemma_mod_multiples_vanish(-a, a * ri, mi);
        }
        lemma_mul_is_commutative(ri, a);
        assert((ii * (mi - t)) % mi == 1);
    }
}

/// A growing table of the inverses `inv[i]` modulo `modulus`.
#[derive(Debug, Clone)]
pub struct InverseMod {
    inv: Vec<u64>,
    modulus: u64,
}

impl View for InverseMod {
    type V = Seq<u64>;

    /// The entries computed so far.
    closed spec fn view(&self) -> Seq<u64> {
        self.inv@
    }
}

impl InverseMod {
    /// The modulus this table was made with.
    pub closed spec fn modulus_spec(&self) -> nat {
        self.modulus as nat
    }

    /// Every entry follows the recurrence and the modulus keeps the
    /// products in range.
    pub closed spec fn wf(&self) -> bool {
        &&& self.modulus >= 1
        &&& self.modulus * (self.modulus / 2) <= u64::MAX
        &&& self.inv@.len() >= 2
        &&& forall|i: int| 0 <= i < self.inv@.len() ==> #[trigger] self.inv@[i] == inv_entry(self.modulus as nat, i as nat)
    }

    /// What a well-formed table holds.
    pub proof fn lemma_entries(&self)
        requires
            self.wf(),
        ensures
            self@.len() >= 2,
            self.modulus_spec() >= 1,
            forall|i: int| 0 <= i < self@.len() ==> #[trigger] self@[i] == inv_entry(self.modulus_spec(), i as nat),
    {
    }

    /// The table `[0, 1]` for `modulus`.
    pub fn empty(modulus: u64) -> (t: Self)
        requires
            modulus >= 1,
            modulus * (modulus / 2) <= u64::MAX,
        ensures
            t.wf(),
            t.modulus_spec() == modulus,
            t@.len() == 2,
    {
        let mut inv: Vec<u64> = Vec::new();
        inv.push(0);
        inv.push(1);
        InverseMod { inv, modulus }
    }

    /// The table covering `0 ..= n` for `modulus`.
    pub fn new(n: usize, modulus: u64) -> (t: Self)
        requires
            n < usize::MAX,
            modulus >= 1,
            modulus * (modulus / 2) <= u64::MAX,
        ensures
            t.wf(),
            t.modulus_spec() == modulus,
            t@.len() == if n + 1 > 2 { n + 1 } else { 2int },
    {
        let mut t = Self::empty(modulus);
        t.ensure(n);
        t
    }

    pub fn modulus(&self) -> (m: u64)
        ensures
            m == self.modulus_spec(),
    {
        self.modulus
    }

    pub fn len(&self) -> (n: usize)
        ensures
            n == self@.len(),
    {
        self.inv.len()
    }

    /// Extends the table to cover `0 ..= n`.
    pub fn ensure(&mut self, n: usize)
        requires
            old(self).wf(),
            n < usize::MAX,
        ensures
            final(self).wf(),
            final(self).modulus_spec() == old(self).modulus_spec(),
            final(self)@.len() == if n + 1 > old(self)@.len() { n + 1 } else { old(self)@.len() as int },
            old(self)@ == final(self)@.subrange(0, old(self)@.len() as int),
    {
        if self.inv.len() > n {
            proof {
                assert(self.inv@.subrange(0, self.inv@.len() as int) =~= self.inv@);
            }
            return;
        }
        let m = self.modulus;
        let mut i = self.inv.len();
        while i <= n
            invariant
                self.wf(),
                self.modulus == m,
                n < usize::MAX,
                i == self.inv@.len(),
                old(self).inv@.len() <= i <= n + 1,
                old(self).inv@ == self.inv@.subrange(0, old(self).inv@.len() as int),
            decreases n + 1 - i,
        {
            let r = (m % (i as u64)) as usize;
            proof {
                lemma_mod_bound(m as int, i as int);
                lemma_inv_entry_bound(m as nat, r as nat);
                lemma_inv_entry_bound(m as nat, i as nat);
                assert(self.inv@[r as int] == inv_entry(m as nat, r as nat));
                assert(i >= 2);
                assert((m / (i as u64)) as int <= m / 2) by {
                    vstd::arithmetic::div_mod::lemma_div_is_ordered_by_denominator(m as int, 2, i as int);
                }
                assert(self.inv@[r as int] as int * ((m / (i as u64)) as int) <= m as int * (m / 2)) by {
                    lemma_mul_inequality(self.inv@[r as int] as int, m as int, (m / (i as u64)) as int);
                    lemma_mul_is_commutative(m as int, (m / (i as u64)) as int);
                    lemma_mul_inequality((m / (i as u64)) as int, (m / 2) as int, m as int);
                    lemma_mul_is_commutative(m as int, (m / 2) as int);
                }
            }
            let prod = self.inv[r] * (m / (i as u64));
            proof {
                lemma_mod_bound(prod as int, m as int);
            }
            let v = m - prod % m;
            let ghost before = self.inv@;
            self.inv.push(v);
            proof {
                assert(v == inv_entry(m as nat, i as nat));
                assert forall|k: int| 0 <= k < self.inv@.len() implies #[trigger] self.inv@[k] == inv_entry(self.modulus as nat, k as nat) by {
                    if k < i {
                        assert(self.inv@[k] == before[k]);
                    }
                }
                assert(old(self).inv@ =~= self.inv@.subrange(0, old(self).inv@.len() as int));
            }
            i += 1;
        }
        proof {
            assert(self.inv@.subrange(0, self.inv@.len() as int) =~= self.inv@);
        }
    }

    /// The entry for `idx`.
    pub fn index(&self, idx: usize) -> (v: u64)
        requires
            self.wf(),
            idx < self@.len(),
        ensures
            v == inv_entry(self.modulus_spec(), idx as nat),
    {
        self.inv[idx]
    }
}

} // verus!
