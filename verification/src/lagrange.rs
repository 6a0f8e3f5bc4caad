//! Lagrange interpolation: the value at `t` of the polynomial through the
//! points `(i, y_i)`, `i = 0 ..= deg`, by its Lagrange sum in residues
//! modulo `m`.
use vstd::prelude::*;
use vstd::arithmetic::div_mod::{lemma_mod_bound, lemma_small_mod, lemma_mod_add_multiples_vanish, lemma_add_mod_noop};
use crate::factorial::{FactorialInvMod, fact_inv_mod};

verus! {

/// `(a - b) mod m`.
pub open spec fn sub_mod(a: int, b: int, m: nat) -> nat {
    ((a - b) % (m as int)) as nat
}

/// `prod_{j < i} (t - j)` modulo `m`.
pub open spec fn lead_prod(t: nat, m: nat, i: nat) -> nat
    decreases i,
{
    if i == 0 {
        1nat % m
    } else {
        (lead_prod(t, m, (i - 1) as nat) * sub_mod(t as int, i - 1, m)) % m
    }
}

/// `prod_{i < j <= deg} (t - j)` modulo `m`.
pub open spec fn trail_prod(t: nat, m: nat, deg: nat, i: nat) -> nat
    decreases deg - i,
{
    if i + 1 > deg {
        1nat % m
    } else {
        (trail_prod(t, m, deg, i + 1) * sub_mod(t as int, (i + 1) as int, m)) % m
    }
}

/// The `i`-th term `y_i * lead_prod(i) * trail_prod(i) / i! / (deg - i)!`,
/// the inverse factorials taken from the table modulo `m`.
pub open spec fn lagrange_term(y: Seq<u64>, t: nat, m: nat, deg: nat, i: nat) -> nat {
    ((((y[i as int] as nat * lead_prod(t, m, i)) % m * trail_prod(t, m, deg, i)) % m
        * (fact_inv_mod(m, i) % m)) % m * (fact_inv_mod(m, (deg - i) as nat) % m)) % m
}

/// The terms `0 .. k` summed modulo `m`, each added where `deg - i` is
/// even and subtracted where it is odd: the Lagrange interpolation sum
/// `sum_i y_i prod_{j != i} (t - j) / (i - j)`.
pub open spec fn lagrange_sum(y: Seq<u64>, t: nat, m: nat, deg: nat, k: nat) -> nat
    decreases k,
{
    if k == 0 {
        0
    } else {
        let acc = lagrange_sum(y, t, m, deg, (k - 1) as nat);
        let term = lagrange_term(y, t, m, deg, (k - 1) as nat);
        if (deg - (k - 1)) % 2 == 0 {
            (acc + term) % m
        } else {
            sub_mod(acc as int, term as int, m)
        }
    }
}

/// `(a - b) mod m` for residues `a` and any `b`.
fn sub_residue(a: u64, b: u64, m: u64) -> (r: u64)
    requires
        1 <= m <= 0xFFFF_FFFF,
        a < m,
    ensures
        r == sub_mod(a as int, b as int, m as nat),
        r < m,
{
    let bm = b % m;
    proof {
        lemma_mod_bound(b as int, m as int);
        vstd::arithmetic::div_mod::lemma_fundamental_div_mod(b as int, m as int);
        let q = (b as int) / (m as int);
        assert((a as int) - (b as int) == ((a as int) + (m as int) - (bm as int)) + (-q - 1) * (m as int)) by (nonlinear_arith)
            requires
                b == (m as int) * q + bm,
        ;
        lemma_mod_add_multiples_vanish_general((a as int) + (m as int) - (bm as int), -q - 1, m as int);
        lemma_mod_bound((a as int) + (m as int) - (bm as int), m as int);
    }
    (a + m - bm) % m
}

proof fn lemma_mod_add_multiples_vanish_general(x: int, k: int, m: int)
    requires
        m > 0,
    ensures
        (x + k * m) % m == x % m,
{
    vstd::arithmetic::div_mod::lemma_mod_multiples_vanish(k, x, m);
    vstd::arithmetic::mul::lemma_mul_is_commutative(k, m);
}

/// The interpolation sum through `(i, y[i])`, `i = 0 ..= deg`, at `t`, in
/// residues modulo `m`: `y[t]` where `t <= deg`, otherwise `lagrange_sum`.
pub fn lagrange_polynomial(y: &[u64], t: u64, m: u64) -> (r: u64)
    requires
        y@.len() >= 1,
        1 <= m <= 0xFFFF_FFFF,
        (m - 1) * (y@.len() - 1) <= u64::MAX,
        t < m,
        forall|i: int| 0 <= i < y@.len() ==> #[trigger] y@[i] < m,
    ensures
        t < y@.len() ==> r == y@[t as int],
        t >= y@.len() ==> r == lagrange_sum(y@, t as nat, m as nat, (y@.len() - 1) as nat, y@.len() as nat),
{
    let deg = y.len() - 1;
    proof {
        assert(m * m <= u64::MAX) by (nonlinear_arith)
            requires
                1 <= m <= 0xFFFF_FFFF,
        ;
    }
    let f = FactorialInvMod::new(deg, m);
    if t <= deg as u64 {
        return y[t as usize];
    }
    let ghost mm = m as nat;
    let ghost tt = t as nat;
    let mut dp: Vec<u64> = Vec::new();
    dp.push(1 % m);
    let mut i: usize = 0;
    while i < deg
        invariant
            mm == m as nat,
            tt == t as nat,
            1 <= m <= 0xFFFF_FFFF,
            t < m,
            i <= deg,
            dp@.len() == i + 1,
            forall|k: int| 0 <= k <= i ==> #[trigger] dp@[k] == lead_prod(tt, mm, k as nat),
            forall|k: int| 0 <= k <= i ==> #[trigger] dp@[k] < m,
        decreases deg - i,
    {
        let s = sub_residue(t, i as u64, m);
        proof {
            assert(dp@[i as int] * s <= (m - 1) * (m - 1)) by (nonlinear_arith)
                requires
                    dp@[i as int] < m,
                    s < m,
            ;
            assert((m - 1) * (m - 1) <= u64::MAX) by (nonlinear_arith)
                requires
                    1 <= m <= 0xFFFF_FFFF,
            ;
            lemma_mod_bound((dp@[i as int] * s) as int, m as int);
        }
        let v = dp[i] * s % m;
        let ghost old_dp = dp@;
        dp.push(v);
        proof {
            assert(lead_prod(tt, mm, (i + 1) as nat) == (lead_prod(tt, mm, i as nat) * sub_mod(t as int, i as int, mm)) % mm);
            assert forall|k: int| 0 <= k <= i + 1 implies #[trigger] dp@[k] == lead_prod(tt, mm, k as nat) by {
                if k <= i {
                    assert(dp@[k] == old_dp[k]);
                }
            }
        }
        i += 1;
    }
    let mut pd: Vec<u64> = Vec::new();
    let mut k: usize = 0;
    while k <= deg
        invariant
            mm == m as nat,
            tt == t as nat,
            1 <= m <= 0xFFFF_FFFF,
            deg < usize::MAX,
            k <= deg + 1,
            pd@.len() == k,
            forall|j: int| 0 <= j < k ==> #[trigger] pd@[j] == 1u64 % m,
        decreases deg + 1 - k,
    {
        pd.push(1 % m);
        k += 1;
    }
    let mut j: usize = deg;
    proof {
        assert(pd@[deg as int] == 1u64 % m);
        assert(pd@[deg as int] == trail_prod(tt, mm, deg as nat, deg as nat));
    }
    while j > 0
        invariant
            mm == m as nat,
            tt == t as nat,
            1 <= m <= 0xFFFF_FFFF,
            t < m,
            j <= deg,
            deg == y@.len() - 1,
            pd@.len() == deg + 1,
            forall|a: int| j <= a <= deg ==> #[trigger] pd@[a] == trail_prod(tt, mm, deg as nat, a as nat),
            forall|a: int| 0 <= a <= deg ==> #[trigger] pd@[a] < m,
        decreases j,
    {
        let s = sub_residue(t, j as u64, m);
        proof {
            assert(pd@[j as int] * s <= (m - 1) * (m - 1)) by (nonlinear_arith)
                requires
                    pd@[j as int] < m,
                    s < m,
            ;
            assert((m - 1) * (m - 1) <= u64::MAX) by (nonlinear_arith)
                requires
                    1 <= m <= 0xFFFF_FFFF,
            ;
            lemma_mod_bound((pd@[j as int] * s) as int, m as int);
        }
        let v = pd[j] * s % m;
        pd.set(j - 1, v);
        proof {
            assert(trail_prod(tt, mm, deg as nat, (j - 1) as nat) == (trail_prod(tt, mm, deg as nat, j as nat) * sub_mod(t as int, j as int, mm)) % mm);
        }
        j -= 1;
    }
    let mut ret: u64 = 0;
    let mut i: usize = 0;
    while i <= deg
        invariant
            mm == m as nat,
            tt == t as nat,
            1 <= m <= 0xFFFF_FFFF,
            deg < usize::MAX,
            deg == y@.len() - 1,
            i <= deg + 1,
            f.wf(),
            f.modulus_spec() == m,
            f@.len() == deg + 1,
            dp@.len() == deg + 1,
            pd@.len() == deg + 1,
            forall|k: int| 0 <= k <= deg ==> #[trigger] dp@[k] == lead_prod(tt, mm, k as nat),
            forall|a: int| 0 <= a <= deg ==> #[trigger] pd@[a] == trail_prod(tt, mm, deg as nat, a as nat),
            forall|k: int| 0 <= k <= deg ==> #[trigger] dp@[k] < m,
            forall|a: int| 0 <= a <= deg ==> #[trigger] pd@[a] < m,
            forall|a: int| 0 <= a < y@.len() ==> #[trigger] y@[a] < m,
            ret < m,
            ret == lagrange_sum(y@, tt, mm, deg as nat, i as nat),
        decreases deg + 1 - i,
    {
        let fi = f.fact_inv(i) % m;
        let fd = f.fact_inv(deg - i) % m;
        let t1 = mul_residue(y[i], dp[i], m);
        let t2 = mul_residue(t1, pd[i], m);
        let t3 = mul_residue(t2, fi, m);
        let tmp = mul_residue(t3, fd, m);
        proof {
            assert(y@[i as int] < m);
            assert(dp@[i as int] == lead_prod(tt, mm, i as nat));
            assert(pd@[i as int] == trail_prod(tt, mm, deg as nat, i as nat));
            assert(fi == fact_inv_mod(mm, i as nat) % mm);
            assert(fd == fact_inv_mod(mm, (deg - i) as nat) % mm);
            assert(tmp == lagrange_term(y@, tt, mm, deg as nat, i as nat));
            assert(lagrange_sum(y@, tt, mm, deg as nat, (i + 1) as nat) == if (deg - i) % 2 == 0 {
                ((ret as nat) + (tmp as nat)) % mm
            } else {
                sub_mod(ret as int, tmp as int, mm)
            });
        }
        if (deg - i) % 2 == 0 {
            proof {
                lemma_mod_bound((ret + tmp) as int, m as int);
            }
            ret = (ret + tmp) % m;
        } else {
            ret = sub_residue(ret, tmp, m);
        }
        i += 1;
    }
    ret
}

/// `a * b mod m` for residues.
fn mul_residue(a: u64, b: u64, m: u64) -> (r: u64)
    requires
        1 <= m <= 0xFFFF_FFFF,
        a < m,
        b < m,
    ensures
        r == (a * b) % (m as int),
        r < m,
{
    proof {
        assert(a * b <= (m - 1) * (m - 1)) by (nonlinear_arith)
            requires
                a < m,
                b < m,
        ;
        assert((m - 1) * (m - 1) <= u64::MAX) by (nonlinear_arith)
            requires
                1 <= m <= 0xFFFF_FFFF,
        ;
        lemma_mod_bound((a * b) as int, m as int);
    }
    a * b % m
}

} // verus!
