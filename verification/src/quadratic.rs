//! Square roots modulo a prime by Tonelli–Shanks, with Fermat's little
//! theorem and Euler's criterion for squares that decide when none exists.
use vstd::prelude::*;
use vstd::arithmetic::div_mod::{
    lemma_mul_mod_noop, lemma_mod_bound, lemma_sub_mod_noop, lemma_small_mod, lemma_fundamental_div_mod,
};
use crate::number::{prime, divides, power, pow_mod, lemma_power_square, lemma_power_mod};
use crate::sieve::lemma_prime_divides_product;

verus! {

/// Product of the elements.
pub open spec fn prod(s: Seq<int>) -> int
    decreases s.len(),
{
    if s.len() == 0 {
        1
    } else {
        prod(s.drop_last()) * s.last()
    }
}

/// `1, 2, .., n`.
pub open spec fn residues(n: nat) -> Seq<int> {
    Seq::new(n, |i: int| i + 1)
}

/// `x * 1 mod p, x * 2 mod p, .., x * n mod p`.
pub open spec fn scaled(x: int, p: int, n: nat) -> Seq<int> {
    Seq::new(n, |i: int| (x * (i + 1)) % p)
}

proof fn lemma_prod_remove(t: Seq<int>, j: int)
    requires
        0 <= j < t.len(),
    ensures
        prod(t) == prod(t.remove(j)) * t[j],
    decreases t.len(),
{
    if j == t.len() - 1 {
        assert(t.remove(j) =~= t.drop_last());
    } else {
        let t1 = t.drop_last();
        lemma_prod_remove(t1, j);
        assert(t.remove(j).drop_last() =~= t1.remove(j));
        assert(t.remove(j).last() == t.last());
        let a = prod(t1.remove(j));
        assert((a * t[j]) * t.last() == (a * t.last()) * t[j]) by (nonlinear_arith);
    }
}

/// A duplicate-free sequence whose elements all occur in a sequence of the
/// same length has the same product.
pub(crate) proof fn lemma_prod_perm(s: Seq<int>, t: Seq<int>)
    requires
        s.len() == t.len(),
        s.no_duplicates(),
        forall|i: int| 0 <= i < s.len() ==> t.contains(#[trigger] s[i]),
    ensures
        prod(s) == prod(t),
    decreases s.len(),
{
    if s.len() > 0 {
        let v = s.last();
        assert(t.contains(s[s.len() - 1]));
        let j = choose|j: int| 0 <= j < t.len() && t[j] == v;
        let s1 = s.drop_last();
        let t1 = t.remove(j);
        assert forall|i: int| 0 <= i < s1.len() implies t1.contains(#[trigger] s1[i]) by {
            assert(s1[i] == s[i]);
            assert(t.contains(s[i]));
            let k = choose|k: int| 0 <= k < t.len() && t[k] == s[i];
            assert(s[i] != s[s.len() - 1]);
            if k < j {
                assert(t1[k] == s1[i]);
            } else {
                assert(k > j);
                assert(t1[k - 1] == s1[i]);
            }
        }
        lemma_prod_perm(s1, t1);
        lemma_prod_remove(t, j);
    }
}

proof fn lemma_scaled_prod(x: int, p: int, n: nat)
    requires
        p > 0,
    ensures
        prod(scaled(x, p, n)) % p == (power(x, n) * prod(residues(n))) % p,
    decreases n,
{
    if n > 0 {
        let m = (n - 1) as nat;
        lemma_scaled_prod(x, p, m);
        assert(scaled(x, p, n).drop_last() =~= scaled(x, p, m));
        assert(residues(n).drop_last() =~= residues(m));
        let a = prod(scaled(x, p, m));
        let b = power(x, m) * prod(residues(m));
        let c = x * n;
        assert(prod(scaled(x, p, n)) == a * (c % p));
        assert(power(x, n) * prod(residues(n)) == b * c) by (nonlinear_arith)
            requires
                power(x, n) == x * power(x, m),
                prod(residues(n)) == prod(residues(m)) * n,
                b == power(x, m) * prod(residues(m)),
                c == x * n,
        ;
        lemma_mul_mod_noop(a, c % p, p);
        lemma_mod_twice(c, p);
        lemma_mul_mod_noop(b, c, p);
        lemma_mul_mod_noop(a, c, p);
    }
}

/// A positive base has a positive power.
pub(crate) proof fn lemma_power_pos_nat(x: nat, k: nat)
    requires
        x >= 1,
    ensures
        power(x as int, k) >= 1,
{
    lemma_power_pos(x as int, k);
}

proof fn lemma_mod_twice(x: int, m: int)
    requires
        m > 0,
    ensures
        (x % m) % m == x % m,
{
    lemma_mod_bound(x, m);
    lemma_small_mod((x % m) as nat, m as nat);
}

proof fn lemma_residues_prod(p: nat, n: nat)
    requires
        prime(p),
        n < p,
    ensures
        prod(residues(n)) > 0,
        prod(residues(n)) % (p as int) != 0,
    decreases n,
{
    if n == 0 {
        lemma_small_mod(1, p);
    } else {
        let m = (n - 1) as nat;
        lemma_residues_prod(p, m);
        assert(residues(n).drop_last() =~= residues(m));
        let f = prod(residues(m));
        assert(prod(residues(n)) == f * n);
        assert(f * n > 0) by (nonlinear_arith)
            requires
                f > 0,
                n > 0,
        ;
        if (f * n) % (p as int) == 0 {
            lemma_prime_divides_product(p, f as nat, n);
            assert(!divides(p, n)) by {
                lemma_small_mod(n, p);
            }
        }
    }
}

proof fn lemma_power_pos(x: int, k: nat)
    requires
        x > 0,
    ensures
        power(x, k) > 0,
    decreases k,
{
    if k > 0 {
        lemma_power_pos(x, (k - 1) as nat);
        let q = power(x, (k - 1) as nat);
        assert(x * q > 0) by (nonlinear_arith)
            requires
                x > 0,
                q > 0,
        ;
    }
}

/// The multiples `x * i mod p`, `1 <= i < p`, are nonzero and distinct.
proof fn lemma_scaled_distinct(x: nat, p: nat)
    requires
        prime(p),
        x % p != 0,
    ensures
        scaled(x as int, p as int, (p - 1) as nat).no_duplicates(),
        forall|i: int| 0 <= i < p - 1 ==> 1 <= #[trigger] scaled(x as int, p as int, (p - 1) as nat)[i] < p,
{
    let n = (p - 1) as nat;
    let s = scaled(x as int, p as int, n);
    assert forall|i: int| 0 <= i < p - 1 implies 1 <= #[trigger] s[i] < p by {
        let k = (i + 1) as nat;
        lemma_mod_bound((x * k) as int, p as int);
        if ((x * k) as int) % (p as int) == 0 {
            lemma_prime_divides_product(p, x, k);
            lemma_small_mod(k, p);
        }
    }
    assert forall|i: int, j: int| 0 <= i < j < n implies s[i] != s[j] by {
        let ki = (i + 1) as nat;
        let kj = (j + 1) as nat;
        let d = (kj - ki) as nat;
        if s[i] == s[j] {
            assert(x * kj - x * ki == x * d) by (nonlinear_arith)
                requires
                    d == kj - ki,
            ;
            let a = (x * kj) as int;
            let b = (x * ki) as int;
            assert(s[i] == b % (p as int));
            assert(s[j] == a % (p as int));
            lemma_sub_mod_noop(a, b, p as int);
            assert(a - b == (x * d) as int);
            lemma_small_mod(0, p);
            assert(((a % (p as int)) - (b % (p as int))) % (p as int) == 0);
            assert(((x * d) as int) % (p as int) == 0);
            lemma_prime_divides_product(p, x, d);
            lemma_small_mod(d, p);
        }
    }
}

/// Fermat's little theorem: for a prime `p` not dividing `x`,
/// `x^(p-1) mod p == 1`.
pub proof fn lemma_fermat(x: nat, p: nat)
    requires
        prime(p),
        x % p != 0,
    ensures
        power(x as int, (p - 1) as nat) % (p as int) == 1,
{
    let n = (p - 1) as nat;
    let pi = p as int;
    let s = scaled(x as int, pi, n);
    let t = residues(n);
    lemma_scaled_distinct(x, p);
    assert forall|i: int| 0 <= i < s.len() implies t.contains(#[trigger] s[i]) by {
        assert(1 <= s[i] < p);
        assert(t[s[i] - 1] == s[i]);
    }
    lemma_prod_perm(s, t);
    lemma_scaled_prod(x as int, pi, n);
    lemma_residues_prod(p, n);
    let f = prod(t);
    assert(x > 0) by {
        if x == 0 {
            lemma_small_mod(0, p);
        }
    }
    lemma_power_pos(x as int, n);
    let big = power(x as int, n);
    // f == big * f (mod p), so p divides (big - 1) * f
    assert((big - 1) * f == big * f - f) by (nonlinear_arith);
    lemma_sub_mod_noop(big * f, f, pi);
    lemma_mod_twice(f, pi);
    assert(prod(s) == f);
    assert(f % pi == (big * f) % pi);
    assert(((big * f) % pi - f % pi) == 0);
    lemma_small_mod(0, p);
    assert((big * f - f) % pi == 0);
    assert(((big - 1) * f) % pi == 0);
    assert((big - 1) * f >= 0) by (nonlinear_arith)
        requires
            big >= 1,
            f > 0,
    ;
    lemma_prime_divides_product(p, (big - 1) as nat, f as nat);
    assert(((big - 1) as nat) % p == 0);
    lemma_fundamental_div_mod(big - 1, pi);
    lemma_mod_shift(big - 1, pi);
}

proof fn lemma_mod_shift(y: int, m: int)
    requires
        m > 1,
        y >= 0,
        y % m == 0,
    ensures
        (y + 1) % m == 1,
{
    lemma_fundamental_div_mod(y, m);
    vstd::arithmetic::div_mod::lemma_mod_multiples_vanish(y / m, 1, m);
    assert(y + 1 == m * (y / m) + 1);
    lemma_small_mod(1, m as nat);
}

/// Euler's criterion for squares: if `a` is a nonzero square modulo an odd
/// prime `p`, then `a^((p-1)/2) mod p == 1`.
pub proof fn lemma_square_euler(x: nat, a: nat, p: nat)
    requires
        prime(p),
        p > 2,
        0 < a < p,
        (x * x) % p == a,
    ensures
        power(a as int, ((p - 1) / 2) as nat) % (p as int) == 1,
{
    let k = ((p - 1) / 2) as nat;
    let pi = p as int;
    assert(p % 2 == 1) by {
        if p % 2 == 0 {
            assert(divides(2, p));
        }
    }
    assert(2 * k == p - 1);
    if x % p == 0 {
        lemma_mul_mod_noop(x as int, x as int, pi);
        lemma_small_mod(0, p);
        assert((x as int % pi) * (x as int % pi) == 0);
        assert(false);
    }
    lemma_fermat(x, p);
    lemma_power_square(x as int, k);
    lemma_power_mod((x * x) as int, k, pi);
}

proof fn lemma_prod_fits(x: int, y: int, p: int)
    requires
        0 <= x < p,
        0 <= y < p,
        p <= 0x1_0000_0000,
    ensures
        x * y <= u64::MAX,
{
    assert(x * y <= u64::MAX) by (nonlinear_arith)
        requires
            0 <= x < p,
            0 <= y < p,
            p <= 0x1_0000_0000,
    ;
}

/// A square root of `a` modulo the prime `p` (Tonelli–Shanks): `a` itself
/// when `p <= 2` or `a <= 1`, `None` when `a` is not a square modulo `p`.
/// The search for a non-square and the refinement loop run a bounded number
/// of rounds; should they end without a root, every residue is tried.
pub fn sqrt_mod(a: u64, p: u64) -> (r: Option<u64>)
    requires
        prime(p as nat),
        a < p,
        p <= 0x1_0000_0000,
    ensures
        (p <= 2 || a <= 1) ==> r == Some(a),
        r matches Some(x) ==> x < p && (x as int * x as int) % (p as int) == a as int,
        r is None ==> forall|x: nat| x < p ==> #[trigger] ((x * x) % (p as nat)) != a as nat,
{
    if p <= 2 || a <= 1 {
        proof {
            assert(a <= 1) by {
                if p <= 2 {
                    assert(p == 2);
                }
            }
            assert(a * a == a) by (nonlinear_arith)
                requires
                    a <= 1,
            ;
            lemma_small_mod(a as nat, p as nat);
        }
        return Some(a);
    }
    let half: u64 = (p - 1) / 2;
    proof {
        lemma_prod_fits(p - 1, p - 1, p as int);
        lemma_prod_fits(p - 2, p - 2, p as int);
    }
    if pow_mod(a, half, p) != 1 {
        proof {
            assert forall|x: nat| x < p implies #[trigger] ((x * x) % (p as nat)) != a as nat by {
                if (x * x) % (p as nat) == a as nat {
                    lemma_square_euler(x, a as nat, p as nat);
                }
            }
        }
        return None;
    }
    let mut add: u64 = 1;
    while add * 2 < p
        invariant
            1 <= add < p,
            p <= 0x1_0000_0000,
        decreases p - add,
    {
        add = add * 2;
    }
    let mut b: u64 = 1;
    let mut tries: u64 = 0;
    while tries < p && (b == 0 || pow_mod(b, half, p) == 1)
        invariant
            b < p,
            1 <= add < p,
            tries <= p,
            3 <= p <= 0x1_0000_0000,
            (p - 1) * (p - 1) <= u64::MAX,
        decreases p - tries,
    {
        b = (b + add) % p;
        tries += 1;
    }
    if b != 0 && pow_mod(b, half, p) != 1 {
        let mut e: u64 = 0;
        let mut q: u64 = p - 1;
        while q % 2 == 0 && e < 64
            invariant
                1 <= q <= p - 1,
                e <= 64,
            decreases q,
        {
            q = q / 2;
            e += 1;
        }
        let mut x: u64 = pow_mod(a, (q + 1) / 2, p);
        let mut bb: u64 = pow_mod(b, q, p);
        proof {
            lemma_mod_bound(power(a as int, ((q + 1) / 2) as nat), p as int);
            lemma_mod_bound(power(b as int, q as nat), p as int);
        }
        proof {
            lemma_prod_fits(x as int, x as int, p as int);
        }
        let mut shift: u64 = 2;
        while x * x % p != a && shift <= e
            invariant
                x < p,
                x * x <= u64::MAX,
                bb < p,
                2 <= shift,
                e <= 64,
                3 <= p <= 0x1_0000_0000,
                (p - 1) * (p - 1) <= u64::MAX,
                (p - 2) * (p - 2) <= u64::MAX,
            decreases e + 1 - shift,
        {
            proof {
                lemma_prod_fits(x as int, x as int, p as int);
            }
            let inv = pow_mod(a, p - 2, p);
            proof {
                lemma_mod_bound(power(a as int, (p - 2) as nat), p as int);
            }
            proof {
                lemma_prod_fits(inv as int, x as int, p as int);
                lemma_mod_bound(inv * x, p as int);
                lemma_prod_fits((inv * x) % (p as int), x as int, p as int);
            }
            let error = inv * x % p * x % p;
            let exp = pow_mod(2, e - shift, p - 1);
            if pow_mod(error, exp, p) != 1 {
                proof {
                    lemma_prod_fits(x as int, bb as int, p as int);
                }
                x = x * bb % p;
            }
            proof {
                lemma_prod_fits(bb as int, bb as int, p as int);
            }
            bb = bb * bb % p;
            shift += 1;
            proof {
                lemma_prod_fits(x as int, x as int, p as int);
            }
        }
        proof {
            lemma_prod_fits(x as int, x as int, p as int);
        }
        if x * x % p == a {
            return Some(x);
        }
    }
    let mut y: u64 = 0;
    while y < p
        invariant
            y <= p,
            3 <= p <= 0x1_0000_0000,
            2 <= a < p,
            forall|z: nat| z < y ==> #[trigger] ((z * z) % (p as nat)) != a as nat,
        decreases p - y,
    {
        proof {
            lemma_prod_fits(y as int, y as int, p as int);
        }
        if y * y % p == a {
            return Some(y);
        }
        y += 1;
    }
    None
}

} // verus!
