//! Sums over all unordered pairs of `x ^ y`, `x | y` and `x & y` for `u64`
//! sequences, computed bit by bit. The sums are taken modulo 2^64.
use vstd::prelude::*;
use vstd::arithmetic::power2::{pow2, lemma_pow2_unfold, lemma_pow2_pos};
use vstd::arithmetic::div_mod::{lemma_add_mod_noop, lemma_mod_bound, lemma_small_mod};
use vstd::arithmetic::mul::{lemma_mul_inequality, lemma_mul_is_distributive_add};
use vstd::bits::{lemma_u64_shl_is_mul, lemma_u64_pow2_no_overflow};
use vstd::std_specs::bits::{u64_leading_zeros, axiom_u64_leading_zeros};
use crate::pairs::{pair_sum, row_sum, col_sum, lemma_pair_sum_add, lemma_pair_sum_congruent, lemma_pair_sum_split_first};
use crate::wrap::{word, wrap_u64};

verus! {

/// The elements of a `u64` sequence as mathematical integers.
pub open spec fn u64s_to_ints(s: Seq<u64>) -> Seq<int> {
    s.map_values(|x: u64| x as int)
}

/// The pair `(x, y)` contributes `x ^ y`.
pub open spec fn pf_xor() -> spec_fn(int, int) -> int {
    |x: int, y: int| ((x as u64) ^ (y as u64)) as int
}

/// The pair `(x, y)` contributes `x | y`.
pub open spec fn pf_or() -> spec_fn(int, int) -> int {
    |x: int, y: int| ((x as u64) | (y as u64)) as int
}

/// The pair `(x, y)` contributes `x & y`.
pub open spec fn pf_and() -> spec_fn(int, int) -> int {
    |x: int, y: int| ((x as u64) & (y as u64)) as int
}

/// Bit `k` of `x` (`0` from bit 64 on).
pub open spec fn bit(x: u64, k: nat) -> int {
    if k < 64 {
        ((x >> (k as u64)) & 1u64) as int
    } else {
        0
    }
}

/// The word operation with code `o`: `0` xor, `1` or, otherwise and.
pub open spec fn word_op(o: int, x: u64, y: u64) -> u64 {
    if o == 0 {
        x ^ y
    } else if o == 1 {
        x | y
    } else {
        x & y
    }
}

/// The same operation on single bits `a`, `b` in `{0, 1}`.
pub open spec fn bit_op(o: int, a: int, b: int) -> int {
    if o == 0 {
        if a != b { 1 } else { 0 }
    } else if o == 1 {
        if a == 1 || b == 1 { 1 } else { 0 }
    } else {
        if a == 1 && b == 1 { 1 } else { 0 }
    }
}

/// The pair `(x, y)` contributes the word operation `o` of `x` and `y`.
pub open spec fn pf_word(o: int) -> spec_fn(int, int) -> int {
    |x: int, y: int| word_op(o, x as u64, y as u64) as int
}

/// The pair `(x, y)` contributes bit `k` of the word operation `o`.
pub open spec fn pf_bits(o: int, k: nat) -> spec_fn(int, int) -> int {
    |x: int, y: int| bit_op(o, bit(x as u64, k), bit(y as u64, k))
}

/// `sum over k < kk of 2^k * bit_op(o, bit(x, k), bit(y, k))`.
pub open spec fn wsum(o: int, kk: nat, x: u64, y: u64) -> int
    decreases kk,
{
    if kk == 0 {
        0
    } else {
        wsum(o, (kk - 1) as nat, x, y) + pow2((kk - 1) as nat) * bit_op(o, bit(x, (kk - 1) as nat), bit(y, (kk - 1) as nat))
    }
}

/// The pair `(x, y)` contributes `wsum(o, kk, x, y)`.
pub open spec fn pf_wsum(o: int, kk: nat) -> spec_fn(int, int) -> int {
    |x: int, y: int| wsum(o, kk, x as u64, y as u64)
}

/// `sum over k < kk of 2^k * (number of pairs whose bit k gives 1 under o)`.
pub open spec fn bit_pair_total(o: int, s: Seq<int>, kk: nat) -> int
    decreases kk,
{
    if kk == 0 {
        0
    } else {
        bit_pair_total(o, s, (kk - 1) as nat) + pow2((kk - 1) as nat) * pair_sum(s, pf_bits(o, (kk - 1) as nat))
    }
}

/// `sum over k < kk of 2^k * bit(z, k)`.
pub open spec fn low_bits(z: u64, kk: nat) -> int
    decreases kk,
{
    if kk == 0 {
        0
    } else {
        low_bits(z, (kk - 1) as nat) + pow2((kk - 1) as nat) * bit(z, (kk - 1) as nat)
    }
}

/// Number of elements of `s` whose bit `k` is set.
pub open spec fn ones(s: Seq<int>, k: nat) -> int
    decreases s.len(),
{
    if s.len() == 0 {
        0
    } else {
        ones(s.drop_last(), k) + bit(s.last() as u64, k)
    }
}

// ---------------------------------------------------------------------------
// Binary expansion
// ---------------------------------------------------------------------------

proof fn lemma_bit_range(x: u64, k: nat)
    ensures
        0 <= bit(x, k) <= 1,
{
    if k < 64 {
        let kk = k as u64;
        assert((x >> kk) & 1u64 <= 1u64) by (bit_vector);
    }
}

proof fn lemma_word_op_bit(o: int, x: u64, y: u64, k: nat)
    ensures
        bit(word_op(o, x, y), k) == bit_op(o, bit(x, k), bit(y, k)),
{
    lemma_bit_range(x, k);
    lemma_bit_range(y, k);
    if k < 64 {
        let kk = k as u64;
        if o == 0 {
            assert(((x ^ y) >> kk) & 1u64 == (if (x >> kk) & 1u64 != (y >> kk) & 1u64 { 1u64 } else { 0u64 })) by (bit_vector);
        } else if o == 1 {
            assert(((x | y) >> kk) & 1u64 == (if (x >> kk) & 1u64 == 1u64 || (y >> kk) & 1u64 == 1u64 { 1u64 } else { 0u64 })) by (bit_vector);
        } else {
            assert(((x & y) >> kk) & 1u64 == (if (x >> kk) & 1u64 == 1u64 && (y >> kk) & 1u64 == 1u64 { 1u64 } else { 0u64 })) by (bit_vector);
        }
    }
}

proof fn lemma_low_bits_shift(z: u64, kk: nat)
    requires
        kk <= 63,
    ensures
        z as int == low_bits(z, kk) + pow2(kk) * ((z >> (kk as u64)) as int),
    decreases kk,
{
    if kk == 0 {
        assert(z >> 0u64 == z) by (bit_vector);
        vstd::arithmetic::power2::lemma2_to64();
        assert(low_bits(z, 0) == 0);
        assert((z >> (kk as u64)) == z);
        assert(pow2(kk) == 1);
    } else {
        let k = (kk - 1) as u64;
        lemma_low_bits_shift(z, (kk - 1) as nat);
        let k1 = kk as u64;
        assert((z >> k) as int == 2 * ((z >> k1) as int) + ((z >> k) & 1u64) as int) by (bit_vector)
            requires
                k < 63u64,
                k1 == k + 1,
        ;
        lemma_pow2_unfold(kk);
        let p = pow2((kk - 1) as nat) as int;
        let hi = (z >> (kk as u64)) as int;
        let lo = (z >> k) as int;
        assert(lo == ((z >> (((kk - 1) as nat) as u64))) as int);
        assert(bit(z, (kk - 1) as nat) == ((z >> k) & 1u64) as int);
        assert(lo == 2 * hi + bit(z, (kk - 1) as nat));
        assert(z as int == low_bits(z, (kk - 1) as nat) + p * lo);
        assert(p * (2 * hi + bit(z, (kk - 1) as nat)) == p * bit(z, (kk - 1) as nat) + (2 * p) * hi) by (nonlinear_arith);
        assert(pow2(kk) == 2 * p);
        assert(low_bits(z, kk) == low_bits(z, (kk - 1) as nat) + p * bit(z, (kk - 1) as nat));
        assert(hi == (z >> (kk as u64)) as int);
        assert(z as int == low_bits(z, kk) + (2 * p) * hi);
    }
}

proof fn lemma_low_bits_full(z: u64)
    ensures
        z as int == low_bits(z, 64),
{
    lemma_low_bits_shift(z, 63);
    assert(z >> 63u64 == (z >> 63u64) & 1u64) by (bit_vector);
}

proof fn lemma_wsum_low_bits(o: int, x: u64, y: u64, kk: nat)
    ensures
        wsum(o, kk, x, y) == low_bits(word_op(o, x, y), kk),
    decreases kk,
{
    if kk > 0 {
        lemma_wsum_low_bits(o, x, y, (kk - 1) as nat);
        lemma_word_op_bit(o, x, y, (kk - 1) as nat);
    }
}

proof fn lemma_word_op_expansion(o: int, x: u64, y: u64)
    ensures
        word_op(o, x, y) as int == wsum(o, 64, x, y),
{
    lemma_low_bits_full(word_op(o, x, y));
    lemma_wsum_low_bits(o, x, y, 64);
}

// ---------------------------------------------------------------------------
// Pair sums of bits
// ---------------------------------------------------------------------------

proof fn lemma_row_sum_zero(s: Seq<int>, y: int, f: spec_fn(int, int) -> int)
    requires
        forall|a: int, b: int| #[trigger] f(a, b) == 0,
    ensures
        row_sum(s, y, f) == 0,
    decreases s.len(),
{
    if s.len() > 0 {
        lemma_row_sum_zero(s.drop_last(), y, f);
        assert(f(s.last(), y) == 0);
    }
}

proof fn lemma_pair_sum_zero(s: Seq<int>, f: spec_fn(int, int) -> int)
    requires
        forall|a: int, b: int| #[trigger] f(a, b) == 0,
    ensures
        pair_sum(s, f) == 0,
    decreases s.len(),
{
    if s.len() > 0 {
        lemma_pair_sum_zero(s.drop_last(), f);
        lemma_row_sum_zero(s.drop_last(), s.last(), f);
    }
}

proof fn lemma_row_sum_scale(s: Seq<int>, y: int, c: int, f: spec_fn(int, int) -> int, g: spec_fn(int, int) -> int)
    requires
        forall|a: int, b: int| #[trigger] g(a, b) == c * f(a, b),
    ensures
        row_sum(s, y, g) == c * row_sum(s, y, f),
    decreases s.len(),
{
    if s.len() > 0 {
        lemma_row_sum_scale(s.drop_last(), y, c, f, g);
        assert(g(s.last(), y) == c * f(s.last(), y));
        lemma_mul_is_distributive_add(c, row_sum(s.drop_last(), y, f), f(s.last(), y));
    }
}

proof fn lemma_pair_sum_scale(s: Seq<int>, c: int, f: spec_fn(int, int) -> int, g: spec_fn(int, int) -> int)
    requires
        forall|a: int, b: int| #[trigger] g(a, b) == c * f(a, b),
    ensures
        pair_sum(s, g) == c * pair_sum(s, f),
    decreases s.len(),
{
    if s.len() > 0 {
        lemma_pair_sum_scale(s.drop_last(), c, f, g);
        lemma_row_sum_scale(s.drop_last(), s.last(), c, f, g);
        lemma_mul_is_distributive_add(c, pair_sum(s.drop_last(), f), row_sum(s.drop_last(), s.last(), f));
    }
}

proof fn lemma_pair_sum_wsum(o: int, s: Seq<int>, kk: nat)
    ensures
        pair_sum(s, pf_wsum(o, kk)) == bit_pair_total(o, s, kk),
    decreases kk,
{
    if kk == 0 {
        lemma_pair_sum_zero(s, pf_wsum(o, 0));
    } else {
        let k = (kk - 1) as nat;
        lemma_pair_sum_wsum(o, s, k);
        let c = pow2(k) as int;
        let h = |x: int, y: int| c * pf_bits(o, k)(x, y);
        lemma_pair_sum_scale(s, c, pf_bits(o, k), h);
        lemma_pair_sum_add(s, pf_wsum(o, kk), pf_wsum(o, k), h);
    }
}

/// The pair sum of a word operation is the weighted sum of its bit pair sums.
proof fn lemma_pair_sum_word(o: int, s: Seq<int>)
    ensures
        pair_sum(s, pf_word(o)) == bit_pair_total(o, s, 64),
{
    assert forall|a: int, b: int| #[trigger] pf_word(o)(a, b) == pf_wsum(o, 64)(a, b) by {
        lemma_word_op_expansion(o, a as u64, b as u64);
    }
    assert forall|i: int, j: int| 0 <= i < j < s.len() implies pf_word(o)(#[trigger] s[i], #[trigger] s[j]) == pf_wsum(o, 64)(s[i], s[j]) by {
        assert(pf_word(o)(s[i], s[j]) == pf_wsum(o, 64)(s[i], s[j]));
    }
    lemma_pair_sum_congruent(s, pf_word(o), pf_wsum(o, 64));
    lemma_pair_sum_wsum(o, s, 64);
}

/// Bits at or above `bits` contribute nothing when every element is below
/// `2^bits`.
proof fn lemma_bit_pair_total_cut(o: int, s: Seq<int>, bits: nat, kk: nat)
    requires
        bits <= kk,
        forall|i: int, k: nat| 0 <= i < s.len() && bits <= k ==> #[trigger] bit(s[i] as u64, k) == 0,
    ensures
        bit_pair_total(o, s, kk) == bit_pair_total(o, s, bits),
    decreases kk,
{
    if kk > bits {
        let k = (kk - 1) as nat;
        lemma_bit_pair_total_cut(o, s, bits, k);
        assert forall|i: int, j: int| 0 <= i < j < s.len() implies pf_bits(o, k)(#[trigger] s[i], #[trigger] s[j]) == (|a: int, b: int| 0int)(s[i], s[j]) by {
            assert(bit(s[i] as u64, k) == 0);
            assert(bit(s[j] as u64, k) == 0);
        }
        lemma_pair_sum_congruent(s, pf_bits(o, k), |a: int, b: int| 0int);
        lemma_pair_sum_zero(s, |a: int, b: int| 0int);
    }
}

proof fn lemma_ones_split_first(s: Seq<int>, k: nat)
    requires
        s.len() > 0,
    ensures
        ones(s, k) == bit(s[0] as u64, k) + ones(s.drop_first(), k),
    decreases s.len(),
{
    let t = s.drop_first();
    if s.len() > 1 {
        lemma_ones_split_first(s.drop_last(), k);
        assert(s.drop_last().drop_first() =~= t.drop_last());
        assert(t.last() == s.last());
        assert(s.drop_last()[0] == s[0]);
        assert(ones(t, k) == ones(t.drop_last(), k) + bit(t.last() as u64, k));
        assert(ones(s, k) == ones(s.drop_last(), k) + bit(s.last() as u64, k));
    } else {
        assert(s.drop_last().len() == 0);
        assert(t.len() == 0);
        assert(ones(t, k) == 0);
        assert(ones(s.drop_last(), k) == 0);
        assert(s.last() == s[0]);
        assert(ones(s, k) == ones(s.drop_last(), k) + bit(s.last() as u64, k));
    }
}

proof fn lemma_ones_bound(s: Seq<int>, k: nat)
    ensures
        0 <= ones(s, k) <= s.len(),
    decreases s.len(),
{
    if s.len() > 0 {
        lemma_ones_bound(s.drop_last(), k);
        lemma_bit_range(s.last() as u64, k);
    }
}

/// The pairs `(x, y)` with `y` in `s`: how many give 1 under `o` at bit `k`.
proof fn lemma_col_sum_bits(o: int, x: int, s: Seq<int>, k: nat)
    ensures
        col_sum(x, s, pf_bits(o, k)) == if o == 0 {
            if bit(x as u64, k) == 1 { s.len() - ones(s, k) } else { ones(s, k) }
        } else if o == 1 {
            if bit(x as u64, k) == 1 { s.len() as int } else { ones(s, k) }
        } else {
            if bit(x as u64, k) == 1 { ones(s, k) } else { 0 }
        },
    decreases s.len(),
{
    lemma_bit_range(x as u64, k);
    if s.len() > 0 {
        lemma_col_sum_bits(o, x, s.drop_last(), k);
        lemma_bit_range(s.last() as u64, k);
    }
}

// ---------------------------------------------------------------------------
// Executable functions
// ---------------------------------------------------------------------------

/// The largest bit length among the elements: every element is below
/// `2^bits`.
fn max_bit_len(xs: &[u64]) -> (bits: u32)
    ensures
        bits <= 64,
        forall|i: int, k: nat| 0 <= i < xs@.len() && bits <= k ==> #[trigger] bit(xs@[i], k) == 0,
{
    let mut bits: u32 = 0;
    let mut j: usize = 0;
    while j < xs.len()
        invariant
            j <= xs.len(),
            bits <= 64,
            forall|i: int, k: nat| 0 <= i < j && bits <= k ==> #[trigger] bit(xs@[i], k) == 0,
        decreases xs.len() - j,
    {
        let x = xs[j];
        let lz = x.leading_zeros();
        proof {
            axiom_u64_leading_zeros(x);
        }
        let len = 64 - lz;
        if len > bits {
            bits = len;
        }
        proof {
            assert forall|i: int, k: nat| 0 <= i < j + 1 && bits <= k implies #[trigger] bit(xs@[i], k) == 0 by {
                if k < 64 {
                    let kk = k as u64;
                    if i == j {
                        assert(64 - u64_leading_zeros(x) <= kk < 64);
                        assert((x >> kk) & 1u64 == 0u64);
                    }
                }
            }
        }
        j += 1;
    }
    bits
}

/// The pairs of a suffix are among the pairs of the whole sequence.
proof fn lemma_suffix_pair_sum(s: Seq<int>, o: int, k: nat, j: int)
    requires
        0 <= j <= s.len(),
    ensures
        0 <= pair_sum(s.subrange(j, s.len() as int), pf_bits(o, k)) <= pair_sum(s, pf_bits(o, k)),
    decreases j,
{
    let f = pf_bits(o, k);
    let n = s.len() as int;
    if j == 0 {
        assert(s.subrange(0, n) =~= s);
        lemma_suffix_nonneg(s, o, k);
    } else {
        lemma_suffix_pair_sum(s, o, k, j - 1);
        let q2 = s.subrange(j - 1, n);
        let q = s.subrange(j, n);
        assert(q2.drop_first() =~= q);
        lemma_pair_sum_split_first(q2, f);
        lemma_col_sum_bits(o, q2[0], q, k);
        lemma_ones_bound(q, k);
        lemma_suffix_nonneg(q, o, k);
    }
}

/// Pair sums of bit indicators are not negative.
proof fn lemma_suffix_nonneg(s: Seq<int>, o: int, k: nat)
    ensures
        pair_sum(s, pf_bits(o, k)) >= 0,
    decreases s.len(),
{
    if s.len() > 0 {
        lemma_pair_sum_split_first(s, pf_bits(o, k));
        lemma_col_sum_bits(o, s[0], s.drop_first(), k);
        lemma_ones_bound(s.drop_first(), k);
        lemma_suffix_nonneg(s.drop_first(), o, k);
    }
}

/// For every bit, the number of pairs it counts fits in `u64`.
pub open spec fn bit_counts_fit(xs: Seq<u64>, o: int) -> bool {
    forall|k: nat| k < 64 ==> #[trigger] pair_sum(u64s_to_ints(xs), pf_bits(o, k)) <= u64::MAX
}

proof fn lemma_bit_terms_bounded(o: int, s: Seq<int>, kk: nat, b: nat)
    requires
        b < kk,
    ensures
        0 <= pair_sum(s, pf_bits(o, b)) <= bit_pair_total(o, s, kk),
    decreases kk,
{
    let k = (kk - 1) as nat;
    lemma_suffix_nonneg(s, o, k);
    lemma_pow2_pos(k);
    assert(pow2(k) * pair_sum(s, pf_bits(o, k)) >= 0) by (nonlinear_arith)
        requires
            pow2(k) > 0,
            pair_sum(s, pf_bits(o, k)) >= 0,
    ;
    lemma_bit_total_nonneg(o, s, k);
    assert(bit_pair_total(o, s, kk) == bit_pair_total(o, s, k) + pow2(k) * pair_sum(s, pf_bits(o, k)));
    if b == k {
        lemma_suffix_nonneg(s, o, b);
        assert(pair_sum(s, pf_bits(o, b)) <= pow2(k) * pair_sum(s, pf_bits(o, k))) by (nonlinear_arith)
            requires
                pow2(k) >= 1,
                pair_sum(s, pf_bits(o, b)) >= 0,
                b == k,
        ;
    } else {
        lemma_bit_terms_bounded(o, s, k, b);
    }
}

proof fn lemma_bit_total_nonneg(o: int, s: Seq<int>, kk: nat)
    ensures
        bit_pair_total(o, s, kk) >= 0,
    decreases kk,
{
    if kk > 0 {
        let k = (kk - 1) as nat;
        lemma_bit_total_nonneg(o, s, k);
        lemma_suffix_nonneg(s, o, k);
        lemma_pow2_pos(k);
        assert(pow2(k) * pair_sum(s, pf_bits(o, k)) >= 0) by (nonlinear_arith)
            requires
                pow2(k) > 0,
                pair_sum(s, pf_bits(o, k)) >= 0,
        ;
    }
}

/// Law: when the exact sum over pairs fits in `u64`, so does every count
/// of pairs for one bit.
pub proof fn lemma_sum_fits_counts_fit(xs: Seq<u64>, o: int)
    requires
        pair_sum(u64s_to_ints(xs), pf_word(o)) <= u64::MAX,
    ensures
        bit_counts_fit(xs, o),
{
    let s = u64s_to_ints(xs);
    lemma_pair_sum_word(o, s);
    assert forall|k: nat| k < 64 implies #[trigger] pair_sum(u64s_to_ints(xs), pf_bits(o, k)) <= u64::MAX by {
        lemma_bit_terms_bounded(o, s, 64, k);
    }
}

/// Number of pairs whose bit `k` gives 1 under the operation `o`, counted
/// by a running count of the ones seen so far.
#[verifier::spinoff_prover]
fn count_bit_pairs(xs: &[u64], k: u32, o: u8) -> (c: u64)
    requires
        k < 64,
        pair_sum(u64s_to_ints(xs@), pf_bits(o as int, k as nat)) <= u64::MAX,
    ensures
        c as int == pair_sum(u64s_to_ints(xs@), pf_bits(o as int, k as nat)),
{
    let ghost s = u64s_to_ints(xs@);
    let ghost f = pf_bits(o as int, k as nat);
    let n = xs.len();
    let mut ans: u64 = 0;
    let mut cnt0: u64 = 0;
    let mut cnt1: u64 = 0;
    let mut j: usize = n;
    proof {
        assert(s.subrange(n as int, n as int).len() == 0);
    }
    while j > 0
        invariant
            j <= n,
            n == xs.len(),
            k < 64,
            s == u64s_to_ints(xs@),
            f == pf_bits(o as int, k as nat),
            pair_sum(s, f) <= u64::MAX,
            ans as int == pair_sum(s.subrange(j as int, n as int), f),
            o != 1 ==> cnt1 as int == ones(s.subrange(j as int, n as int), k as nat),
            o != 1 ==> cnt0 as int == (n - j) - ones(s.subrange(j as int, n as int), k as nat),
            o == 1 ==> cnt0 as int == ones(s.subrange(j as int, n as int), k as nat),
            o == 1 ==> cnt1 as int == n - j,
        decreases j,
    {
        j -= 1;
        let x = (xs[j] >> k) & 1;
        let ghost q = s.subrange(j + 1, n as int);
        let ghost q2 = s.subrange(j as int, n as int);
        proof {
            assert(q2.drop_first() =~= q);
            assert(q2[0] == xs@[j as int] as int);
            assert((xs@[j as int] as int) as u64 == xs@[j as int]);
            assert(x as int == bit(xs@[j as int], k as nat));
            lemma_pair_sum_split_first(q2, f);
            lemma_col_sum_bits(o as int, q2[0], q, k as nat);
            assert(bit(q2[0] as u64, k as nat) == x as int);
            assert(q.len() == n - j - 1);
            assert(pair_sum(q2, f) == col_sum(q2[0], q, f) + pair_sum(q, f));
            lemma_ones_split_first(q2, k as nat);
            lemma_ones_bound(q, k as nat);
            lemma_bit_range(xs@[j as int], k as nat);
            lemma_suffix_pair_sum(s, o as int, k as nat, j as int);
            assert(s.len() == n);
        }
        let ghost ans0 = ans as int;
        let ghost c = col_sum(q2[0], q, f);
        let ghost on = ones(q, k as nat);
        proof {
            assert(o != 1 ==> cnt1 as int == on);
            assert(o != 1 ==> cnt0 as int == q.len() - on);
            assert(o == 1 ==> cnt0 as int == on);
            assert(o == 1 ==> cnt1 as int == q.len());
            assert(o == 0 ==> c == (if x == 1 { q.len() - on } else { on }));
            assert(o == 1 ==> c == (if x == 1 { q.len() as int } else { on }));
            assert(o >= 2 ==> c == (if x == 1 { on } else { 0 }));
        }
        if o == 0 {
            if x == 1 {
                ans = ans + cnt0;
                cnt1 = cnt1 + 1;
            } else {
                ans = ans + cnt1;
                cnt0 = cnt0 + 1;
            }
        } else if o == 1 {
            if x == 1 {
                ans = ans + cnt1;
                cnt0 = cnt0 + 1;
            } else {
                ans = ans + cnt0;
            }
            cnt1 = cnt1 + 1;
        } else {
            proof {
                assert(x * cnt1 <= cnt1) by (nonlinear_arith)
                    requires
                        x <= 1,
                ;
            }
            ans = ans + x * cnt1;
            if x == 1 {
                cnt1 = cnt1 + 1;
            } else {
                cnt0 = cnt0 + 1;
            }
        }
        proof {
            assert(ans as int == ans0 + c);
            assert(ans as int == pair_sum(q2, f));
        }
    }
    proof {
        assert(s.subrange(0, n as int) =~= s);
    }
    ans
}

/// `(sum over k < bits of 2^k * (pairs whose bit k gives 1 under o)) mod 2^64`.
fn sum_pair_bitwise(xs: &[u64], o: u8) -> (r: u64)
    requires
        bit_counts_fit(xs@, o as int),
    ensures
        r as int == wrap_u64(pair_sum(u64s_to_ints(xs@), pf_word(o as int))),
{
    let ghost s = u64s_to_ints(xs@);
    let bits = max_bit_len(xs);
    let mut total: u64 = 0;
    let mut b: u32 = 0;
    proof {
        lemma_small_mod(0, word() as nat);
    }
    while b < bits
        invariant
            b <= bits,
            bits <= 64,
            bit_counts_fit(xs@, o as int),
            s == u64s_to_ints(xs@),
            total as int == bit_pair_total(o as int, s, b as nat) % word(),
        decreases bits - b,
    {
        let c = count_bit_pairs(xs, b, o);
        proof {
            lemma_u64_pow2_no_overflow(b as nat);
            lemma_u64_shl_is_mul(1u64, b as u64);
        }
        let p: u64 = 1u64 << b;
        let t = c.wrapping_mul(p);
        proof {
            let cur = bit_pair_total(o as int, s, b as nat);
            let add = pow2(b as nat) * pair_sum(s, pf_bits(o as int, b as nat));
            assert(t as int == (c as int * p as int) % word());
            lemma_add_mod_noop(cur, add, word());
            lemma_mod_bound(cur, word());
            lemma_mod_bound(add, word());
            lemma_add_mod_noop(total as int, t as int, word());
            lemma_small_mod(total as nat, word() as nat);
            lemma_small_mod(t as nat, word() as nat);
            vstd::arithmetic::div_mod::lemma_mod_twice(add, word());
            vstd::arithmetic::div_mod::lemma_mod_twice(cur, word());
            assert(add == c as int * p as int) by {
                vstd::arithmetic::mul::lemma_mul_is_commutative(c as int, p as int);
            }
            assert(add % word() == t as int);
        }
        let nt = total.wrapping_add(t);
        proof {
            if total as int + t as int >= word() {
                vstd::arithmetic::div_mod::lemma_mod_multiples_vanish(1, total as int + t as int - word(), word());
                lemma_small_mod((total as int + t as int - word()) as nat, word() as nat);
            } else {
                lemma_small_mod((total as int + t as int) as nat, word() as nat);
            }
            assert(nt as int == (total as int + t as int) % word());
        }
        total = nt;
        b += 1;
    }
    proof {
        lemma_pair_sum_word(o as int, s);
        assert forall|i: int, k: nat| 0 <= i < s.len() && bits <= k implies #[trigger] bit(s[i] as u64, k) == 0 by {
            assert(s[i] as u64 == xs@[i]);
        }
        lemma_bit_pair_total_cut(o as int, s, bits as nat, 64);
    }
    total
}

/// Sum of `x ^ y` over all pairs, modulo 2^64. O(N w) for w-bit values.
pub fn sum_pair_xor_u64(xs: &[u64]) -> (r: u64)
    requires
        bit_counts_fit(xs@, 0),
    ensures
        r as int == wrap_u64(pair_sum(u64s_to_ints(xs@), pf_xor())),
{
    proof {
        assert(pf_xor() =~= pf_word(0));
    }
    sum_pair_bitwise(xs, 0)
}

/// Sum of `x | y` over all pairs, modulo 2^64. O(N w) for w-bit values.
pub fn sum_pair_or_u64(xs: &[u64]) -> (r: u64)
    requires
        bit_counts_fit(xs@, 1),
    ensures
        r as int == wrap_u64(pair_sum(u64s_to_ints(xs@), pf_or())),
{
    proof {
        assert(pf_or() =~= pf_word(1));
    }
    sum_pair_bitwise(xs, 1)
}

/// Sum of `x & y` over all pairs, modulo 2^64. O(N w) for w-bit values.
pub fn sum_pair_and_u64(xs: &[u64]) -> (r: u64)
    requires
        bit_counts_fit(xs@, 2),
    ensures
        r as int == wrap_u64(pair_sum(u64s_to_ints(xs@), pf_and())),
{
    proof {
        assert(pf_and() =~= pf_word(2));
    }
    sum_pair_bitwise(xs, 2)
}

} // verus!
