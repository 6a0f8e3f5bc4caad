//! Superset zeta / Möbius transforms over the subsets of `{0, .., m-1}`,
//! on arrays of length `2^m` indexed by bit masks.
//!
//! Layer `j` of the zeta transform adds `x[i | 2^j]` into `x[i]` for every
//! mask `i` without bit `j`; the Möbius transform subtracts instead.  The
//! transforms apply layers `0, 1, .., m-1` in order.  Arithmetic wraps
//! modulo 2^64, so the two transforms are exact inverses of each other.
use vstd::prelude::*;
use vstd::wrapping::i64_specs;
use crate::wrap::{
    wrap_i64, lemma_wrap_i64_id, lemma_wrap_i64_add, lemma_wrap_i64_sub,
    lemma_i64_wrapping_add, lemma_i64_wrapping_sub,
};

verus! {

/// `n` is a power of two `2^m` with `m < usize::BITS`.
pub open spec fn is_pow2(n: usize) -> bool {
    exists|m: usize| m < usize::BITS && n == #[trigger] (1usize << m)
}

/// The exponent `m` of a power of two `n == 2^m`.
pub open spec fn exponent(n: usize) -> usize {
    choose|m: usize| m < usize::BITS && n == #[trigger] (1usize << m)
}

/// Layer `j` of the zeta transform.
pub open spec fn zeta_layer(x: Seq<i64>, j: usize) -> Seq<i64> {
    Seq::new(
        x.len(),
        |i: int|
            if (i as usize) & (1usize << j) == 0 && ((i as usize) | (1usize << j)) < x.len() {
                i64_specs::wrapping_add(x[i], x[((i as usize) | (1usize << j)) as int])
            } else {
                x[i]
            },
    )
}

/// Layer `j` of the Möbius transform.
pub open spec fn moebius_layer(x: Seq<i64>, j: usize) -> Seq<i64> {
    Seq::new(
        x.len(),
        |i: int|
            if (i as usize) & (1usize << j) == 0 && ((i as usize) | (1usize << j)) < x.len() {
                i64_specs::wrapping_sub(x[i], x[((i as usize) | (1usize << j)) as int])
            } else {
                x[i]
            },
    )
}

/// Zeta layers `lo, lo + 1, .., hi - 1`, applied in that order.
pub open spec fn zeta_layers(x: Seq<i64>, lo: usize, hi: usize) -> Seq<i64>
    decreases hi - lo,
{
    if lo >= hi {
        x
    } else {
        zeta_layers(zeta_layer(x, lo), (lo + 1) as usize, hi)
    }
}

/// Möbius layers `lo, lo + 1, .., hi - 1`, applied in that order.
pub open spec fn moebius_layers(x: Seq<i64>, lo: usize, hi: usize) -> Seq<i64>
    decreases hi - lo,
{
    if lo >= hi {
        x
    } else {
        moebius_layers(moebius_layer(x, lo), (lo + 1) as usize, hi)
    }
}

/// The zeta transform of an array whose length is a power of two.
pub open spec fn zeta_spec(x: Seq<i64>) -> Seq<i64> {
    zeta_layers(x, 0, exponent(x.len() as usize))
}

/// The Möbius transform of an array whose length is a power of two.
pub open spec fn moebius_spec(x: Seq<i64>) -> Seq<i64> {
    moebius_layers(x, 0, exponent(x.len() as usize))
}

// ---------------------------------------------------------------------------
// Bit facts
// ---------------------------------------------------------------------------

proof fn lemma_bit_set_has_bit(i: usize, j: usize)
    requires
        j < usize::BITS,
    ensures
        (i | (1usize << j)) & (1usize << j) != 0,
{
    assert((i | (1usize << j)) & (1usize << j) != 0) by (bit_vector)
        requires
            j < usize::BITS,
    ;
}

proof fn lemma_bit_set_other(i: usize, j: usize, k: usize)
    requires
        j < usize::BITS,
        k < usize::BITS,
        j != k,
    ensures
        (i | (1usize << k)) & (1usize << j) == i & (1usize << j),
        (i | (1usize << k)) | (1usize << j) == (i | (1usize << j)) | (1usize << k),
        (i | (1usize << k)) >= i,
{
    assert((i | (1usize << k)) & (1usize << j) == i & (1usize << j)) by (bit_vector)
        requires
            j < usize::BITS,
            k < usize::BITS,
            j != k,
    ;
    assert((i | (1usize << k)) | (1usize << j) == (i | (1usize << j)) | (1usize << k))
        by (bit_vector);
    assert((i | (1usize << k)) >= i) by (bit_vector);
}

proof fn lemma_shift_injective(a: usize, b: usize)
    requires
        a < usize::BITS,
        b < usize::BITS,
        (1usize << a) == (1usize << b),
    ensures
        a == b,
{
    assert(a == b) by (bit_vector)
        requires
            a < usize::BITS,
            b < usize::BITS,
            (1usize << a) == (1usize << b),
    ;
}

proof fn lemma_bit_set_below(i: usize, j: usize, m: usize)
    requires
        j < m,
        m < usize::BITS,
        i < (1usize << m),
    ensures
        (i | (1usize << j)) < (1usize << m),
{
    assert((i | (1usize << j)) < (1usize << m)) by (bit_vector)
        requires
            j < m,
            m < usize::BITS,
            i < (1usize << m),
    ;
}

proof fn lemma_bit_set_above(i: usize, j: usize)
    requires
        j < usize::BITS,
        i & (1usize << j) == 0,
    ensures
        (i | (1usize << j)) > i,
{
    assert((i | (1usize << j)) > i) by (bit_vector)
        requires
            j < usize::BITS,
            i & (1usize << j) == 0,
    ;
}

// ---------------------------------------------------------------------------
// Algebra of layers
// ---------------------------------------------------------------------------

proof fn lemma_add_sub_cancel(a: i64, b: i64)
    ensures
        i64_specs::wrapping_sub(i64_specs::wrapping_add(a, b), b) == a,
        i64_specs::wrapping_add(i64_specs::wrapping_sub(a, b), b) == a,
{
    let s = i64_specs::wrapping_add(a, b);
    let d = i64_specs::wrapping_sub(a, b);
    lemma_i64_wrapping_add(a, b);
    lemma_i64_wrapping_sub(s, b);
    lemma_wrap_i64_id(b as int);
    lemma_wrap_i64_id(a as int);
    lemma_wrap_i64_sub(a + b, b as int);
    lemma_i64_wrapping_sub(a, b);
    lemma_i64_wrapping_add(d, b);
    lemma_wrap_i64_add(a - b, b as int);
}

/// Möbius layer `j` undoes zeta layer `j`.
pub proof fn lemma_moebius_zeta_layer(x: Seq<i64>, j: usize)
    requires
        j < usize::BITS,
    ensures
        moebius_layer(zeta_layer(x, j), j) == x,
        zeta_layer(moebius_layer(x, j), j) == x,
{
    let z = zeta_layer(x, j);
    let w = moebius_layer(x, j);
    assert forall|i: int| 0 <= i < x.len() implies #[trigger] moebius_layer(z, j)[i] == x[i] by {
        let u = i as usize;
        if u & (1usize << j) == 0 && (u | (1usize << j)) < x.len() {
            lemma_bit_set_has_bit(u, j);
            let v = (u | (1usize << j)) as usize;
            lemma_bit_set_has_bit(v, j);
            assert(z[v as int] == x[v as int]);
            lemma_add_sub_cancel(x[i], x[v as int]);
        }
    }
    assert(moebius_layer(z, j) =~= x);
    assert forall|i: int| 0 <= i < x.len() implies #[trigger] zeta_layer(w, j)[i] == x[i] by {
        let u = i as usize;
        if u & (1usize << j) == 0 && (u | (1usize << j)) < x.len() {
            let v = (u | (1usize << j)) as usize;
            lemma_bit_set_has_bit(u, j);
            assert(w[v as int] == x[v as int]);
            lemma_add_sub_cancel(x[i], x[v as int]);
        }
    }
    assert(zeta_layer(w, j) =~= x);
}

proof fn lemma_wrapping_add_sub_exchange(a: i64, b: i64, c: i64, d: i64)
    ensures
        i64_specs::wrapping_add(i64_specs::wrapping_sub(a, b), i64_specs::wrapping_sub(c, d))
            == i64_specs::wrapping_sub(i64_specs::wrapping_add(a, c), i64_specs::wrapping_add(b, d)),
{
    let ab = i64_specs::wrapping_sub(a, b);
    let cd = i64_specs::wrapping_sub(c, d);
    let ac = i64_specs::wrapping_add(a, c);
    let bd = i64_specs::wrapping_add(b, d);
    lemma_i64_wrapping_sub(a, b);
    lemma_i64_wrapping_sub(c, d);
    lemma_i64_wrapping_add(a, c);
    lemma_i64_wrapping_add(b, d);
    lemma_i64_wrapping_add(ab, cd);
    lemma_i64_wrapping_sub(ac, bd);
    lemma_wrap_i64_add(a - b, c - d);
    lemma_wrap_i64_sub(a + c, b + d);
    assert((a - b) + (c - d) == (a + c) - (b + d));
}

/// Layers of different bits commute.
pub proof fn lemma_layers_commute(x: Seq<i64>, j: usize, k: usize)
    requires
        j < usize::BITS,
        k < usize::BITS,
        j != k,
        is_pow2(x.len() as usize),
        x.len() <= usize::MAX,
    ensures
        moebius_layer(zeta_layer(x, j), k) == zeta_layer(moebius_layer(x, k), j),
{
    let n = x.len() as usize;
    let m = choose|m: usize| m < usize::BITS && n == #[trigger] (1usize << m);
    let z = zeta_layer(x, j);
    let w = moebius_layer(x, k);
    let bj = 1usize << j;
    let bk = 1usize << k;
    assert forall|i: int| 0 <= i < x.len() implies #[trigger] moebius_layer(z, k)[i]
        == zeta_layer(w, j)[i] by {
        let u = i as usize;
        lemma_bit_set_other(u, j, k);
        lemma_bit_set_other(u, k, j);
        let uj = (u | bj) as usize;
        let uk = (u | bk) as usize;
        let ujk = (uj | bk) as usize;
        lemma_bit_set_other(uj, k, j);
        lemma_bit_set_other(uk, j, k);
        if j < m {
            lemma_bit_set_below(u, j, m);
            if uk < n {
                lemma_bit_set_below(uk, j, m);
            }
        } else {
            assert(((u | bj) < n) == false) by (bit_vector)
                requires
                    m <= j,
                    j < usize::BITS,
                    n == (1usize << m),
                    bj == (1usize << j),
            ;
            assert(((uk | bj) < n) == false) by (bit_vector)
                requires
                    m <= j,
                    j < usize::BITS,
                    n == (1usize << m),
                    bj == (1usize << j),
            ;
        }
        if k < m {
            lemma_bit_set_below(u, k, m);
            if uj < n {
                lemma_bit_set_below(uj, k, m);
            }
        } else {
            assert(((u | bk) < n) == false) by (bit_vector)
                requires
                    m <= k,
                    k < usize::BITS,
                    n == (1usize << m),
                    bk == (1usize << k),
            ;
            assert(((uj | bk) < n) == false) by (bit_vector)
                requires
                    m <= k,
                    k < usize::BITS,
                    n == (1usize << m),
                    bk == (1usize << k),
            ;
        }
        let cj = u & bj == 0 && uj < n;
        let ck = u & bk == 0 && uk < n;
        if cj && ck {
            lemma_wrapping_add_sub_exchange(x[i], x[uk as int], x[uj as int], x[ujk as int]);
        }
    }
    assert(moebius_layer(z, k) =~= zeta_layer(w, j));
}

proof fn lemma_layer_len(x: Seq<i64>, j: usize)
    ensures
        zeta_layer(x, j).len() == x.len(),
        moebius_layer(x, j).len() == x.len(),
{
}

proof fn lemma_zeta_layers_len(x: Seq<i64>, lo: usize, hi: usize)
    ensures
        zeta_layers(x, lo, hi).len() == x.len(),
    decreases hi - lo,
{
    if lo < hi {
        lemma_zeta_layers_len(zeta_layer(x, lo), (lo + 1) as usize, hi);
    }
}

proof fn lemma_moebius_layers_len(x: Seq<i64>, lo: usize, hi: usize)
    ensures
        moebius_layers(x, lo, hi).len() == x.len(),
    decreases hi - lo,
{
    if lo < hi {
        lemma_moebius_layers_len(moebius_layer(x, lo), (lo + 1) as usize, hi);
    }
}

/// A Möbius layer below `lo` passes through zeta layers `lo .. hi`.
proof fn lemma_moebius_through_zetas(x: Seq<i64>, k: usize, lo: usize, hi: usize)
    requires
        k < lo,
        hi <= usize::BITS,
        is_pow2(x.len() as usize),
        x.len() <= usize::MAX,
    ensures
        moebius_layer(zeta_layers(x, lo, hi), k) == zeta_layers(moebius_layer(x, k), lo, hi),
    decreases hi - lo,
{
    if lo < hi {
        lemma_layers_commute(x, lo, k);
        lemma_layer_len(x, lo);
        lemma_moebius_through_zetas(zeta_layer(x, lo), k, (lo + 1) as usize, hi);
    }
}

/// A zeta layer below `lo` passes through Möbius layers `lo .. hi`.
proof fn lemma_zeta_through_moebiuses(x: Seq<i64>, k: usize, lo: usize, hi: usize)
    requires
        k < lo,
        hi <= usize::BITS,
        is_pow2(x.len() as usize),
        x.len() <= usize::MAX,
    ensures
        zeta_layer(moebius_layers(x, lo, hi), k) == moebius_layers(zeta_layer(x, k), lo, hi),
    decreases hi - lo,
{
    if lo < hi {
        lemma_layers_commute(x, k, lo);
        lemma_layer_len(x, lo);
        lemma_zeta_through_moebiuses(moebius_layer(x, lo), k, (lo + 1) as usize, hi);
    }
}

proof fn lemma_moebius_zeta_layers(x: Seq<i64>, lo: usize, hi: usize)
    requires
        hi <= usize::BITS,
        is_pow2(x.len() as usize),
        x.len() <= usize::MAX,
    ensures
        moebius_layers(zeta_layers(x, lo, hi), lo, hi) == x,
        zeta_layers(moebius_layers(x, lo, hi), lo, hi) == x,
    decreases hi - lo,
{
    if lo < hi {
        let z = zeta_layer(x, lo);
        let zs = zeta_layers(z, (lo + 1) as usize, hi);
        lemma_layer_len(x, lo);
        lemma_moebius_through_zetas(z, lo, (lo + 1) as usize, hi);
        lemma_moebius_zeta_layer(x, lo);
        lemma_moebius_zeta_layers(x, (lo + 1) as usize, hi);
        let w = moebius_layer(x, lo);
        lemma_zeta_through_moebiuses(w, lo, (lo + 1) as usize, hi);
    }
}

/// Law: the Möbius transform undoes the zeta transform.
pub proof fn lemma_moebius_of_zeta(x: Seq<i64>)
    requires
        x.len() <= usize::MAX,
        is_pow2(x.len() as usize),
    ensures
        zeta_spec(x).len() == x.len(),
        moebius_spec(zeta_spec(x)) == x,
{
    let m = exponent(x.len() as usize);
    lemma_zeta_layers_len(x, 0, m);
    lemma_moebius_zeta_layers(x, 0, m);
}

/// Law: the zeta transform undoes the Möbius transform.
pub proof fn lemma_zeta_of_moebius(x: Seq<i64>)
    requires
        x.len() <= usize::MAX,
        is_pow2(x.len() as usize),
    ensures
        moebius_spec(x).len() == x.len(),
        zeta_spec(moebius_spec(x)) == x,
{
    let m = exponent(x.len() as usize);
    lemma_moebius_layers_len(x, 0, m);
    lemma_moebius_zeta_layers(x, 0, m);
}

// ---------------------------------------------------------------------------
// Executable transforms
// ---------------------------------------------------------------------------

/// The exponent of a power-of-two length.
fn log2_of_pow2(n: usize) -> (m: usize)
    requires
        is_pow2(n),
    ensures
        m == exponent(n),
        m < usize::BITS,
        n == (1usize << m),
{
    let ghost w = exponent(n);
    let mut m: usize = 0;
    while (1usize << m) != n
        invariant
            m <= w,
            w < usize::BITS,
            n == (1usize << w),
        decreases w - m,
    {
        proof {
            if m == w {
                assert(false);
            }
        }
        m += 1;
    }
    proof {
        lemma_shift_injective(m, w);
    }
    m
}

/// Applies one layer in place.
fn apply_layer(xs: &mut [i64], j: usize, m: usize, add: bool)
    requires
        j < m,
        m < usize::BITS,
        old(xs)@.len() == (1usize << m),
    ensures
        final(xs)@ == (if add { zeta_layer(old(xs)@, j) } else { moebius_layer(old(xs)@, j) }),
{
    let n = xs.len();
    let bit = 1usize << j;
    let ghost x = xs@;
    let ghost target = if add { zeta_layer(x, j) } else { moebius_layer(x, j) };
    let mut i: usize = 0;
    while i < n
        invariant
            i <= n,
            n == xs@.len(),
            n == x.len(),
            n == (1usize << m),
            j < m,
            m < usize::BITS,
            bit == (1usize << j),
            target == (if add { zeta_layer(x, j) } else { moebius_layer(x, j) }),
            forall|k: int| 0 <= k < i ==> xs@[k] == target[k],
            forall|k: int| i <= k < n ==> xs@[k] == x[k],
            forall|k: int| 0 <= k < n && (k as usize) & bit != 0 ==> xs@[k] == x[k],
        decreases n - i,
    {
        if i & bit == 0 {
            let t = i | bit;
            proof {
                lemma_bit_set_below(i, j, m);
                lemma_bit_set_has_bit(i, j);
            }
            if add {
                xs[i] = xs[i].wrapping_add(xs[t]);
            } else {
                xs[i] = xs[i].wrapping_sub(xs[t]);
            }
        }
        proof {
            if i & bit != 0 {
                assert(xs@[i as int] == target[i as int]);
            }
        }
        i += 1;
    }
}

/// Superset zeta transform in place: afterwards `xs[i]` is the wrapped sum
/// of the old `xs[k]` over all masks `k` containing `i`.
pub fn zeta_transform_inplace(xs: &mut [i64])
    requires
        is_pow2(old(xs)@.len() as usize),
    ensures
        final(xs)@ == zeta_spec(old(xs)@),
        forall|i: usize| i < final(xs)@.len() ==> #[trigger] final(xs)@[i as int] == wrap_i64(superset_sum(old(xs)@, i, old(xs)@.len() as int)),
{
    let n = xs.len();
    let m = log2_of_pow2(n);
    let ghost x = xs@;
    proof {
        lemma_zeta_superset_sums(x);
        lemma_zeta_layers_len(x, 0, m);
    }
    let mut j: usize = 0;
    while j < m
        invariant
            j <= m,
            m < usize::BITS,
            n == (1usize << m),
            n == xs@.len(),
            m == exponent(x.len() as usize),
            x.len() == n,
            zeta_layers(xs@, j, m) == zeta_layers(x, 0, m),
        decreases m - j,
    {
        apply_layer(xs, j, m, true);
        j += 1;
    }
}

/// Superset zeta transform of a copy.
pub fn zeta_transform(xs: &[i64]) -> (ys: Vec<i64>)
    requires
        is_pow2(xs@.len() as usize),
    ensures
        ys@ == zeta_spec(xs@),
        forall|i: usize| i < ys@.len() ==> #[trigger] ys@[i as int] == wrap_i64(superset_sum(xs@, i, xs@.len() as int)),
{
    let mut ys = copy_vec(xs);
    zeta_transform_inplace(ys.as_mut_slice());
    ys
}

/// Möbius transform in place, the inverse of `zeta_transform_inplace`.
pub fn moebius_transform_inplace(xs: &mut [i64])
    requires
        is_pow2(old(xs)@.len() as usize),
    ensures
        final(xs)@ == moebius_spec(old(xs)@),
{
    let n = xs.len();
    let m = log2_of_pow2(n);
    let ghost x = xs@;
    let mut j: usize = 0;
    while j < m
        invariant
            j <= m,
            m < usize::BITS,
            n == (1usize << m),
            n == xs@.len(),
            m == exponent(x.len() as usize),
            x.len() == n,
            moebius_layers(xs@, j, m) == moebius_layers(x, 0, m),
        decreases m - j,
    {
        apply_layer(xs, j, m, false);
        j += 1;
    }
}

/// Möbius transform of a copy.
pub fn moebius_transform(xs: &[i64]) -> (ys: Vec<i64>)
    requires
        is_pow2(xs@.len() as usize),
    ensures
        ys@ == moebius_spec(xs@),
{
    let mut ys = copy_vec(xs);
    moebius_transform_inplace(ys.as_mut_slice());
    ys
}

fn copy_vec(xs: &[i64]) -> (v: Vec<i64>)
    ensures
        v@ == xs@,
{
    let mut v: Vec<i64> = Vec::new();
    let mut k: usize = 0;
    while k < xs.len()
        invariant
            k <= xs.len(),
            v@ == xs@.subrange(0, k as int),
        decreases xs.len() - k,
    {
        v.push(xs[k]);
        k += 1;
    }
    assert(v@ =~= xs@);
    v
}

// ---------------------------------------------------------------------------
// The zeta transform as sums over supersets
// ---------------------------------------------------------------------------

/// The mask `k` contains every bit of the mask `i`.
pub open spec fn contains_mask(k: usize, i: usize) -> bool {
    k & i == i
}

/// The sum of `x[k]` over the masks `k < b` that contain `i`.
pub open spec fn superset_sum(x: Seq<i64>, i: usize, b: int) -> int
    decreases b,
{
    if b <= 0 {
        0
    } else {
        superset_sum(x, i, b - 1) + if contains_mask((b - 1) as usize, i) { x[b - 1] as int } else { 0 }
    }
}

/// `k` contains `i` and agrees with it on the bits from `j` up.
spec fn within(k: usize, i: usize, j: usize) -> bool {
    k & i == i && (k >> j) == (i >> j)
}

/// The sum of `x[k]` over the masks `k < b` that are `within(k, i, j)`.
spec fn partial_sum(x: Seq<i64>, i: usize, j: usize, b: int) -> int
    decreases b,
{
    if b <= 0 {
        0
    } else {
        partial_sum(x, i, j, b - 1) + if within((b - 1) as usize, i, j) { x[b - 1] as int } else { 0 }
    }
}

proof fn lemma_within_split(k: usize, i: usize, j: usize)
    requires
        j + 1 < usize::BITS,
        i & (1usize << j) == 0,
    ensures
        within(k, i, (j + 1) as usize) == (within(k, i, j) || within(k, i | (1usize << j), j)),
        !(within(k, i, j) && within(k, i | (1usize << j), j)),
{
    let jj = (j + 1) as usize;
    assert((k & i == i && (k >> jj) == (i >> jj)) == ((k & i == i && (k >> j) == (i >> j))
        || (k & (i | (1usize << j)) == (i | (1usize << j)) && (k >> j) == ((i | (1usize << j)) >> j))))
        by (bit_vector)
        requires
            j + 1 < usize::BITS,
            jj == j + 1,
            i & (1usize << j) == 0,
    ;
    assert(!((k & i == i && (k >> j) == (i >> j))
        && (k & (i | (1usize << j)) == (i | (1usize << j)) && (k >> j) == ((i | (1usize << j)) >> j))))
        by (bit_vector)
        requires
            j + 1 < usize::BITS,
            i & (1usize << j) == 0,
    ;
}

proof fn lemma_within_keep(k: usize, i: usize, j: usize)
    requires
        j + 1 < usize::BITS,
        i & (1usize << j) != 0,
    ensures
        within(k, i, (j + 1) as usize) == within(k, i, j),
{
    let jj = (j + 1) as usize;
    assert((k & i == i && (k >> jj) == (i >> jj)) == (k & i == i && (k >> j) == (i >> j)))
        by (bit_vector)
        requires
            j + 1 < usize::BITS,
            jj == j + 1,
            i & (1usize << j) != 0,
    ;
}

proof fn lemma_partial_split(x: Seq<i64>, i: usize, j: usize, b: int)
    requires
        j + 1 < usize::BITS,
        i & (1usize << j) == 0,
        b <= usize::MAX + 1,
    ensures
        partial_sum(x, i, (j + 1) as usize, b) == partial_sum(x, i, j, b) + partial_sum(x, i | (1usize << j), j, b),
    decreases b,
{
    if b > 0 {
        lemma_partial_split(x, i, j, b - 1);
        lemma_within_split((b - 1) as usize, i, j);
    }
}

proof fn lemma_partial_keep(x: Seq<i64>, i: usize, j: usize, b: int)
    requires
        j + 1 < usize::BITS,
        i & (1usize << j) != 0,
    ensures
        partial_sum(x, i, (j + 1) as usize, b) == partial_sum(x, i, j, b),
    decreases b,
{
    if b > 0 {
        lemma_partial_keep(x, i, j, b - 1);
        lemma_within_keep((b - 1) as usize, i, j);
    }
}

proof fn lemma_partial_base(x: Seq<i64>, i: usize, b: int)
    requires
        0 <= i < b <= usize::MAX + 1,
    ensures
        partial_sum(x, i, 0, b) == x[i as int] as int,
    decreases b,
{
    let k = (b - 1) as usize;
    assert((k & i == i && (k >> 0usize) == (i >> 0usize)) == (k == i)) by (bit_vector);
    if b - 1 > i {
        lemma_partial_base(x, i, b - 1);
    } else {
        lemma_partial_none(x, i, b - 1);
    }
}

proof fn lemma_partial_none(x: Seq<i64>, i: usize, b: int)
    requires
        b <= i,
    ensures
        partial_sum(x, i, 0, b) == 0,
    decreases b,
{
    if b > 0 {
        let k = (b - 1) as usize;
        assert((k & i == i && (k >> 0usize) == (i >> 0usize)) == (k == i)) by (bit_vector);
        lemma_partial_none(x, i, b - 1);
    }
}

proof fn lemma_partial_top(x: Seq<i64>, i: usize, m: usize, b: int)
    requires
        m < usize::BITS,
        i < (1usize << m),
        b <= (1usize << m),
    ensures
        partial_sum(x, i, m, b) == superset_sum(x, i, b),
    decreases b,
{
    if b > 0 {
        let k = (b - 1) as usize;
        assert((k >> m) == (i >> m)) by (bit_vector)
            requires
                m < usize::BITS,
                i < (1usize << m),
                k < (1usize << m),
        ;
        lemma_partial_top(x, i, m, b - 1);
    }
}

proof fn lemma_zeta_layers_snoc(x: Seq<i64>, lo: usize, hi: usize)
    requires
        lo <= hi < usize::MAX,
    ensures
        zeta_layers(x, lo, (hi + 1) as usize) == zeta_layer(zeta_layers(x, lo, hi), hi),
    decreases hi - lo,
{
    let z = zeta_layer(x, lo);
    if lo < hi {
        lemma_zeta_layers_snoc(z, (lo + 1) as usize, hi);
        assert(zeta_layers(x, lo, hi) == zeta_layers(z, (lo + 1) as usize, hi));
        assert(zeta_layers(x, lo, (hi + 1) as usize) == zeta_layers(z, (lo + 1) as usize, (hi + 1) as usize));
    } else {
        assert(zeta_layers(z, (lo + 1) as usize, (lo + 1) as usize) == z);
        assert(zeta_layers(x, lo, (hi + 1) as usize) == zeta_layers(z, (lo + 1) as usize, (hi + 1) as usize));
        assert(zeta_layers(x, lo, hi) == x);
    }
}

proof fn lemma_layers_partial(x: Seq<i64>, m: usize, j: usize)
    requires
        m < usize::BITS,
        x.len() == (1usize << m),
        j <= m,
    ensures
        zeta_layers(x, 0, j).len() == x.len(),
        forall|i: usize| i < x.len() ==> #[trigger] zeta_layers(x, 0, j)[i as int] == wrap_i64(partial_sum(x, i, j, x.len() as int)),
    decreases j,
{
    lemma_zeta_layers_len(x, 0, j);
    let n = x.len() as int;
    if j == 0 {
        assert forall|i: usize| i < x.len() implies #[trigger] zeta_layers(x, 0, j)[i as int] == wrap_i64(partial_sum(x, i, j, n)) by {
            lemma_partial_base(x, i, n);
            lemma_wrap_i64_id(x[i as int] as int);
        }
    } else {
        let jp = (j - 1) as usize;
        lemma_layers_partial(x, m, jp);
        let y = zeta_layers(x, 0, jp);
        lemma_zeta_layers_snoc(x, 0, jp);
        let bit = 1usize << jp;
        assert forall|i: usize| i < x.len() implies #[trigger] zeta_layers(x, 0, j)[i as int] == wrap_i64(partial_sum(x, i, j, n)) by {
            if i & bit == 0 {
                lemma_bit_set_below(i, jp, m);
                let t = i | bit;
                assert(y[t as int] == wrap_i64(partial_sum(x, t, jp, n)));
                assert(y[i as int] == wrap_i64(partial_sum(x, i, jp, n)));
                lemma_i64_wrapping_add(y[i as int], y[t as int]);
                lemma_wrap_i64_add(partial_sum(x, i, jp, n), partial_sum(x, t, jp, n));
                lemma_partial_split(x, i, jp, n);
            } else {
                lemma_partial_keep(x, i, jp, n);
            }
        }
    }
}

/// Law: the zeta transform puts at every mask `i` the wrapped sum of the
/// entries at the masks that contain `i`.
pub proof fn lemma_zeta_superset_sums(x: Seq<i64>)
    requires
        x.len() <= usize::MAX,
        is_pow2(x.len() as usize),
    ensures
        forall|i: usize| i < x.len() ==> #[trigger] zeta_spec(x)[i as int] == wrap_i64(superset_sum(x, i, x.len() as int)),
{
    let m = exponent(x.len() as usize);
    lemma_layers_partial(x, m, m);
    assert forall|i: usize| i < x.len() implies #[trigger] zeta_spec(x)[i as int] == wrap_i64(superset_sum(x, i, x.len() as int)) by {
        assert(zeta_layers(x, 0, m)[i as int] == wrap_i64(partial_sum(x, i, m, x.len() as int)));
        lemma_partial_top(x, i, m, x.len() as int);
    }
}

} // verus!
