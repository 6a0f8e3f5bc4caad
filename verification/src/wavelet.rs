//! Wavelet matrix over `usize` values: for each bit from the highest, a bit
//! vector of that bit over the current order, after which the values with
//! the bit clear are moved, stably, before those with it set.
use vstd::prelude::*;
use vstd::arithmetic::power2::{pow2, lemma_pow2_pos, lemma_pow2_unfold};
use crate::succinct::{SuccinctIndexableDictionary, ones, lemma_ones_bound};

verus! {

/// Bit `k` of `v`.
pub open spec fn bit_of(v: usize, k: nat) -> bool {
    ((v as nat) / pow2(k)) % 2 == 1
}

/// The values with bit `k` clear.
pub open spec fn zeros_at(k: nat) -> spec_fn(usize) -> bool {
    |v: usize| !bit_of(v, k)
}

/// The values with bit `k` set.
pub open spec fn ones_at(k: nat) -> spec_fn(usize) -> bool {
    |v: usize| bit_of(v, k)
}

/// `s` with the values whose bit `k` is clear moved, in order, before those
/// whose bit `k` is set.
pub open spec fn part(s: Seq<usize>, k: nat) -> Seq<usize> {
    s.filter(zeros_at(k)) + s.filter(ones_at(k))
}

/// `v` and `x` agree on the bits `lo .. h`.
pub open spec fn agree(v: usize, x: usize, lo: nat, h: nat) -> bool {
    ((v as nat) / pow2(lo)) % pow2((h - lo) as nat) == ((x as nat) / pow2(lo)) % pow2((h - lo) as nat)
}

/// The values that agree with `x` on the bits `lo .. h`.
pub open spec fn agree_with(x: usize, lo: nat, h: nat) -> spec_fn(usize) -> bool {
    |v: usize| agree(v, x, lo, h)
}

/// The values equal to `x` modulo `2^h`.
pub open spec fn same_low_bits(x: usize, h: nat) -> spec_fn(usize) -> bool {
    |v: usize| (v as nat) % pow2(h) == (x as nat) % pow2(h)
}

proof fn lemma_filter_push(s: Seq<usize>, x: usize, p: spec_fn(usize) -> bool)
    ensures
        s.push(x).filter(p) == if p(x) { s.filter(p).push(x) } else { s.filter(p) },
{
    reveal(Seq::filter);
    assert(s.push(x).drop_last() =~= s);
}

/// Counting the set bits of a prefix counts the values with the bit set.
proof fn lemma_count_prefix(s: Seq<usize>, k: nat, view: Seq<bool>, i: int)
    requires
        0 <= i <= s.len(),
        s.len() <= view.len(),
        forall|j: int| 0 <= j < s.len() ==> #[trigger] view[j] == bit_of(s[j], k),
    ensures
        ones(view, 0, i) == s.subrange(0, i).filter(ones_at(k)).len(),
        i - ones(view, 0, i) == s.subrange(0, i).filter(zeros_at(k)).len(),
    decreases i,
{
    if i == 0 {
        reveal(Seq::filter);
        assert(s.subrange(0, 0) =~= Seq::<usize>::empty());
    } else {
        lemma_count_prefix(s, k, view, i - 1);
        assert(s.subrange(0, i) =~= s.subrange(0, i - 1).push(s[i - 1]));
        lemma_filter_push(s.subrange(0, i - 1), s[i - 1], ones_at(k));
        lemma_filter_push(s.subrange(0, i - 1), s[i - 1], zeros_at(k));
    }
}

/// The values kept by `p` before `i` come before `s[i]` in `s.filter(p)`.
proof fn lemma_filter_index(s: Seq<usize>, p: spec_fn(usize) -> bool, i: int)
    requires
        0 <= i < s.len(),
        p(s[i]),
    ensures
        s.subrange(0, i).filter(p).len() < s.filter(p).len(),
        s.filter(p)[s.subrange(0, i).filter(p).len() as int] == s[i],
{
    let a = s.subrange(0, i + 1);
    let b = s.subrange(i + 1, s.len() as int);
    assert(s =~= a + b);
    Seq::filter_distributes_over_add(a, b, p);
    assert(a =~= s.subrange(0, i).push(s[i]));
    lemma_filter_push(s.subrange(0, i), s[i], p);
}

/// The values kept by `p` from `s[l .. r]` stand together in `s.filter(p)`.
proof fn lemma_filter_window(s: Seq<usize>, p: spec_fn(usize) -> bool, l: int, r: int)
    requires
        0 <= l <= r <= s.len(),
    ensures
        s.subrange(0, l).filter(p).len() <= s.subrange(0, r).filter(p).len() <= s.filter(p).len(),
        s.filter(p).subrange(s.subrange(0, l).filter(p).len() as int, s.subrange(0, r).filter(p).len() as int)
            == s.subrange(l, r).filter(p),
{
    let a = s.subrange(0, l);
    let b = s.subrange(l, r);
    let c = s.subrange(r, s.len() as int);
    assert(s.subrange(0, r) =~= a + b);
    assert(s =~= (a + b) + c);
    Seq::filter_distributes_over_add(a, b, p);
    Seq::filter_distributes_over_add(a + b, c, p);
    let fa = a.filter(p);
    let fb = b.filter(p);
    assert((fa + fb + c.filter(p)).subrange(fa.len() as int, (fa.len() + fb.len()) as int) =~= fb);
}

/// Filtering twice keeps what both predicates keep.
proof fn lemma_filter_filter(s: Seq<usize>, p: spec_fn(usize) -> bool, q: spec_fn(usize) -> bool)
    ensures
        s.filter(p).filter(q) == s.filter(|v: usize| p(v) && q(v)),
    decreases s.len(),
{
    reveal(Seq::filter);
    if s.len() > 0 {
        lemma_filter_filter(s.drop_last(), p, q);
        let x = s.last();
        assert(s =~= s.drop_last().push(x));
        if p(x) {
            lemma_filter_push(s.drop_last().filter(p), x, q);
        }
    }
}

/// A predicate that keeps everything keeps `s` whole.
proof fn lemma_filter_all(s: Seq<usize>, p: spec_fn(usize) -> bool)
    requires
        forall|v: usize| #[trigger] p(v),
    ensures
        s.filter(p) == s,
    decreases s.len(),
{
    reveal(Seq::filter);
    if s.len() > 0 {
        lemma_filter_all(s.drop_last(), p);
        assert(s =~= s.drop_last().push(s.last()));
    }
}

/// Filtering by equal predicates gives equal results.
proof fn lemma_filter_ext(s: Seq<usize>, p: spec_fn(usize) -> bool, q: spec_fn(usize) -> bool)
    requires
        forall|v: usize| #[trigger] p(v) == q(v),
    ensures
        s.filter(p) == s.filter(q),
{
    assert(p =~= q);
}

/// Agreeing on `lo .. h` is agreeing on `lo + 1 .. h` and on bit `lo`.
#[verifier::spinoff_prover]
proof fn lemma_agree_step(v: usize, x: usize, lo: nat, h: nat)
    requires
        lo < h,
    ensures
        agree(v, x, lo, h) == (agree(v, x, lo + 1, h) && bit_of(v, lo) == bit_of(x, lo)),
{
    let n = (h - lo - 1) as nat;
    lemma_pow2_pos(lo);
    lemma_pow2_pos(n);
    lemma_pow2_unfold(lo + 1);
    lemma_pow2_unfold(n + 1);
    assert((h - lo) as nat == n + 1);
    assert((h - (lo + 1)) as nat == n);
    let yv = (v as nat) / pow2(lo);
    let yx = (x as nat) / pow2(lo);
    vstd::arithmetic::div_mod::lemma_mod_breakdown(yv as int, 2, pow2(n) as int);
    vstd::arithmetic::div_mod::lemma_mod_breakdown(yx as int, 2, pow2(n) as int);
    vstd::arithmetic::div_mod::lemma_div_denominator(v as int, pow2(lo) as int, 2);
    vstd::arithmetic::div_mod::lemma_div_denominator(x as int, pow2(lo) as int, 2);
    vstd::arithmetic::mul::lemma_mul_is_commutative(2, pow2(n) as int);
    vstd::arithmetic::mul::lemma_mul_is_commutative(2, pow2(lo) as int);
    let av = yv % 2;
    let ax = yx % 2;
    let bv = (yv / 2) % pow2(n);
    let bx = (yx / 2) % pow2(n);
    assert(yv % pow2(n + 1) == 2 * bv + av);
    assert(yx % pow2(n + 1) == 2 * bx + ax);
    assert((2 * bv + av == 2 * bx + ax) == (bv == bx && av == ax));
}

/// Agreeing on bits `0 .. h` is being equal modulo `2^h`.
proof fn lemma_agree_zero(v: usize, x: usize, h: nat)
    ensures
        agree(v, x, 0, h) == ((v as nat) % pow2(h) == (x as nat) % pow2(h)),
{
    assert(pow2(0) == 1) by {
        vstd::arithmetic::power2::lemma2_to64();
    }
    assert((h - 0) as nat == h);
}

/// Agreeing on the empty range of bits always holds.
proof fn lemma_agree_empty(v: usize, x: usize, h: nat)
    ensures
        agree(v, x, h, h),
{
    assert(pow2(0) == 1) by {
        vstd::arithmetic::power2::lemma2_to64();
    }
    assert((h - h) as nat == 0);
}

/// Bit `k` of `v`, computed.
fn bit(v: usize, k: usize) -> (b: bool)
    requires
        k < 64,
    ensures
        b == bit_of(v, k as nat),
{
    let w = v as u64;
    let ku = k as u64;
    let y = w >> ku;
    proof {
        vstd::bits::lemma_u64_shr_is_div(w, ku);
        assert(y & 1u64 == y % 2) by (bit_vector);
    }
    (y & 1) == 1
}

/// `s` with the values whose bit `k` is clear first, each side in order,
/// and the number of those values.
fn partition(s: Vec<usize>, k: usize) -> (r: (Vec<usize>, usize))
    requires
        k < 64,
    ensures
        r.0@ == part(s@, k as nat),
        r.1 == s@.filter(zeros_at(k as nat)).len(),
{
    let mut z: Vec<usize> = Vec::new();
    let mut o: Vec<usize> = Vec::new();
    let mut i: usize = 0;
    while i < s.len()
        invariant
            k < 64,
            i <= s@.len(),
            z@ == s@.subrange(0, i as int).filter(zeros_at(k as nat)),
            o@ == s@.subrange(0, i as int).filter(ones_at(k as nat)),
        decreases s@.len() - i,
    {
        let v = s[i];
        proof {
            assert(s@.subrange(0, i + 1) =~= s@.subrange(0, i as int).push(v));
            lemma_filter_push(s@.subrange(0, i as int), v, zeros_at(k as nat));
            lemma_filter_push(s@.subrange(0, i as int), v, ones_at(k as nat));
        }
        if bit(v, k) {
            o.push(v);
        } else {
            z.push(v);
        }
        i += 1;
    }
    proof {
        assert(s@.subrange(0, s@.len() as int) =~= s@);
    }
    let count = z.len();
    let mut j: usize = 0;
    let ghost z0 = z@;
    while j < o.len()
        invariant
            j <= o@.len(),
            z@ == z0 + o@.subrange(0, j as int),
        decreases o@.len() - j,
    {
        z.push(o[j]);
        j += 1;
        proof {
            assert(z@ =~= z0 + o@.subrange(0, j as int));
        }
    }
    proof {
        assert(o@.subrange(0, o@.len() as int) =~= o@);
    }
    (z, count)
}

/// The number of bits of `sigma`.
fn bit_length(sigma: usize) -> (h: usize)
    ensures
        h <= 64,
        (sigma as nat) < pow2(h as nat),
        h == 0 || (sigma as nat) >= pow2((h - 1) as nat),
{
    let w = sigma as u64;
    let mut h: usize = 0;
    proof {
        vstd::arithmetic::power2::lemma2_to64();
        assert(w as nat == sigma as nat);
    }
    while h < 64 && (w >> (h as u64)) != 0
        invariant
            h <= 64,
            w as nat == sigma as nat,
            h == 0 || (sigma as nat) >= pow2((h - 1) as nat),
        decreases 64 - h,
    {
        proof {
            vstd::bits::lemma_u64_shr_is_div(w, h as u64);
            lemma_pow2_pos(h as nat);
            assert((w as nat) / pow2(h as nat) != 0);
            assert((w as nat) >= pow2(h as nat)) by {
                if (w as nat) < pow2(h as nat) {
                    vstd::arithmetic::div_mod::lemma_basic_div(w as int, pow2(h as nat) as int);
                }
            }
        }
        h += 1;
    }
    proof {
        vstd::arithmetic::power2::lemma2_to64();
        vstd::arithmetic::power2::lemma2_to64_rest();
        if h < 64 {
            vstd::bits::lemma_u64_shr_is_div(w, h as u64);
            lemma_pow2_pos(h as nat);
            assert((w as nat) / pow2(h as nat) == 0);
            vstd::arithmetic::div_mod::lemma_fundamental_div_mod(w as int, pow2(h as nat) as int);
            vstd::arithmetic::div_mod::lemma_mod_bound(w as int, pow2(h as nat) as int);
        } else {
            assert(pow2(64) == 0x1_0000_0000_0000_0000);
        }
    }
    h
}

/// Setting bit `k` of a multiple of `2^(k + 1)` adds `2^k`.
#[verifier::spinoff_prover]
proof fn lemma_set_bit(ret: u64, k: u64)
    requires
        k < 64,
        (ret as nat) % pow2((k + 1) as nat) == 0,
    ensures
        (ret | (1u64 << k)) as nat == ret as nat + pow2(k as nat),
{
    vstd::bits::lemma_u64_shr_is_div(ret, k);
    vstd::bits::lemma_u64_pow2_no_overflow(k as nat);
    vstd::bits::lemma_u64_shl_is_mul(1, k);
    lemma_pow2_pos(k as nat);
    lemma_pow2_unfold((k + 1) as nat);
    let p = pow2(k as nat) as int;
    let q = (ret as int) / (2 * p);
    vstd::arithmetic::div_mod::lemma_fundamental_div_mod(ret as int, 2 * p);
    assert(ret as int == (2 * p) * q);
    vstd::arithmetic::div_mod::lemma_div_multiples_vanish(2 * q, p);
    assert(ret as int == p * (2 * q)) by (nonlinear_arith)
        requires
            ret as int == (2 * p) * q,
    ;
    assert((ret as int) / p == 2 * q);
    let y = ret >> k;
    assert(y as int == 2 * q);
    assert(y & 1u64 == y % 2) by (bit_vector);
    assert((y & 1u64) == 0u64);
    assert(((ret >> k) & 1u64) == 0u64 ==> (ret | (1u64 << k)) == ret + (1u64 << k) && ret <= u64::MAX - (1u64 << k)) by (bit_vector)
        requires
            k < 64,
    ;
}

/// `d` holds bit `k` of each value of `lv` (with its tables built), and
/// `m` values of `lv` have that bit clear.
pub open spec fn level_ok(d: SuccinctIndexableDictionary, lv: Seq<usize>, k: nat, len: nat, m: usize) -> bool {
    &&& lv.len() == len
    &&& d.wf()
    &&& d.built()
    &&& d@.len() > len
    &&& forall|j: int| 0 <= j < len ==> #[trigger] d@[j] == bit_of(lv[j], k)
    &&& m == lv.filter(zeros_at(k)).len()
}


/// The bits `lo .. h` of `v` are less than those of `x`.
pub open spec fn less_above(v: usize, x: usize, lo: nat, h: nat) -> bool {
    ((v as nat) / pow2(lo)) % pow2((h - lo) as nat) < ((x as nat) / pow2(lo)) % pow2((h - lo) as nat)
}

/// The values below `x` in the bits `lo .. h`.
pub open spec fn less_with(x: usize, lo: nat, h: nat) -> spec_fn(usize) -> bool {
    |v: usize| less_above(v, x, lo, h)
}

/// The values below `x` modulo `2^h`.
pub open spec fn below_low_bits(x: usize, h: nat) -> spec_fn(usize) -> bool {
    |v: usize| (v as nat) % pow2(h) < (x as nat) % pow2(h)
}

/// A filter is no longer than what it filters.
proof fn lemma_filter_len_bound(s: Seq<usize>, p: spec_fn(usize) -> bool)
    ensures
        s.filter(p).len() <= s.len(),
{
    s.lemma_filter_len(p);
}

/// Every value has bit `k` clear or set.
proof fn lemma_split_count(s: Seq<usize>, k: nat)
    ensures
        s.filter(zeros_at(k)).len() + s.filter(ones_at(k)).len() == s.len(),
    decreases s.len(),
{
    reveal(Seq::filter);
    if s.len() > 0 {
        lemma_split_count(s.drop_last(), k);
    }
}

/// A predicate that keeps nothing keeps nothing.
proof fn lemma_filter_none(s: Seq<usize>, p: spec_fn(usize) -> bool)
    requires
        forall|v: usize| !#[trigger] p(v),
    ensures
        s.filter(p).len() == 0,
    decreases s.len(),
{
    reveal(Seq::filter);
    if s.len() > 0 {
        lemma_filter_none(s.drop_last(), p);
    }
}

/// Two predicates that never hold together count their union by adding.
proof fn lemma_filter_or(s: Seq<usize>, p: spec_fn(usize) -> bool, q: spec_fn(usize) -> bool)
    requires
        forall|v: usize| !(#[trigger] p(v) && q(v)),
    ensures
        s.filter(|v: usize| p(v) || q(v)).len() == s.filter(p).len() + s.filter(q).len(),
    decreases s.len(),
{
    reveal(Seq::filter);
    if s.len() > 0 {
        lemma_filter_or(s.drop_last(), p, q);
    }
}

/// Being below on `lo .. h` is being below on `lo + 1 .. h`, or agreeing
/// there with bit `lo` clear where `x` has it set.
#[verifier::spinoff_prover]
proof fn lemma_less_step(v: usize, x: usize, lo: nat, h: nat)
    requires
        lo < h,
    ensures
        less_above(v, x, lo, h) == (less_above(v, x, lo + 1, h)
            || (agree(v, x, lo + 1, h) && !bit_of(v, lo) && bit_of(x, lo))),
        !(less_above(v, x, lo + 1, h) && agree(v, x, lo + 1, h)),
{
    let n = (h - lo - 1) as nat;
    lemma_pow2_pos(lo);
    lemma_pow2_pos(n);
    lemma_pow2_unfold(lo + 1);
    lemma_pow2_unfold(n + 1);
    assert((h - lo) as nat == n + 1);
    assert((h - (lo + 1)) as nat == n);
    let yv = (v as nat) / pow2(lo);
    let yx = (x as nat) / pow2(lo);
    vstd::arithmetic::div_mod::lemma_mod_breakdown(yv as int, 2, pow2(n) as int);
    vstd::arithmetic::div_mod::lemma_mod_breakdown(yx as int, 2, pow2(n) as int);
    vstd::arithmetic::div_mod::lemma_div_denominator(v as int, pow2(lo) as int, 2);
    vstd::arithmetic::div_mod::lemma_div_denominator(x as int, pow2(lo) as int, 2);
    vstd::arithmetic::mul::lemma_mul_is_commutative(2, pow2(n) as int);
    vstd::arithmetic::mul::lemma_mul_is_commutative(2, pow2(lo) as int);
    let av = yv % 2;
    let ax = yx % 2;
    let bv = (yv / 2) % pow2(n);
    let bx = (yx / 2) % pow2(n);
    assert(yv % pow2(n + 1) == 2 * bv + av);
    assert(yx % pow2(n + 1) == 2 * bx + ax);
    assert((2 * bv + av < 2 * bx + ax) == (bv < bx || (bv == bx && av < ax)));
}

/// Being below on bits `0 .. h` is being below modulo `2^h`; on no bits,
/// nothing is below.
proof fn lemma_less_ends(v: usize, x: usize, h: nat)
    ensures
        less_above(v, x, 0, h) == ((v as nat) % pow2(h) < (x as nat) % pow2(h)),
        !less_above(v, x, h, h),
{
    assert(pow2(0) == 1) by {
        vstd::arithmetic::power2::lemma2_to64();
    }
    assert((h - 0) as nat == h);
    assert((h - h) as nat == 0);
}


/// Adding `2^(lo - 1)` to a multiple `r` of `2^lo` below `2^h`: the bits
/// from `lo` up stay, bit `lo - 1` becomes set, and the sum stays below
/// `2^h`; bit `lo - 1` of `r` itself is clear.
#[verifier::spinoff_prover]
proof fn lemma_next_prefix(v: usize, r: usize, r2: usize, lo: nat, h: nat)
    requires
        1 <= lo <= h,
        (r as nat) % pow2(lo) == 0,
        (r as nat) < pow2(h),
        r2 as nat == r as nat + pow2((lo - 1) as nat),
    ensures
        agree(v, r2, lo, h) == agree(v, r, lo, h),
        less_above(v, r2, lo, h) == less_above(v, r, lo, h),
        bit_of(r2, (lo - 1) as nat),
        !bit_of(r, (lo - 1) as nat),
        (r2 as nat) % pow2((lo - 1) as nat) == 0,
        (r as nat) % pow2((lo - 1) as nat) == 0,
        (r2 as nat) < pow2(h),
{
    let k = (lo - 1) as nat;
    let pk = pow2(k) as int;
    lemma_pow2_pos(k);
    lemma_pow2_unfold(lo);
    assert(pow2(lo) as int == 2 * pk);
    let m = (r as int) / (2 * pk);
    vstd::arithmetic::div_mod::lemma_fundamental_div_mod(r as int, 2 * pk);
    assert(r as int == (2 * pk) * m);
    assert(r2 as int == (2 * pk) * m + pk);
    // quotients by 2^lo
    vstd::arithmetic::div_mod::lemma_div_multiples_vanish(m, 2 * pk);
    assert((r as int) / (2 * pk) == m) by {
        vstd::arithmetic::mul::lemma_mul_is_commutative(2 * pk, m);
    }
    assert(r2 as int == m * (2 * pk) + pk) by (nonlinear_arith)
        requires
            r2 as int == (2 * pk) * m + pk,
    ;
    vstd::arithmetic::div_mod::lemma_fundamental_div_mod_converse(r2 as int, 2 * pk, m, pk);
    // quotients by 2^(lo - 1)
    assert(r as int == (2 * m) * pk + 0 && r2 as int == (2 * m + 1) * pk + 0) by (nonlinear_arith)
        requires
            r as int == (2 * pk) * m,
            r2 as int == (2 * pk) * m + pk,
    ;
    vstd::arithmetic::div_mod::lemma_fundamental_div_mod_converse(r as int, pk, 2 * m, 0);
    vstd::arithmetic::div_mod::lemma_fundamental_div_mod_converse(r2 as int, pk, 2 * m + 1, 0);
    assert((2 * m) % 2 == 0);
    assert((2 * m + 1) % 2 == 1);
    // below 2^h
    lemma_pow2_pos(h);
    vstd::arithmetic::power2::lemma_pow2_adds(lo, (h - lo) as nat);
    assert(lo + (h - lo) as nat == h);
    lemma_pow2_pos((h - lo) as nat);
    assert(m < pow2((h - lo) as nat)) by (nonlinear_arith)
        requires
            r as int == (2 * pk) * m,
            (r as int) < pow2(h) as int,
            pow2(h) as int == (2 * pk) * pow2((h - lo) as nat) as int,
            pk > 0,
    ;
    assert((r2 as int) < pow2(h) as int) by (nonlinear_arith)
        requires
            r2 as int == (2 * pk) * m + pk,
            m < pow2((h - lo) as nat) as int,
            pow2(h) as int == (2 * pk) * pow2((h - lo) as nat) as int,
            pk > 0,
    ;
}

/// A multiple of `2^lo` has bit `lo - 1` clear and is a multiple of
/// `2^(lo - 1)`.
proof fn lemma_prefix_clear(r: usize, lo: nat)
    requires
        lo >= 1,
        (r as nat) % pow2(lo) == 0,
    ensures
        !bit_of(r, (lo - 1) as nat),
        (r as nat) % pow2((lo - 1) as nat) == 0,
{
    let k = (lo - 1) as nat;
    let pk = pow2(k) as int;
    lemma_pow2_pos(k);
    lemma_pow2_unfold(lo);
    let m = (r as int) / (2 * pk);
    vstd::arithmetic::div_mod::lemma_fundamental_div_mod(r as int, 2 * pk);
    assert(r as int == (2 * m) * pk + 0) by (nonlinear_arith)
        requires
            r as int == (2 * pk) * m + 0,
    ;
    vstd::arithmetic::div_mod::lemma_fundamental_div_mod_converse(r as int, pk, 2 * m, 0);
    assert((2 * m) % 2 == 0);
}

/// An element that agrees with a prefix `r` (a multiple of `2^lo` below
/// `2^h`) on the bits from `lo` up, and has bit `lo - 1` set, is at least
/// `r + 2^(lo - 1)`.
#[verifier::spinoff_prover]
proof fn lemma_prefix_bound(v: usize, r: usize, lo: nat, h: nat)
    requires
        1 <= lo <= h,
        (r as nat) % pow2(lo) == 0,
        (r as nat) < pow2(h),
        agree(v, r, lo, h),
        bit_of(v, (lo - 1) as nat),
    ensures
        r as nat + pow2((lo - 1) as nat) <= v as nat,
{
    let k = (lo - 1) as nat;
    let pk = pow2(k) as int;
    lemma_pow2_pos(k);
    lemma_pow2_unfold(lo);
    let m = (r as int) / (2 * pk);
    vstd::arithmetic::div_mod::lemma_fundamental_div_mod(r as int, 2 * pk);
    lemma_pow2_pos(h);
    vstd::arithmetic::power2::lemma_pow2_adds(lo, (h - lo) as nat);
    assert(lo + (h - lo) as nat == h);
    let ph = pow2((h - lo) as nat) as int;
    lemma_pow2_pos((h - lo) as nat);
    assert(m < ph) by (nonlinear_arith)
        requires
            r as int == (2 * pk) * m,
            (r as int) < pow2(h) as int,
            pow2(h) as int == (2 * pk) * ph,
            pk > 0,
    ;
    assert(m >= 0) by (nonlinear_arith)
        requires
            r as int == (2 * pk) * m,
            r >= 0,
            pk > 0,
    ;
    vstd::arithmetic::div_mod::lemma_small_mod(m as nat, ph as nat);
    let qv = (v as int) / (2 * pk);
    assert(qv % ph == m);
    vstd::arithmetic::div_mod::lemma_fundamental_div_mod(qv, ph);
    vstd::arithmetic::div_mod::lemma_div_pos_is_pos(v as int, 2 * pk);
    vstd::arithmetic::div_mod::lemma_div_pos_is_pos(qv, ph);
    assert(qv >= m) by (nonlinear_arith)
        requires
            qv == ph * (qv / ph) + qv % ph,
            qv / ph >= 0,
            qv % ph == m,
            ph > 0,
    ;
    let q1 = (v as int) / pk;
    vstd::arithmetic::div_mod::lemma_div_denominator(v as int, pk, 2);
    vstd::arithmetic::mul::lemma_mul_is_commutative(pk, 2);
    assert(q1 / 2 == qv);
    vstd::arithmetic::div_mod::lemma_fundamental_div_mod(q1, 2);
    assert(q1 % 2 == 1);
    vstd::arithmetic::div_mod::lemma_fundamental_div_mod(v as int, pk);
    vstd::arithmetic::div_mod::lemma_mod_bound(v as int, pk);
    assert(v as int >= pk * q1) by (nonlinear_arith)
        requires
            v as int == pk * q1 + (v as int) % pk,
            (v as int) % pk >= 0,
    ;
    assert(pk * q1 >= (r as int) + pk) by (nonlinear_arith)
        requires
            q1 == 2 * qv + 1,
            qv >= m,
            r as int == (2 * pk) * m,
            pk > 0,
    ;
}

pub struct WaveletMatrixUsize {
    len: usize,
    sigma: usize,
    height: usize,
    dic: Vec<SuccinctIndexableDictionary>,
    mid: Vec<usize>,
    orig: Ghost<Seq<usize>>,
    levels: Ghost<Seq<Seq<usize>>>,
}

impl WaveletMatrixUsize {
    /// The values the matrix was made from.
    pub closed spec fn values(&self) -> Seq<usize> {
        self.orig@
    }

    /// The number of bits kept of each value.
    pub closed spec fn height_spec(&self) -> nat {
        self.height as nat
    }

    pub closed spec fn sigma_spec(&self) -> nat {
        self.sigma as nat
    }

    /// Step `t` handles bit `height - 1 - t` of the order `levels[t]`.
    pub closed spec fn step_ok(&self, t: int) -> bool {
        level_ok(self.dic@[t], self.levels@[t], (self.height - 1 - t) as nat, self.len as nat, self.mid@[t])
    }

    pub closed spec fn wf(&self) -> bool {
        &&& self.height <= 64
        &&& self.orig@.len() == self.len
        &&& self.len < 65535
        &&& self.dic@.len() == self.height
        &&& self.mid@.len() == self.height
        &&& self.levels@.len() == self.height
        &&& self.height > 0 ==> self.levels@[0] == self.orig@
        &&& forall|t: int| 0 <= t < self.height ==> #[trigger] self.step_ok(t)
        &&& forall|t: int| 1 <= t < self.height ==> #[trigger] self.levels@[t] == part(self.levels@[t - 1], (self.height - t) as nat)
    }

    pub fn len(&self) -> (n: usize)
        requires
            self.wf(),
        ensures
            n == self.values().len(),
    {
        self.len
    }

    pub fn sigma(&self) -> (s: usize)
        ensures
            s == self.sigma_spec(),
    {
        self.sigma
    }

    /// Builds the matrix of `a` over as many bits as `sigma` has.
    #[verifier::spinoff_prover]
    pub fn new(a: Vec<usize>, sigma: usize) -> (w: Self)
        requires
            a@.len() + 256 <= 65535,
        ensures
            w.wf(),
            w.values() == a@,
            w.sigma_spec() == sigma,
            (sigma as nat) < pow2(w.height_spec()),
            w.height_spec() == 0 || (sigma as nat) >= pow2((w.height_spec() - 1) as nat),
    {
        let len = a.len();
        let height = bit_length(sigma);
        let ghost orig = a@;
        let mut dic: Vec<SuccinctIndexableDictionary> = Vec::new();
        let mut mid: Vec<usize> = Vec::new();
        let ghost mut levels: Seq<Seq<usize>> = Seq::empty();
        let mut cur = a;
        let mut t: usize = 0;
        while t < height
            invariant
                height <= 64,
                len == orig.len(),
                len + 256 <= 65535,
                t <= height,
                cur@.len() == len,
                dic@.len() == t,
                mid@.len() == t,
                levels.len() == t,
                t == 0 ==> cur@ == orig,
                t > 0 ==> levels[0] == orig,
                t > 0 ==> cur@ == part(levels[t - 1], (height - t) as nat),
                forall|s: int| 1 <= s < t ==> #[trigger] levels[s] == part(levels[s - 1], (height - s) as nat),
                forall|s: int| 0 <= s < t ==> #[trigger] level_ok(dic@[s], levels[s], (height - 1 - s) as nat, len as nat, mid@[s]),
            decreases height - t,
        {
            let k = height - 1 - t;
            let mut sid = SuccinctIndexableDictionary::new(len + 1);
            let mut i: usize = 0;
            while i < len
                invariant
                    k < 64,
                    len == cur@.len(),
                    len + 256 <= 65535,
                    sid.wf(),
                    sid.len_spec() == len + 1,
                    sid@.len() > len,
                    sid@.len() <= len + 256,
                    i <= len,
                    forall|j: int| 0 <= j < i ==> #[trigger] sid@[j] == bit_of(cur@[j], k as nat),
                    forall|j: int| i <= j < sid@.len() ==> !#[trigger] sid@[j],
                decreases len - i,
            {
                let b = bit(cur[i], k);
                sid.set(i, b);
                i += 1;
            }
            proof {
                lemma_ones_bound(sid@, 0, sid@.len() as int);
                sid.lemma_counts_fit();
            }
            sid.prepare();
            let ghost before = cur@;
            let ghost old_dic = dic@;
            let ghost old_mid = mid@;
            let ghost old_levels = levels;
            dic.push(sid);
            let (nxt, zc) = partition(cur, k);
            mid.push(zc);
            proof {
                levels = levels.push(before);
                assert(level_ok(dic@[t as int], levels[t as int], (height - 1 - t) as nat, len as nat, mid@[t as int]));
                assert forall|s: int| 0 <= s < t + 1 implies #[trigger] level_ok(dic@[s], levels[s], (height - 1 - s) as nat, len as nat, mid@[s]) by {
                    if s < t {
                        assert(dic@[s] == old_dic[s]);
                        assert(levels[s] == old_levels[s]);
                        assert(mid@[s] == old_mid[s]);
                    }
                }
                assert forall|s: int| 1 <= s < t + 1 implies #[trigger] levels[s] == part(levels[s - 1], (height - s) as nat) by {
                    if s < t {
                        assert(levels[s] == old_levels[s]);
                        assert(levels[s - 1] == old_levels[s - 1]);
                    }
                }
                if t > 0 {
                    assert(levels[0] == old_levels[0]);
                }
                assert(nxt@.len() == len) by {
                    let z = before.filter(zeros_at(k as nat));
                    let o = before.filter(ones_at(k as nat));
                    lemma_count_prefix(before, k as nat, dic@[t as int]@, len as int);
                    assert(before.subrange(0, len as int) =~= before);
                    lemma_ones_bound(dic@[t as int]@, 0, len as int);
                }
            }
            cur = nxt;
            t += 1;
        }
        let w = WaveletMatrixUsize { len, sigma, height, dic, mid, orig: Ghost(orig), levels: Ghost(levels) };
        proof {
            assert forall|t: int| 0 <= t < w.height implies #[trigger] w.step_ok(t) by {
                assert(level_ok(w.dic@[t], w.levels@[t], (height - 1 - t) as nat, len as nat, w.mid@[t]));
            }
        }
        w
    }

    /// Where position `i` of step `t`'s order goes in the next order, for a
    /// value whose bit there is `f`.
    fn rnk(&self, t: usize, f: bool, i: usize) -> (r: usize)
        requires
            self.wf(),
            t < self.height,
            i <= self.len,
        ensures
            r == if f {
                self.mid@[t as int] + ones(self.dic@[t as int]@, 0, i as int)
            } else {
                i - ones(self.dic@[t as int]@, 0, i as int)
            },
    {
        proof {
            assert(self.step_ok(t as int));
        }
        if f {
            let r1 = self.dic[t].rank1_built(i);
            proof {
                let s = self.levels@[t as int];
                let k = (self.height - 1 - t) as nat;
                lemma_count_prefix(s, k, self.dic@[t as int]@, s.len() as int);
                assert(s.subrange(0, s.len() as int) =~= s);
            }
            self.mid[t] + r1
        } else {
            self.dic[t].rank0_built(i)
        }
    }

    /// Position lemma: the value at `i` of step `t`'s order stands at
    /// `rnk(t, bit, i)` in the next order.
    proof fn lemma_position(&self, t: int, i: int)
        requires
            self.wf(),
            0 <= t < self.height,
            0 <= i < self.len,
        ensures
            ({
                let s = self.levels@[t];
                let k = (self.height - 1 - t) as nat;
                let d = self.dic@[t]@;
                let pos = if bit_of(s[i], k) { self.mid@[t] + ones(d, 0, i) } else { i - ones(d, 0, i) };
                &&& 0 <= pos < self.len
                &&& part(s, k)[pos] == s[i]
            }),
    {
        assert(self.step_ok(t));
        let s = self.levels@[t];
        let k = (self.height - 1 - t) as nat;
        let d = self.dic@[t]@;
        lemma_count_prefix(s, k, d, i);
        lemma_count_prefix(s, k, d, s.len() as int);
        assert(s.subrange(0, s.len() as int) =~= s);
        let z = s.filter(zeros_at(k));
        let o = s.filter(ones_at(k));
        if bit_of(s[i], k) {
            lemma_filter_index(s, ones_at(k), i);
            let j = s.subrange(0, i).filter(ones_at(k)).len() as int;
            assert((z + o)[z.len() + j] == o[j]);
        } else {
            lemma_filter_index(s, zeros_at(k), i);
        }
    }

    /// The value at `idx`, in its low `height` bits.
    pub fn get(&self, idx: usize) -> (v: usize)
        requires
            self.wf(),
            idx < self.values().len(),
        ensures
            v as nat == (self.values()[idx as int] as nat) % pow2(self.height_spec()),
    {
        self.access(idx)
    }

    /// The value at `idx`, in its low `height` bits.
    #[verifier::spinoff_prover]
    pub fn access(&self, idx: usize) -> (v: usize)
        requires
            self.wf(),
            idx < self.values().len(),
        ensures
            v as nat == (self.values()[idx as int] as nat) % pow2(self.height_spec()),
    {
        let ghost val = self.orig@[idx as int] as nat;
        let ghost hh = self.height as nat;
        let mut i = idx;
        let mut ret: u64 = 0;
        let mut t: usize = 0;
        proof {
            lemma_pow2_pos(hh);
            vstd::arithmetic::div_mod::lemma_mod_bound(val as int, pow2(hh) as int);
        }
        while t < self.height
            invariant
                self.wf(),
                hh == self.height,
                t <= self.height,
                i < self.len,
                val == self.orig@[idx as int] as nat,
                t < self.height ==> self.levels@[t as int][i as int] == val,
                ret as int == (val % pow2(hh)) as int - (val % pow2((hh - t) as nat)) as int,
            decreases self.height - t,
        {
            let k = self.height - 1 - t;
            proof {
                assert(self.step_ok(t as int));
            }
            let f = self.dic[t].get(i);
            let ghost r0 = ret;
            proof {
                assert(f == bit_of(self.levels@[t as int][i as int], k as nat));
                assert((hh - t) as nat == k + 1);
                let p = pow2(k as nat) as int;
                lemma_pow2_pos(k as nat);
                lemma_pow2_unfold((k + 1) as nat);
                vstd::arithmetic::div_mod::lemma_mod_breakdown(val as int, p, 2);
                vstd::arithmetic::power2::lemma_pow2_adds((k + 1) as nat, (hh - k - 1) as nat);
                assert((k + 1) as nat + (hh - k - 1) as nat == hh);
                lemma_pow2_pos((hh - k - 1) as nat);
                vstd::arithmetic::div_mod::lemma_mod_breakdown(val as int, pow2((k + 1) as nat) as int, pow2((hh - k - 1) as nat) as int);
                let q = (val as int / pow2((k + 1) as nat) as int) % pow2((hh - k - 1) as nat) as int;
                assert(r0 as int == pow2((k + 1) as nat) * q);
                vstd::arithmetic::div_mod::lemma_mod_multiples_basic(q, pow2((k + 1) as nat) as int);
                vstd::arithmetic::mul::lemma_mul_is_commutative(q, pow2((k + 1) as nat) as int);
                if f {
                    lemma_set_bit(r0, k as u64);
                }
            }
            if f {
                ret = ret | (1u64 << (k as u64));
            }
            proof {
                let p = pow2(k as nat) as int;
                assert(val as int % (p * 2) == p * ((val as int / p) % 2) + val as int % p);
                assert(((val as int / p) % 2 == 1) == f);
                vstd::arithmetic::div_mod::lemma_mod_bound(val as int / p, 2);
                if f {
                    assert(ret as int == r0 as int + p);
                } else {
                    assert((val as int / p) % 2 == 0);
                }
                assert((hh - (t + 1)) as nat == k);
            }
            let ghost old_i = i;
            i = self.rnk(t, f, i);
            proof {
                self.lemma_position(t as int, old_i as int);
                if t + 1 < self.height {
                    assert(self.levels@[t + 1] == part(self.levels@[t as int], (self.height - (t + 1)) as nat));
                    assert((self.height - (t + 1)) as nat == k);
                }
            }
            t += 1;
        }
        proof {
            assert(pow2(0) == 1) by {
                vstd::arithmetic::power2::lemma2_to64();
            }
            assert((hh - t) as nat == 0);
            let m = pow2(hh) as int;
            vstd::arithmetic::div_mod::lemma_fundamental_div_mod(val as int, m);
            vstd::arithmetic::div_mod::lemma_mod_bound(val as int, m);
            assert(val as int / m >= 0) by {
                vstd::arithmetic::div_mod::lemma_div_pos_is_pos(val as int, m);
            }
            assert(val as int % m <= val) by (nonlinear_arith)
                requires
                    val as int == m * (val as int / m) + val as int % m,
                    val as int / m >= 0,
                    m > 0,
                    val as int % m >= 0,
            ;
            assert(ret as nat <= val);
        }
        ret as usize
    }

    /// The number of values among the first `r` equal to `x` in their low
    /// `height` bits.
    #[verifier::spinoff_prover]
    pub fn rank(&self, x: usize, r: usize) -> (n: usize)
        requires
            self.wf(),
            r <= self.values().len(),
        ensures
            n == self.values().subrange(0, r as int).filter(same_low_bits(x, self.height_spec())).len(),
    {
        let ghost hh = self.height as nat;
        let ghost pre = self.orig@.subrange(0, r as int);
        let ghost mut win: Seq<usize> = pre;
        let mut l: usize = 0;
        let mut r = r;
        let mut t: usize = 0;
        proof {
            assert forall|v: usize| #[trigger] agree_with(x, hh, hh)(v) by {
                lemma_agree_empty(v, x, hh);
            }
            lemma_filter_all(pre, agree_with(x, hh, hh));
            if self.height > 0 {
                assert(self.levels@[0].subrange(0, r as int) == pre);
            }
        }
        while t < self.height
            invariant
                self.wf(),
                hh == self.height,
                t <= self.height,
                l <= r <= self.len,
                win.len() == r - l,
                win == pre.filter(agree_with(x, (hh - t) as nat, hh)),
                t < self.height ==> self.levels@[t as int].subrange(l as int, r as int) == win,
            decreases self.height - t,
        {
            let k = self.height - 1 - t;
            let b = bit(x, k);
            let ghost s = self.levels@[t as int];
            let ghost kk = k as nat;
            let ghost p = if b { ones_at(kk) } else { zeros_at(kk) };
            let ghost (l0, r0) = (l, r);
            l = self.rnk(t, b, l);
            r = self.rnk(t, b, r);
            proof {
                assert(self.step_ok(t as int));
                let d = self.dic@[t as int]@;
                lemma_count_prefix(s, kk, d, l0 as int);
                lemma_count_prefix(s, kk, d, r0 as int);
                lemma_count_prefix(s, kk, d, s.len() as int);
                assert(s.subrange(0, s.len() as int) =~= s);
                lemma_filter_window(s, p, l0 as int, r0 as int);
                let z = s.filter(zeros_at(kk));
                let o = s.filter(ones_at(kk));
                let fw = s.subrange(l0 as int, r0 as int).filter(p);
                if b {
                    assert((z + o).subrange(l as int, r as int) =~= o.subrange((l - z.len()) as int, (r - z.len()) as int));
                } else {
                    assert((z + o).subrange(l as int, r as int) =~= z.subrange(l as int, r as int));
                }
                assert(part(s, kk).subrange(l as int, r as int) == fw);
                lemma_filter_filter(pre, agree_with(x, (hh - t) as nat, hh), p);
                assert((hh - t) as nat == kk + 1);
                assert forall|v: usize| #[trigger] agree_with(x, kk, hh)(v) == (agree_with(x, (hh - t) as nat, hh)(v) && p(v)) by {
                    lemma_agree_step(v, x, kk, hh);
                }
                lemma_filter_ext(pre, |v: usize| agree_with(x, (hh - t) as nat, hh)(v) && p(v), agree_with(x, kk, hh));
                win = fw;
                assert(win == pre.filter(agree_with(x, kk, hh)));
                assert((hh - (t + 1)) as nat == kk);
                if t + 1 < self.height {
                    assert(self.levels@[t + 1] == part(s, (self.height - (t + 1)) as nat));
                }
            }
            t += 1;
        }
        proof {
            assert((hh - t) as nat == 0);
            assert forall|v: usize| #[trigger] agree_with(x, 0, hh)(v) == same_low_bits(x, hh)(v) by {
                lemma_agree_zero(v, x, hh);
            }
            lemma_filter_ext(pre, agree_with(x, 0, hh), same_low_bits(x, hh));
        }
        r - l
    }


    /// The number of zeros at step `t` in positions `l .. r`.
    fn zeros_in(&self, t: usize, l: usize, r: usize) -> (n: usize)
        requires
            self.wf(),
            t < self.height,
            l <= r <= self.len,
        ensures
            n == self.levels@[t as int].subrange(l as int, r as int).filter(zeros_at((self.height - 1 - t) as nat)).len(),
    {
        proof {
            assert(self.step_ok(t as int));
        }
        let a = self.dic[t].rank0_built(r);
        let b = self.dic[t].rank0_built(l);
        proof {
            let s = self.levels@[t as int];
            let k = (self.height - 1 - t) as nat;
            let d = self.dic@[t as int]@;
            lemma_count_prefix(s, k, d, l as int);
            lemma_count_prefix(s, k, d, r as int);
            lemma_filter_window(s, zeros_at(k), l as int, r as int);
        }
        a - b
    }

    /// The values in positions `l .. r` below `x` in their low `height`
    /// bits.
    #[verifier::spinoff_prover]
    pub fn range_freq(&self, l: usize, r: usize, x: usize) -> (n: usize)
        requires
            self.wf(),
            l <= r <= self.values().len(),
        ensures
            n == self.values().subrange(l as int, r as int).filter(below_low_bits(x, self.height_spec())).len(),
    {
        let ghost hh = self.height as nat;
        let ghost pre = self.orig@.subrange(l as int, r as int);
        let ghost mut win: Seq<usize> = pre;
        let mut ret: usize = 0;
        let mut l = l;
        let mut r = r;
        let mut t: usize = 0;
        proof {
            assert forall|v: usize| #[trigger] agree_with(x, hh, hh)(v) by {
                lemma_agree_empty(v, x, hh);
            }
            lemma_filter_all(pre, agree_with(x, hh, hh));
            assert forall|v: usize| !#[trigger] less_with(x, hh, hh)(v) by {
                lemma_less_ends(v, x, hh);
            }
            lemma_filter_none(pre, less_with(x, hh, hh));
            if self.height > 0 {
                assert(self.levels@[0].subrange(l as int, r as int) == pre);
            }
        }
        while t < self.height
            invariant
                self.wf(),
                hh == self.height,
                t <= self.height,
                l <= r <= self.len,
                win.len() == r - l,
                pre.len() <= self.len,
                win == pre.filter(agree_with(x, (hh - t) as nat, hh)),
                ret == pre.filter(less_with(x, (hh - t) as nat, hh)).len(),
                t < self.height ==> self.levels@[t as int].subrange(l as int, r as int) == win,
            decreases self.height - t,
        {
            let k = self.height - 1 - t;
            let f = bit(x, k);
            let ghost s = self.levels@[t as int];
            let ghost kk = k as nat;
            let ghost lo = (hh - t) as nat;
            let ghost p = if f { ones_at(kk) } else { zeros_at(kk) };
            let ghost (l0, r0) = (l, r);
            if f {
                let c = self.zeros_in(t, l, r);
                proof {
                    assert(c == win.filter(zeros_at(kk)).len());
                    lemma_filter_filter(pre, agree_with(x, lo, hh), zeros_at(kk));
                    lemma_filter_len_bound(pre, less_with(x, kk, hh));
                }
                proof {
                    assert(lo == kk + 1);
                    let q = |v: usize| agree_with(x, lo, hh)(v) && zeros_at(kk)(v);
                    assert forall|v: usize| !(#[trigger] less_with(x, lo, hh)(v) && q(v)) by {
                        lemma_less_step(v, x, kk, hh);
                    }
                    lemma_filter_or(pre, less_with(x, lo, hh), q);
                    assert forall|v: usize| #[trigger] less_with(x, kk, hh)(v) == (less_with(x, lo, hh)(v) || q(v)) by {
                        lemma_less_step(v, x, kk, hh);
                    }
                    lemma_filter_ext(pre, less_with(x, kk, hh), |v: usize| less_with(x, lo, hh)(v) || q(v));
                }
                ret = ret + c;
            } else {
                proof {
                    assert(lo == kk + 1);
                    assert forall|v: usize| #[trigger] less_with(x, kk, hh)(v) == less_with(x, lo, hh)(v) by {
                        lemma_less_step(v, x, kk, hh);
                    }
                    lemma_filter_ext(pre, less_with(x, kk, hh), less_with(x, lo, hh));
                }
            }
            l = self.rnk(t, f, l);
            r = self.rnk(t, f, r);
            proof {
                assert(self.step_ok(t as int));
                let d = self.dic@[t as int]@;
                lemma_count_prefix(s, kk, d, l0 as int);
                lemma_count_prefix(s, kk, d, r0 as int);
                lemma_count_prefix(s, kk, d, s.len() as int);
                assert(s.subrange(0, s.len() as int) =~= s);
                lemma_filter_window(s, p, l0 as int, r0 as int);
                let z = s.filter(zeros_at(kk));
                let o = s.filter(ones_at(kk));
                let fw = s.subrange(l0 as int, r0 as int).filter(p);
                if f {
                    assert((z + o).subrange(l as int, r as int) =~= o.subrange((l - z.len()) as int, (r - z.len()) as int));
                } else {
                    assert((z + o).subrange(l as int, r as int) =~= z.subrange(l as int, r as int));
                }
                assert(part(s, kk).subrange(l as int, r as int) == fw);
                lemma_filter_filter(pre, agree_with(x, lo, hh), p);
                assert forall|v: usize| #[trigger] agree_with(x, kk, hh)(v) == (agree_with(x, lo, hh)(v) && p(v)) by {
                    lemma_agree_step(v, x, kk, hh);
                }
                lemma_filter_ext(pre, |v: usize| agree_with(x, lo, hh)(v) && p(v), agree_with(x, kk, hh));
                win = fw;
                assert((hh - (t + 1)) as nat == kk);
                if t + 1 < self.height {
                    assert(self.levels@[t + 1] == part(s, (self.height - (t + 1)) as nat));
                }
            }
            t += 1;
        }
        proof {
            assert((hh - t) as nat == 0);
            assert forall|v: usize| #[trigger] less_with(x, 0, hh)(v) == below_low_bits(x, hh)(v) by {
                lemma_less_ends(v, x, hh);
            }
            lemma_filter_ext(pre, less_with(x, 0, hh), below_low_bits(x, hh));
        }
        ret
    }


    /// The `k`-th smallest (from `0`) of the values in positions `l .. r`,
    /// in their low `height` bits: at most `k` of them are below it, and
    /// more than `k` are at most it.
    #[verifier::spinoff_prover]
    pub fn kth_smallest(&self, l: usize, r: usize, k: usize) -> (v: usize)
        requires
            self.wf(),
            l <= r <= self.values().len(),
            k < r - l,
        ensures
            (v as nat) < pow2(self.height_spec()),
            self.values().subrange(l as int, r as int).filter(below_low_bits(v, self.height_spec())).len() <= k,
            k < self.values().subrange(l as int, r as int).filter(below_low_bits(v, self.height_spec())).len()
                + self.values().subrange(l as int, r as int).filter(same_low_bits(v, self.height_spec())).len(),
    {
        let ghost hh = self.height as nat;
        let ghost pre = self.orig@.subrange(l as int, r as int);
        let ghost k0 = k;
        let ghost mut win: Seq<usize> = pre;
        let mut ret: usize = 0;
        let mut k = k;
        let mut l = l;
        let mut r = r;
        let mut t: usize = 0;
        proof {
            assert forall|v: usize| #[trigger] agree_with(ret, hh, hh)(v) by {
                lemma_agree_empty(v, ret, hh);
            }
            lemma_filter_all(pre, agree_with(ret, hh, hh));
            assert forall|v: usize| !#[trigger] less_with(ret, hh, hh)(v) by {
                lemma_less_ends(v, ret, hh);
            }
            lemma_filter_none(pre, less_with(ret, hh, hh));
            if self.height > 0 {
                assert(self.levels@[0].subrange(l as int, r as int) == pre);
            }
            lemma_pow2_pos(hh);
            vstd::arithmetic::div_mod::lemma_small_mod(0, pow2(hh));
        }
        while t < self.height
            invariant
                self.wf(),
                hh == self.height,
                t <= self.height,
                l <= r <= self.len,
                win.len() == r - l,
                pre.len() <= self.len,
                (ret as nat) < pow2(hh),
                (ret as nat) % pow2((hh - t) as nat) == 0,
                win == pre.filter(agree_with(ret, (hh - t) as nat, hh)),
                k + pre.filter(less_with(ret, (hh - t) as nat, hh)).len() == k0,
                k < win.len(),
                t < self.height ==> self.levels@[t as int].subrange(l as int, r as int) == win,
            decreases self.height - t,
        {
            let kb = self.height - 1 - t;
            let ghost s = self.levels@[t as int];
            let ghost kk = kb as nat;
            let ghost lo = (hh - t) as nat;
            let ghost (l0, r0) = (l, r);
            let ghost ret0 = ret;
            let ghost win0 = win;
            let cnt = self.zeros_in(t, l, r);
            let f = cnt <= k;
            proof {
                assert(lo == kk + 1);
                assert(cnt == win0.filter(zeros_at(kk)).len());
                lemma_filter_filter(pre, agree_with(ret0, lo, hh), zeros_at(kk));
                lemma_filter_filter(pre, agree_with(ret0, lo, hh), ones_at(kk));
                lemma_split_count(win0, kk);
            }
            if f {
                proof {
                    // an element with the bit set bounds the new prefix
                    let o = win0.filter(ones_at(kk));
                    assert(o.len() > 0);
                    win0.lemma_filter_pred(ones_at(kk), 0);
                    let e = o[0];
                    assert(o.contains(e));
                    assert(pre.filter(agree_with(ret0, lo, hh)).filter(ones_at(kk)) == o);
                    assert(pre.filter(|v: usize| agree_with(ret0, lo, hh)(v) && ones_at(kk)(v)).contains(e));
                    let j = choose|j: int| 0 <= j < o.len() && o[j] == e;
                    pre.lemma_filter_pred(|v: usize| agree_with(ret0, lo, hh)(v) && ones_at(kk)(v), j);
                    lemma_prefix_bound(e, ret0, lo, hh);
                    vstd::bits::lemma_u64_pow2_no_overflow(kk);
                }
                let w = ret as u64;
                proof {
                    lemma_set_bit(w, kb as u64);
                }
                let nr = (w | (1u64 << (kb as u64))) as usize;
                proof {
                    lemma_next_prefix(0, ret0, nr, lo, hh);
                    let q = |v: usize| agree_with(ret0, lo, hh)(v) && zeros_at(kk)(v);
                    assert forall|v: usize| !(#[trigger] less_with(ret0, lo, hh)(v) && q(v)) by {
                        lemma_less_step(v, ret0, kk, hh);
                    }
                    lemma_filter_or(pre, less_with(ret0, lo, hh), q);
                    assert forall|v: usize| #[trigger] less_with(nr, kk, hh)(v) == (less_with(ret0, lo, hh)(v) || q(v)) by {
                        lemma_less_step(v, nr, kk, hh);
                        lemma_next_prefix(v, ret0, nr, lo, hh);
                    }
                    lemma_filter_ext(pre, less_with(nr, kk, hh), |v: usize| less_with(ret0, lo, hh)(v) || q(v));
                    assert forall|v: usize| #[trigger] agree_with(nr, kk, hh)(v) == (agree_with(ret0, lo, hh)(v) && ones_at(kk)(v)) by {
                        lemma_agree_step(v, nr, kk, hh);
                        lemma_next_prefix(v, ret0, nr, lo, hh);
                    }
                    lemma_filter_ext(pre, |v: usize| agree_with(ret0, lo, hh)(v) && ones_at(kk)(v), agree_with(nr, kk, hh));
                }
                ret = nr;
                k = k - cnt;
            } else {
                proof {
                    lemma_prefix_clear(ret0, lo);
                    assert forall|v: usize| #[trigger] less_with(ret0, kk, hh)(v) == less_with(ret0, lo, hh)(v) by {
                        lemma_less_step(v, ret0, kk, hh);
                    }
                    lemma_filter_ext(pre, less_with(ret0, kk, hh), less_with(ret0, lo, hh));
                    assert forall|v: usize| #[trigger] agree_with(ret0, kk, hh)(v) == (agree_with(ret0, lo, hh)(v) && zeros_at(kk)(v)) by {
                        lemma_agree_step(v, ret0, kk, hh);
                    }
                    lemma_filter_ext(pre, |v: usize| agree_with(ret0, lo, hh)(v) && zeros_at(kk)(v), agree_with(ret0, kk, hh));
                }
            }
            l = self.rnk(t, f, l);
            r = self.rnk(t, f, r);
            proof {
                let p = if f { ones_at(kk) } else { zeros_at(kk) };
                assert(self.step_ok(t as int));
                let d = self.dic@[t as int]@;
                lemma_count_prefix(s, kk, d, l0 as int);
                lemma_count_prefix(s, kk, d, r0 as int);
                lemma_count_prefix(s, kk, d, s.len() as int);
                assert(s.subrange(0, s.len() as int) =~= s);
                lemma_filter_window(s, p, l0 as int, r0 as int);
                let z = s.filter(zeros_at(kk));
                let o = s.filter(ones_at(kk));
                let fw = s.subrange(l0 as int, r0 as int).filter(p);
                if f {
                    assert((z + o).subrange(l as int, r as int) =~= o.subrange((l - z.len()) as int, (r - z.len()) as int));
                } else {
                    assert((z + o).subrange(l as int, r as int) =~= z.subrange(l as int, r as int));
                }
                assert(part(s, kk).subrange(l as int, r as int) == fw);
                win = fw;
                assert((hh - (t + 1)) as nat == kk);
                if t + 1 < self.height {
                    assert(self.levels@[t + 1] == part(s, (self.height - (t + 1)) as nat));
                }
            }
            t += 1;
        }
        proof {
            assert((hh - t) as nat == 0);
            assert forall|v: usize| #[trigger] less_with(ret, 0, hh)(v) == below_low_bits(ret, hh)(v) by {
                lemma_less_ends(v, ret, hh);
            }
            lemma_filter_ext(pre, less_with(ret, 0, hh), below_low_bits(ret, hh));
            assert forall|v: usize| #[trigger] agree_with(ret, 0, hh)(v) == same_low_bits(ret, hh)(v) by {
                lemma_agree_zero(v, ret, hh);
            }
            lemma_filter_ext(pre, agree_with(ret, 0, hh), same_low_bits(ret, hh));
        }
        ret
    }


    /// How many of the first `r` values equal `x` in their low `height` bits.
    pub open spec fn rank_spec(&self, x: usize, r: int) -> nat {
        self.values().subrange(0, r).filter(same_low_bits(x, self.height_spec())).len()
    }

    /// How many values in positions `l .. r` are below `x` in their low
    /// `height` bits.
    pub open spec fn below_count(&self, l: int, r: int, x: usize) -> nat {
        self.values().subrange(l, r).filter(below_low_bits(x, self.height_spec())).len()
    }

    /// `v` is the `k`-th smallest (from `0`) of the values in positions
    /// `l .. r`, in their low `height` bits.
    pub open spec fn is_kth(&self, l: int, r: int, k: nat, v: usize) -> bool {
        &&& (v as nat) < pow2(self.height_spec())
        &&& self.below_count(l, r, v) <= k
        &&& k < self.below_count(l, r, v) + self.values().subrange(l, r).filter(same_low_bits(v, self.height_spec())).len()
    }

    /// The `k`-th largest (from `0`) of the values in positions `l .. r`:
    /// the `(r - l - 1 - k)`-th smallest.
    pub fn kth_largest(&self, l: usize, r: usize, k: usize) -> (v: usize)
        requires
            self.wf(),
            l <= r <= self.values().len(),
            k < r - l,
        ensures
            self.is_kth(l as int, r as int, (r - l - k - 1) as nat, v),
    {
        self.kth_smallest(l, r, r - l - k - 1)
    }

    /// How many values in positions `l .. r` are at least `low` and below
    /// `high`, in their low `height` bits.
    pub fn range_freq_between(&self, l: usize, r: usize, low: usize, high: usize) -> (n: usize)
        requires
            self.wf(),
            l <= r <= self.values().len(),
            self.below_count(l as int, r as int, low) <= self.below_count(l as int, r as int, high),
        ensures
            n == self.below_count(l as int, r as int, high) - self.below_count(l as int, r as int, low),
    {
        let a = self.range_freq(l, r, high);
        let b = self.range_freq(l, r, low);
        a - b
    }

    /// The largest value in positions `l .. r` below `high` (in the low
    /// `height` bits): the `(c - 1)`-th smallest, `c` the number of values
    /// below `high`; `None` when there is none.
    pub fn prev_value(&self, l: usize, r: usize, high: usize) -> (v: Option<usize>)
        requires
            self.wf(),
            l <= r <= self.values().len(),
        ensures
            v is None <==> self.below_count(l as int, r as int, high) == 0,
            v matches Some(x) ==> self.is_kth(l as int, r as int, (self.below_count(l as int, r as int, high) - 1) as nat, x),
    {
        let cnt = self.range_freq(l, r, high);
        proof {
            self.orig@.subrange(l as int, r as int).lemma_filter_len(below_low_bits(high, self.height as nat));
        }
        if cnt == 0 {
            None
        } else {
            Some(self.kth_smallest(l, r, cnt - 1))
        }
    }

    /// The smallest value in positions `l .. r` at least `low` (in the low
    /// `height` bits): the `c`-th smallest, `c` the number of values below
    /// `low`; `None` when every value is below `low`.
    pub fn next_value(&self, l: usize, r: usize, low: usize) -> (v: Option<usize>)
        requires
            self.wf(),
            l <= r <= self.values().len(),
        ensures
            v is None <==> self.below_count(l as int, r as int, low) == r - l,
            v matches Some(x) ==> self.is_kth(l as int, r as int, self.below_count(l as int, r as int, low), x),
    {
        let cnt = self.range_freq(l, r, low);
        proof {
            self.orig@.subrange(l as int, r as int).lemma_filter_len(below_low_bits(low, self.height as nat));
        }
        if cnt == r - l {
            None
        } else {
            Some(self.kth_smallest(l, r, cnt))
        }
    }

    /// A binary search over `rank(x, ..)` from both ends of `1 ..= len`
    /// that moves its upper end down where the rank is at most `num`:
    /// `Some(0)` for `num = 0`, `None` when fewer than `num` values equal
    /// `x`, otherwise `Some(1)` where the rank at `len / 2` is at most
    /// `num` (with `len >= 2`) and `Some(len)` else.
    #[verifier::spinoff_prover]
    pub fn select(&self, x: usize, num: usize) -> (r: Option<usize>)
        requires
            self.wf(),
        ensures
            num == 0 ==> r == Some(0usize),
            num > 0 ==> (r is None <==> self.rank_spec(x, self.values().len() as int) < num),
            num > 0 && r is Some ==> r.unwrap() == if self.values().len() >= 2 && self.rank_spec(x, (self.values().len() / 2) as int) <= num {
                1
            } else {
                self.values().len()
            },
    {
        if num == 0 {
            return Some(0);
        }
        let n = self.len();
        if self.rank(x, n) < num {
            return None;
        }
        let ghost first = n >= 2 && self.rank_spec(x, (n / 2) as int) <= num;
        let mut wa: usize = 0;
        let mut ac: usize = n;
        proof {
            if n == 0 {
                assert(self.orig@.subrange(0, 0).filter(same_low_bits(x, self.height as nat)).len() == 0) by {
                    reveal(Seq::filter);
                }
            }
        }
        while wa + 1 < ac
            invariant
                self.wf(),
                n == self.len,
                n >= 1,
                num >= 1,
                wa < ac <= n,
                first == (n >= 2 && self.rank_spec(x, (n / 2) as int) <= num),
                (wa == 0 && ac == n) || (first && wa == 0 && self.rank_spec(x, ac as int) <= num)
                    || (!first && ac == n && self.rank_spec(x, wa as int) > num),
            decreases ac - wa,
        {
            let wj = (ac + wa) / 2;
            let rk = self.rank(x, wj);
            proof {
                let p = same_low_bits(x, self.height as nat);
                if wa == 0 && ac == n {
                    assert(wj == n / 2);
                } else if first {
                    lemma_filter_window(self.orig@, p, wj as int, ac as int);
                } else {
                    lemma_filter_window(self.orig@, p, wa as int, wj as int);
                }
            }
            if rk <= num {
                ac = wj;
            } else {
                wa = wj;
            }
        }
        Some(ac)
    }

}

} // verus!
