//! Two's-complement wrapping of mathematical integers into `i64` / `u64`.
use vstd::prelude::*;
use vstd::arithmetic::div_mod::*;

verus! {

/// 2^64, the number of distinct 64-bit words.
pub open spec fn word() -> int {
    0x1_0000_0000_0000_0000
}

/// 2^63.
pub open spec fn half_word() -> int {
    0x8000_0000_0000_0000
}

/// The `i64` value congruent to `v` modulo 2^64.
pub open spec fn wrap_i64(v: int) -> int {
    (v + half_word()) % word() - half_word()
}

/// The `u64` value congruent to `v` modulo 2^64.
pub open spec fn wrap_u64(v: int) -> int {
    v % word()
}

pub proof fn lemma_wrap_i64_range(v: int)
    ensures
        i64::MIN <= wrap_i64(v) <= i64::MAX,
{
    lemma_mod_bound(v + half_word(), word());
}

pub proof fn lemma_wrap_i64_id(v: int)
    requires
        i64::MIN <= v <= i64::MAX,
    ensures
        wrap_i64(v) == v,
{
    lemma_small_mod((v + half_word()) as nat, word() as nat);
}

/// `wrap_i64` only depends on the residue modulo 2^64.
pub proof fn lemma_wrap_i64_mod(x: int, y: int)
    requires
        x % word() == y % word(),
    ensures
        wrap_i64(x) == wrap_i64(y),
{
    lemma_add_mod_noop(x, half_word(), word());
    lemma_add_mod_noop(y, half_word(), word());
}

/// `wrap_i64(v)` is congruent to `v` modulo 2^64.
pub proof fn lemma_wrap_i64_congruent(v: int)
    ensures
        wrap_i64(v) % word() == v % word(),
{
    let r = (v + half_word()) % word();
    lemma_sub_mod_noop(v + half_word(), half_word(), word());
    lemma_mod_twice(v + half_word(), word());
    lemma_sub_mod_noop(r, half_word(), word());
    lemma_mod_bound(half_word(), word());
    lemma_small_mod(half_word() as nat, word() as nat);
}

pub proof fn lemma_wrap_i64_add(a: int, b: int)
    ensures
        wrap_i64(wrap_i64(a) + wrap_i64(b)) == wrap_i64(a + b),
{
    lemma_wrap_i64_congruent(a);
    lemma_wrap_i64_congruent(b);
    lemma_add_mod_noop(wrap_i64(a), wrap_i64(b), word());
    lemma_add_mod_noop(a, b, word());
    lemma_wrap_i64_mod(wrap_i64(a) + wrap_i64(b), a + b);
}

pub proof fn lemma_wrap_i64_sub(a: int, b: int)
    ensures
        wrap_i64(wrap_i64(a) - wrap_i64(b)) == wrap_i64(a - b),
{
    lemma_wrap_i64_congruent(a);
    lemma_wrap_i64_congruent(b);
    lemma_sub_mod_noop(wrap_i64(a), wrap_i64(b), word());
    lemma_sub_mod_noop(a, b, word());
    lemma_wrap_i64_mod(wrap_i64(a) - wrap_i64(b), a - b);
}

pub proof fn lemma_wrap_i64_mul(a: int, b: int)
    ensures
        wrap_i64(wrap_i64(a) * wrap_i64(b)) == wrap_i64(a * b),
{
    lemma_wrap_i64_congruent(a);
    lemma_wrap_i64_congruent(b);
    lemma_mul_mod_noop(wrap_i64(a), wrap_i64(b), word());
    lemma_mul_mod_noop(a, b, word());
    lemma_wrap_i64_mod(wrap_i64(a) * wrap_i64(b), a * b);
}

/// The machine `wrapping_add` on `i64` is `wrap_i64` of the exact sum.
pub proof fn lemma_i64_wrapping_add(x: i64, y: i64)
    ensures
        vstd::wrapping::i64_specs::wrapping_add(x, y) as int == wrap_i64(x + y),
{
    let s = x + y;
    if s > i64::MAX {
        lemma_mod_multiples_vanish(-1, s + half_word(), word());
        lemma_wrap_i64_mod(s, s - word());
        lemma_wrap_i64_id(s - word());
    } else if s < i64::MIN {
        lemma_mod_multiples_vanish(1, s + half_word(), word());
        lemma_wrap_i64_mod(s, s + word());
        lemma_wrap_i64_id(s + word());
    } else {
        lemma_wrap_i64_id(s);
    }
}

/// The machine `wrapping_sub` on `i64` is `wrap_i64` of the exact difference.
pub proof fn lemma_i64_wrapping_sub(x: i64, y: i64)
    ensures
        vstd::wrapping::i64_specs::wrapping_sub(x, y) as int == wrap_i64(x - y),
{
    let s = x - y;
    if s > i64::MAX {
        lemma_mod_multiples_vanish(-1, s + half_word(), word());
        lemma_wrap_i64_mod(s, s - word());
        lemma_wrap_i64_id(s - word());
    } else if s < i64::MIN {
        lemma_mod_multiples_vanish(1, s + half_word(), word());
        lemma_wrap_i64_mod(s, s + word());
        lemma_wrap_i64_id(s + word());
    } else {
        lemma_wrap_i64_id(s);
    }
}

/// The machine `wrapping_mul` on `i64` is `wrap_i64` of the exact product.
pub proof fn lemma_i64_wrapping_mul(x: i64, y: i64)
    ensures
        vstd::wrapping::i64_specs::wrapping_mul(x, y) as int == wrap_i64(x * y),
{
    let p = x * y;
    let r = p % word();
    lemma_mod_bound(p, word());
    lemma_mod_twice(p, word());
    lemma_wrap_i64_mod(p, r);
    if r > i64::MAX {
        lemma_mod_multiples_vanish(-1, r, word());
        lemma_wrap_i64_mod(r, r - word());
        lemma_wrap_i64_id(r - word());
    } else {
        lemma_wrap_i64_id(r);
    }
}

} // verus!
