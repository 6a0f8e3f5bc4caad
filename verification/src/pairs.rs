//! Sums over all unordered pairs of a sequence.
//!
//! For a sequence `x_0, ..., x_{n-1}` every function here returns the sum,
//! over all index pairs `i < j`, of some expression in `(x_i, x_j)`.
//! Arithmetic is two's-complement wrapping: the result is the exact sum
//! reduced into the machine type, so it equals the exact sum whenever that
//! sum fits.
use vstd::prelude::*;
use vstd::arithmetic::mul::*;
use crate::wrap::{
    wrap_i64, lemma_wrap_i64_id, lemma_wrap_i64_add, lemma_wrap_i64_sub, lemma_wrap_i64_mul,
    lemma_i64_wrapping_add, lemma_i64_wrapping_sub, lemma_i64_wrapping_mul,
};

verus! {

/// The elements of an `i64` sequence as mathematical integers.
pub open spec fn to_ints(s: Seq<i64>) -> Seq<int> {
    s.map_values(|x: i64| x as int)
}

/// Sum of all elements.
pub open spec fn seq_sum(s: Seq<int>) -> int
    decreases s.len(),
{
    if s.len() == 0 {
        0
    } else {
        seq_sum(s.drop_last()) + s.last()
    }
}

/// `sum over x in s of f(x, y)`.
pub open spec fn row_sum(s: Seq<int>, y: int, f: spec_fn(int, int) -> int) -> int
    decreases s.len(),
{
    if s.len() == 0 {
        0
    } else {
        row_sum(s.drop_last(), y, f) + f(s.last(), y)
    }
}

/// `sum over y in s of f(x, y)`.
pub open spec fn col_sum(x: int, s: Seq<int>, f: spec_fn(int, int) -> int) -> int
    decreases s.len(),
{
    if s.len() == 0 {
        0
    } else {
        col_sum(x, s.drop_last(), f) + f(x, s.last())
    }
}

/// `sum over all 0 <= i < j < s.len() of f(s[i], s[j])`.
pub open spec fn pair_sum(s: Seq<int>, f: spec_fn(int, int) -> int) -> int
    decreases s.len(),
{
    if s.len() == 0 {
        0
    } else {
        pair_sum(s.drop_last(), f) + row_sum(s.drop_last(), s.last(), f)
    }
}

pub open spec fn symmetric(f: spec_fn(int, int) -> int) -> bool {
    forall|x: int, y: int| #[trigger] f(x, y) == f(y, x)
}

pub open spec fn sorted(s: Seq<i64>) -> bool {
    forall|a: int, b: int| 0 <= a < b < s.len() ==> s[a] <= s[b]
}

/// The pair `(x, y)` contributes `x`.
pub open spec fn pf_first() -> spec_fn(int, int) -> int {
    |x: int, y: int| x
}

/// The pair `(x, y)` contributes `y`.
pub open spec fn pf_second() -> spec_fn(int, int) -> int {
    |x: int, y: int| y
}

/// The pair `(x, y)` contributes `x + y`.
pub open spec fn pf_sum() -> spec_fn(int, int) -> int {
    |x: int, y: int| x + y
}

/// The pair `(x, y)` contributes `x - y`.
pub open spec fn pf_diff() -> spec_fn(int, int) -> int {
    |x: int, y: int| x - y
}

/// The pair `(x, y)` contributes `|x - y|`.
pub open spec fn pf_abs_diff() -> spec_fn(int, int) -> int {
    |x: int, y: int| if x <= y { y - x } else { x - y }
}

/// The pair `(x, y)` contributes `min(x, y)`.
pub open spec fn pf_min() -> spec_fn(int, int) -> int {
    |x: int, y: int| if x <= y { x } else { y }
}

/// The pair `(x, y)` contributes `max(x, y)`.
pub open spec fn pf_max() -> spec_fn(int, int) -> int {
    |x: int, y: int| if x <= y { y } else { x }
}

/// The pair `(x, y)` contributes `x * y`.
pub open spec fn pf_mul() -> spec_fn(int, int) -> int {
    |x: int, y: int| x * y
}

// ---------------------------------------------------------------------------
// Lemmas on the sums
// ---------------------------------------------------------------------------

proof fn lemma_row_sum_first(s: Seq<int>, y: int)
    ensures
        row_sum(s, y, pf_first()) == seq_sum(s),
    decreases s.len(),
{
    if s.len() > 0 {
        lemma_row_sum_first(s.drop_last(), y);
    }
}

proof fn lemma_col_sum_second(x: int, s: Seq<int>)
    ensures
        col_sum(x, s, pf_second()) == seq_sum(s),
    decreases s.len(),
{
    if s.len() > 0 {
        lemma_col_sum_second(x, s.drop_last());
    }
}

proof fn lemma_col_sum_mul(x: int, s: Seq<int>)
    ensures
        col_sum(x, s, pf_mul()) == seq_sum(s) * x,
    decreases s.len(),
{
    if s.len() > 0 {
        lemma_col_sum_mul(x, s.drop_last());
        lemma_mul_is_distributive_add_other_way(x, seq_sum(s.drop_last()), s.last());
    }
}

proof fn lemma_row_sum_split_first(s: Seq<int>, y: int, f: spec_fn(int, int) -> int)
    requires
        s.len() > 0,
    ensures
        row_sum(s, y, f) == f(s[0], y) + row_sum(s.drop_first(), y, f),
    decreases s.len(),
{
    let t = s.drop_first();
    if s.len() > 1 {
        lemma_row_sum_split_first(s.drop_last(), y, f);
        assert(s.drop_last().drop_first() =~= t.drop_last());
        assert(t.last() == s.last());
        assert(row_sum(t, y, f) == row_sum(t.drop_last(), y, f) + f(t.last(), y));
        assert(row_sum(s, y, f) == row_sum(s.drop_last(), y, f) + f(s.last(), y));
        assert(s.drop_last()[0] == s[0]);
    } else {
        assert(s.drop_last().len() == 0);
        assert(t.len() == 0);
        assert(row_sum(t, y, f) == 0);
        assert(row_sum(s.drop_last(), y, f) == 0);
        assert(s.last() == s[0]);
    }
}

/// A pair sum splits into the pairs containing the first element and the rest.
pub proof fn lemma_pair_sum_split_first(s: Seq<int>, f: spec_fn(int, int) -> int)
    requires
        s.len() > 0,
    ensures
        pair_sum(s, f) == col_sum(s[0], s.drop_first(), f) + pair_sum(s.drop_first(), f),
    decreases s.len(),
{
    if s.len() == 1 {
        assert(s.drop_last().len() == 0);
        assert(s.drop_first().len() == 0);
        assert(pair_sum(s, f) == pair_sum(s.drop_last(), f) + row_sum(s.drop_last(), s.last(), f));
        assert(pair_sum(s.drop_last(), f) == 0);
        assert(row_sum(s.drop_last(), s.last(), f) == 0);
        assert(pair_sum(s.drop_first(), f) == 0);
        assert(col_sum(s[0], s.drop_first(), f) == 0);
    } else {
        let t = s.drop_first();
        lemma_pair_sum_split_first(s.drop_last(), f);
        assert(s.drop_last().drop_first() =~= t.drop_last());
        lemma_row_sum_split_first(s.drop_last(), s.last(), f);
        assert(t.last() == s.last());
        assert(s.drop_last()[0] == s[0]);
        assert(pair_sum(s, f) == pair_sum(s.drop_last(), f) + row_sum(s.drop_last(), s.last(), f));
        assert(pair_sum(t, f) == pair_sum(t.drop_last(), f) + row_sum(t.drop_last(), t.last(), f));
        assert(col_sum(s[0], t, f) == col_sum(s[0], t.drop_last(), f) + f(s[0], t.last()));
    }
}

proof fn lemma_row_sum_add(
    s: Seq<int>,
    y: int,
    f: spec_fn(int, int) -> int,
    g: spec_fn(int, int) -> int,
    h: spec_fn(int, int) -> int,
)
    requires
        forall|a: int, b: int| #[trigger] f(a, b) == g(a, b) + h(a, b),
    ensures
        row_sum(s, y, f) == row_sum(s, y, g) + row_sum(s, y, h),
    decreases s.len(),
{
    if s.len() > 0 {
        lemma_row_sum_add(s.drop_last(), y, f, g, h);
        assert(f(s.last(), y) == g(s.last(), y) + h(s.last(), y));
    }
}

/// Pair sums are additive in the contribution.
pub proof fn lemma_pair_sum_add(
    s: Seq<int>,
    f: spec_fn(int, int) -> int,
    g: spec_fn(int, int) -> int,
    h: spec_fn(int, int) -> int,
)
    requires
        forall|a: int, b: int| #[trigger] f(a, b) == g(a, b) + h(a, b),
    ensures
        pair_sum(s, f) == pair_sum(s, g) + pair_sum(s, h),
    decreases s.len(),
{
    if s.len() > 0 {
        lemma_pair_sum_add(s.drop_last(), f, g, h);
        lemma_row_sum_add(s.drop_last(), s.last(), f, g, h);
    }
}

proof fn lemma_row_sum_sub(
    s: Seq<int>,
    y: int,
    f: spec_fn(int, int) -> int,
    g: spec_fn(int, int) -> int,
    h: spec_fn(int, int) -> int,
)
    requires
        forall|a: int, b: int| #[trigger] f(a, b) == g(a, b) - h(a, b),
    ensures
        row_sum(s, y, f) == row_sum(s, y, g) - row_sum(s, y, h),
    decreases s.len(),
{
    if s.len() > 0 {
        lemma_row_sum_sub(s.drop_last(), y, f, g, h);
        assert(f(s.last(), y) == g(s.last(), y) - h(s.last(), y));
    }
}

/// Pair sums are additive in the contribution (difference form).
pub proof fn lemma_pair_sum_sub(
    s: Seq<int>,
    f: spec_fn(int, int) -> int,
    g: spec_fn(int, int) -> int,
    h: spec_fn(int, int) -> int,
)
    requires
        forall|a: int, b: int| #[trigger] f(a, b) == g(a, b) - h(a, b),
    ensures
        pair_sum(s, f) == pair_sum(s, g) - pair_sum(s, h),
    decreases s.len(),
{
    if s.len() > 0 {
        lemma_pair_sum_sub(s.drop_last(), f, g, h);
        lemma_row_sum_sub(s.drop_last(), s.last(), f, g, h);
    }
}

proof fn lemma_row_sum_congruent(
    s: Seq<int>,
    y: int,
    f: spec_fn(int, int) -> int,
    g: spec_fn(int, int) -> int,
)
    requires
        forall|i: int| 0 <= i < s.len() ==> f(#[trigger] s[i], y) == g(s[i], y),
    ensures
        row_sum(s, y, f) == row_sum(s, y, g),
    decreases s.len(),
{
    if s.len() > 0 {
        let t = s.drop_last();
        assert forall|i: int| 0 <= i < t.len() implies f(#[trigger] t[i], y) == g(t[i], y) by {
            assert(t[i] == s[i]);
        }
        lemma_row_sum_congruent(t, y, f, g);
        assert(f(s[s.len() - 1], y) == g(s[s.len() - 1], y));
    }
}

/// Two contributions that agree on every ordered pair `i < j` of `s`
/// give the same pair sum.
pub proof fn lemma_pair_sum_congruent(
    s: Seq<int>,
    f: spec_fn(int, int) -> int,
    g: spec_fn(int, int) -> int,
)
    requires
        forall|i: int, j: int| 0 <= i < j < s.len() ==> f(#[trigger] s[i], #[trigger] s[j]) == g(s[i], s[j]),
    ensures
        pair_sum(s, f) == pair_sum(s, g),
    decreases s.len(),
{
    if s.len() > 0 {
        let t = s.drop_last();
        assert forall|i: int, j: int| 0 <= i < j < t.len() implies f(#[trigger] t[i], #[trigger] t[j]) == g(t[i], t[j]) by {
            assert(t[i] == s[i] && t[j] == s[j]);
        }
        lemma_pair_sum_congruent(t, f, g);
        assert forall|i: int| 0 <= i < t.len() implies f(#[trigger] t[i], s.last()) == g(t[i], s.last()) by {
            assert(t[i] == s[i]);
            assert(s.last() == s[s.len() - 1]);
        }
        lemma_row_sum_congruent(t, s.last(), f, g);
    }
}

pub open spec fn swap_adjacent(s: Seq<int>, k: int) -> Seq<int> {
    s.update(k, s[k + 1]).update(k + 1, s[k])
}

proof fn lemma_row_sum_swap(s: Seq<int>, k: int, y: int, f: spec_fn(int, int) -> int)
    requires
        0 <= k,
        k + 1 < s.len(),
    ensures
        row_sum(swap_adjacent(s, k), y, f) == row_sum(s, y, f),
    decreases s.len(),
{
    let u = swap_adjacent(s, k);
    assert(row_sum(u, y, f) == row_sum(u.drop_last(), y, f) + f(u.last(), y));
    assert(row_sum(s, y, f) == row_sum(s.drop_last(), y, f) + f(s.last(), y));
    if k + 2 < s.len() {
        assert(u.drop_last() =~= swap_adjacent(s.drop_last(), k));
        lemma_row_sum_swap(s.drop_last(), k, y, f);
        assert(u.last() == s.last());
    } else {
        let t = s.subrange(0, k);
        let a = s[k];
        let b = s[k + 1];
        assert(s.drop_last() =~= t.push(a));
        assert(u.drop_last() =~= t.push(b));
        assert(t.push(a).drop_last() =~= t);
        assert(t.push(b).drop_last() =~= t);
        assert(row_sum(t.push(a), y, f) == row_sum(t, y, f) + f(a, y));
        assert(row_sum(t.push(b), y, f) == row_sum(t, y, f) + f(b, y));
        assert(u.last() == a);
        assert(s.last() == b);
    }
}

/// Exchanging two neighbours leaves a symmetric pair sum unchanged.
pub proof fn lemma_pair_sum_swap(s: Seq<int>, k: int, f: spec_fn(int, int) -> int)
    requires
        symmetric(f),
        0 <= k,
        k + 1 < s.len(),
    ensures
        pair_sum(swap_adjacent(s, k), f) == pair_sum(s, f),
    decreases s.len(),
{
    let u = swap_adjacent(s, k);
    assert(pair_sum(u, f) == pair_sum(u.drop_last(), f) + row_sum(u.drop_last(), u.last(), f));
    assert(pair_sum(s, f) == pair_sum(s.drop_last(), f) + row_sum(s.drop_last(), s.last(), f));
    if k + 2 < s.len() {
        assert(u.drop_last() =~= swap_adjacent(s.drop_last(), k));
        lemma_pair_sum_swap(s.drop_last(), k, f);
        lemma_row_sum_swap(s.drop_last(), k, s.last(), f);
        assert(u.last() == s.last());
    } else {
        let t = s.subrange(0, k);
        let a = s[k];
        let b = s[k + 1];
        let ta = t.push(a);
        let tb = t.push(b);
        assert(s.drop_last() =~= ta);
        assert(u.drop_last() =~= tb);
        assert(ta.drop_last() =~= t);
        assert(tb.drop_last() =~= t);
        assert(ta.last() == a);
        assert(tb.last() == b);
        assert(pair_sum(ta, f) == pair_sum(t, f) + row_sum(t, a, f));
        assert(pair_sum(tb, f) == pair_sum(t, f) + row_sum(t, b, f));
        assert(row_sum(ta, b, f) == row_sum(t, b, f) + f(a, b));
        assert(row_sum(tb, a, f) == row_sum(t, a, f) + f(b, a));
        assert(u.last() == a);
        assert(s.last() == b);
        assert(f(a, b) == f(b, a));
    }
}

proof fn lemma_to_ints_swap(v: Seq<i64>, k: int)
    requires
        0 <= k,
        k + 1 < v.len(),
    ensures
        to_ints(v.update(k, v[k + 1]).update(k + 1, v[k])) =~= swap_adjacent(to_ints(v), k),
{
}

// ---------------------------------------------------------------------------
// Executable functions
// ---------------------------------------------------------------------------

/// Sum of `x` over all pairs `(x, y)` taken in order. O(N).
pub fn sum_pair_first(xs: &[i64]) -> (r: i64)
    ensures
        r as int == wrap_i64(pair_sum(to_ints(xs@), pf_first())),
{
    let ghost s = to_ints(xs@);
    let mut ans: i64 = 0;
    let mut sum: i64 = 0;
    let mut k: usize = 0;
    while k < xs.len()
        invariant
            k <= xs.len(),
            s == to_ints(xs@),
            ans as int == wrap_i64(pair_sum(s.subrange(0, k as int), pf_first())),
            sum as int == wrap_i64(seq_sum(s.subrange(0, k as int))),
        decreases xs.len() - k,
    {
        let x = xs[k];
        proof {
            let p = s.subrange(0, k as int);
            let q = s.subrange(0, k + 1);
            assert(q.drop_last() =~= p);
            assert(q.last() == x as int);
            lemma_row_sum_first(p, x as int);
            lemma_i64_wrapping_add(ans, sum);
            lemma_i64_wrapping_add(sum, x);
            lemma_wrap_i64_add(pair_sum(p, pf_first()), seq_sum(p));
            lemma_wrap_i64_id(x as int);
            lemma_wrap_i64_add(seq_sum(p), x as int);
        }
        ans = ans.wrapping_add(sum);
        sum = sum.wrapping_add(x);
        k += 1;
    }
    proof {
        assert(s.subrange(0, xs.len() as int) =~= s);
    }
    ans
}

/// Sum of `y` over all pairs `(x, y)` taken in order. O(N).
pub fn sum_pair_second(xs: &[i64]) -> (r: i64)
    ensures
        r as int == wrap_i64(pair_sum(to_ints(xs@), pf_second())),
{
    let ghost s = to_ints(xs@);
    let n = xs.len();
    let mut ans: i64 = 0;
    let mut sum: i64 = 0;
    let mut k: usize = n;
    proof {
        assert(s.subrange(n as int, n as int).len() == 0);
    }
    while k > 0
        invariant
            k <= n,
            n == xs.len(),
            s == to_ints(xs@),
            ans as int == wrap_i64(pair_sum(s.subrange(k as int, n as int), pf_second())),
            sum as int == wrap_i64(seq_sum(s.subrange(k as int, n as int))),
        decreases k,
    {
        k -= 1;
        let x = xs[k];
        proof {
            let p = s.subrange(k + 1, n as int);
            let q = s.subrange(k as int, n as int);
            assert(q.drop_first() =~= p);
            assert(q[0] == x as int);
            lemma_pair_sum_split_first(q, pf_second());
            lemma_col_sum_second(x as int, p);
            lemma_seq_sum_split_first(q);
            lemma_i64_wrapping_add(ans, sum);
            lemma_i64_wrapping_add(sum, x);
            lemma_wrap_i64_add(pair_sum(p, pf_second()), seq_sum(p));
            lemma_wrap_i64_id(x as int);
            lemma_wrap_i64_add(seq_sum(p), x as int);
        }
        ans = ans.wrapping_add(sum);
        sum = sum.wrapping_add(x);
    }
    proof {
        assert(s.subrange(0, n as int) =~= s);
    }
    ans
}

/// The sum of a non-empty sequence splits off its first element.
pub proof fn lemma_seq_sum_split_first(s: Seq<int>)
    requires
        s.len() > 0,
    ensures
        seq_sum(s) == s[0] + seq_sum(s.drop_first()),
    decreases s.len(),
{
    let t = s.drop_first();
    if s.len() > 1 {
        lemma_seq_sum_split_first(s.drop_last());
        assert(s.drop_last().drop_first() =~= t.drop_last());
        assert(t.last() == s.last());
        assert(s.drop_last()[0] == s[0]);
        assert(seq_sum(t) == seq_sum(t.drop_last()) + t.last());
        assert(seq_sum(s) == seq_sum(s.drop_last()) + s.last());
    } else {
        assert(s.drop_last().len() == 0);
        assert(t.len() == 0);
        assert(seq_sum(t) == 0);
        assert(seq_sum(s.drop_last()) == 0);
        assert(seq_sum(s) == seq_sum(s.drop_last()) + s.last());
    }
}

/// Sum of `x + y` over all pairs. O(N).
pub fn sum_pair_sum(xs: &[i64]) -> (r: i64)
    ensures
        r as int == wrap_i64(pair_sum(to_ints(xs@), pf_sum())),
{
    let a = sum_pair_first(xs);
    let b = sum_pair_second(xs);
    proof {
        let s = to_ints(xs@);
        lemma_pair_sum_add(s, pf_sum(), pf_first(), pf_second());
        lemma_i64_wrapping_add(a, b);
        lemma_wrap_i64_add(pair_sum(s, pf_first()), pair_sum(s, pf_second()));
    }
    a.wrapping_add(b)
}

/// Sum of `x - y` over all pairs. O(N).
pub fn sum_pair_diff(xs: &[i64]) -> (r: i64)
    ensures
        r as int == wrap_i64(pair_sum(to_ints(xs@), pf_diff())),
{
    let a = sum_pair_first(xs);
    let b = sum_pair_second(xs);
    proof {
        let s = to_ints(xs@);
        lemma_pair_sum_sub(s, pf_diff(), pf_first(), pf_second());
        lemma_i64_wrapping_sub(a, b);
        lemma_wrap_i64_sub(pair_sum(s, pf_first()), pair_sum(s, pf_second()));
    }
    a.wrapping_sub(b)
}

/// Sum of `x * y` over all pairs. O(N).
pub fn sum_pair_mul(xs: &[i64]) -> (r: i64)
    ensures
        r as int == wrap_i64(pair_sum(to_ints(xs@), pf_mul())),
{
    let ghost s = to_ints(xs@);
    let n = xs.len();
    let mut ans: i64 = 0;
    let mut sum: i64 = 0;
    let mut k: usize = n;
    proof {
        assert(s.subrange(n as int, n as int).len() == 0);
    }
    while k > 0
        invariant
            k <= n,
            n == xs.len(),
            s == to_ints(xs@),
            ans as int == wrap_i64(pair_sum(s.subrange(k as int, n as int), pf_mul())),
            sum as int == wrap_i64(seq_sum(s.subrange(k as int, n as int))),
        decreases k,
    {
        k -= 1;
        let x = xs[k];
        proof {
            let p = s.subrange(k + 1, n as int);
            let q = s.subrange(k as int, n as int);
            assert(q.drop_first() =~= p);
            assert(q[0] == x as int);
            lemma_pair_sum_split_first(q, pf_mul());
            lemma_col_sum_mul(x as int, p);
            lemma_seq_sum_split_first(q);
            let prod = vstd::wrapping::i64_specs::wrapping_mul(sum, x);
            lemma_i64_wrapping_mul(sum, x);
            lemma_wrap_i64_id(x as int);
            lemma_wrap_i64_mul(seq_sum(p), x as int);
            lemma_i64_wrapping_add(ans, prod);
            lemma_wrap_i64_add(pair_sum(p, pf_mul()), seq_sum(p) * x);
            lemma_i64_wrapping_add(sum, x);
            lemma_wrap_i64_add(seq_sum(p), x as int);
        }
        ans = ans.wrapping_add(sum.wrapping_mul(x));
        sum = sum.wrapping_add(x);
    }
    proof {
        assert(s.subrange(0, n as int) =~= s);
    }
    ans
}

/// Sum of `x * y` over all pairs `(x, y)`. O(N).
pub fn sum_of_pair_mul(xs: &[i64]) -> (r: i64)
    ensures
        r as int == wrap_i64(pair_sum(to_ints(xs@), pf_mul())),
{
    sum_pair_mul(xs)
}

/// A sorted copy of `xs` with the same symmetric pair sums.
fn sorted_copy(xs: &[i64]) -> (v: Vec<i64>)
    ensures
        v@.len() == xs@.len(),
        sorted(v@),
        forall|f: spec_fn(int, int) -> int|
            symmetric(f) ==> #[trigger] pair_sum(to_ints(v@), f) == pair_sum(to_ints(xs@), f),
{
    let n = xs.len();
    let mut v: Vec<i64> = Vec::new();
    let mut k: usize = 0;
    while k < n
        invariant
            k <= n,
            n == xs.len(),
            v@ =~= xs@.subrange(0, k as int),
        decreases n - k,
    {
        v.push(xs[k]);
        k += 1;
    }
    assert(v@ =~= xs@);
    let mut i: usize = 1;
    while i < n
        invariant
            v@.len() == n,
            n == xs.len(),
            forall|a: int, b: int| 0 <= a < b < i && b < n ==> v@[a] <= v@[b],
            forall|f: spec_fn(int, int) -> int|
                symmetric(f) ==> #[trigger] pair_sum(to_ints(v@), f) == pair_sum(to_ints(xs@), f),
        decreases n - i,
    {
        let mut j: usize = i;
        while j > 0 && v[j - 1] > v[j]
            invariant
                0 <= j <= i < n,
                v@.len() == n,
                n == xs.len(),
                forall|a: int, b: int| 0 <= a < b < j ==> v@[a] <= v@[b],
                forall|a: int, b: int| j <= a < b <= i ==> v@[a] <= v@[b],
                forall|a: int, b: int| 0 <= a < j && j < b <= i ==> v@[a] <= v@[b],
                forall|f: spec_fn(int, int) -> int|
                    symmetric(f) ==> #[trigger] pair_sum(to_ints(v@), f) == pair_sum(to_ints(xs@), f),
            decreases j,
        {
            let ghost old_v = v@;
            let a = v[j - 1];
            let b = v[j];
            v[j - 1] = b;
            v[j] = a;
            proof {
                assert(v@ =~= old_v.update(j - 1, old_v[j as int]).update(j as int, old_v[j - 1]));
                lemma_to_ints_swap(old_v, j - 1);
                assert forall|f: spec_fn(int, int) -> int| symmetric(f) implies #[trigger] pair_sum(
                    to_ints(v@),
                    f,
                ) == pair_sum(to_ints(xs@), f) by {
                    lemma_pair_sum_swap(to_ints(old_v), j - 1, f);
                }
            }
            j -= 1;
        }
        i += 1;
    }
    v
}

/// Sum of `min(x, y)` over all pairs. O(N^2) on the sorted copy.
pub fn sum_pair_min(xs: &[i64]) -> (r: i64)
    ensures
        r as int == wrap_i64(pair_sum(to_ints(xs@), pf_min())),
{
    let ys = sorted_copy(xs);
    let r = sum_pair_first(ys.as_slice());
    proof {
        let s = to_ints(ys@);
        assert(symmetric(pf_min()));
        assert forall|i: int, j: int| 0 <= i < j < s.len() implies pf_min()(
            #[trigger] s[i],
            #[trigger] s[j],
        ) == pf_first()(s[i], s[j]) by {
            assert(ys@[i] <= ys@[j]);
        }
        lemma_pair_sum_congruent(s, pf_min(), pf_first());
    }
    r
}

/// Sum of `max(x, y)` over all pairs.
pub fn sum_pair_max(xs: &[i64]) -> (r: i64)
    ensures
        r as int == wrap_i64(pair_sum(to_ints(xs@), pf_max())),
{
    let ys = sorted_copy(xs);
    let r = sum_pair_second(ys.as_slice());
    proof {
        let s = to_ints(ys@);
        assert(symmetric(pf_max()));
        assert forall|i: int, j: int| 0 <= i < j < s.len() implies pf_max()(
            #[trigger] s[i],
            #[trigger] s[j],
        ) == pf_second()(s[i], s[j]) by {
            assert(ys@[i] <= ys@[j]);
        }
        lemma_pair_sum_congruent(s, pf_max(), pf_second());
    }
    r
}

/// Sum of `|x - y|` over all pairs.
pub fn sum_pair_abs_diff(xs: &[i64]) -> (r: i64)
    ensures
        r as int == wrap_i64(pair_sum(to_ints(xs@), pf_abs_diff())),
{
    let ys = sorted_copy(xs);
    let b = sum_pair_second(ys.as_slice());
    let a = sum_pair_first(ys.as_slice());
    proof {
        let s = to_ints(ys@);
        let g = |x: int, y: int| y - x;
        assert(symmetric(pf_abs_diff()));
        assert forall|i: int, j: int| 0 <= i < j < s.len() implies pf_abs_diff()(
            #[trigger] s[i],
            #[trigger] s[j],
        ) == g(s[i], s[j]) by {
            assert(ys@[i] <= ys@[j]);
        }
        lemma_pair_sum_congruent(s, pf_abs_diff(), g);
        lemma_pair_sum_sub(s, g, pf_second(), pf_first());
        lemma_i64_wrapping_sub(b, a);
        lemma_wrap_i64_sub(pair_sum(s, pf_second()), pair_sum(s, pf_first()));
    }
    b.wrapping_sub(a)
}


/// The pair `(x, y)` contributes
/// `aa * x * x + bb * y * y + ab * x * y + a * x + b * y + c`.
pub open spec fn pf_affine(aa: int, bb: int, ab: int, a: int, b: int, c: int) -> spec_fn(int, int) -> int {
    |x: int, y: int| aa * x * x + bb * y * y + ab * x * y + a * x + b * y + c
}

/// Sum of the squares of the elements.
pub open spec fn sq_sum(s: Seq<int>) -> int
    decreases s.len(),
{
    if s.len() == 0 {
        0
    } else {
        sq_sum(s.drop_last()) + s.last() * s.last()
    }
}

proof fn lemma_sq_sum_split_first(s: Seq<int>)
    requires
        s.len() > 0,
    ensures
        sq_sum(s) == s[0] * s[0] + sq_sum(s.drop_first()),
    decreases s.len(),
{
    let t = s.drop_first();
    if s.len() > 1 {
        lemma_sq_sum_split_first(s.drop_last());
        assert(s.drop_last().drop_first() =~= t.drop_last());
        assert(t.last() == s.last());
        assert(s.drop_last()[0] == s[0]);
        assert(sq_sum(t) == sq_sum(t.drop_last()) + t.last() * t.last());
        assert(sq_sum(s) == sq_sum(s.drop_last()) + s.last() * s.last());
    } else {
        assert(s.drop_last().len() == 0);
        assert(t.len() == 0);
        assert(sq_sum(t) == 0);
        assert(sq_sum(s.drop_last()) == 0);
        assert(sq_sum(s) == sq_sum(s.drop_last()) + s.last() * s.last());
    }
}

proof fn lemma_col_sum_affine(aa: int, bb: int, ab: int, a: int, b: int, c: int, x: int, s: Seq<int>)
    ensures
        col_sum(x, s, pf_affine(aa, bb, ab, a, b, c)) == s.len() * (aa * x * x + a * x + c)
            + bb * sq_sum(s) + (ab * x + b) * seq_sum(s),
    decreases s.len(),
{
    if s.len() > 0 {
        let f = pf_affine(aa, bb, ab, a, b, c);
        let t = s.drop_last();
        let y = s.last();
        lemma_col_sum_affine(aa, bb, ab, a, b, c, x, t);
        let k = aa * x * x + a * x + c;
        let m = ab * x + b;
        let n1 = t.len() as int;
        let sq = sq_sum(t);
        let sm = seq_sum(t);
        assert(col_sum(x, s, f) == col_sum(x, t, f) + f(x, y));
        assert(f(x, y) == aa * x * x + bb * y * y + ab * x * y + a * x + b * y + c);
        assert(n1 * k + bb * sq + m * sm + (aa * x * x + bb * y * y + ab * x * y + a * x + b * y + c)
            == (n1 + 1) * k + bb * (sq + y * y) + m * (sm + y)) by (nonlinear_arith)
            requires
                k == aa * x * x + a * x + c,
                m == ab * x + b,
        ;
    }
}

proof fn lemma_affine_step(aa: int, bb: int, a: int, c: int, x: int, l: int, i: int, sq: int, ss: int, m: int)
    ensures
        (i + 1) * bb * sq + (aa * l + bb * i) * x * x + l * (a * x + c) + m * ss
            == l * (aa * x * x + a * x + c) + bb * sq + m * ss + i * bb * (x * x + sq),
{
    assert((i + 1) * bb * sq == i * bb * sq + bb * sq) by (nonlinear_arith);
    assert((aa * l + bb * i) * x * x == l * (aa * x * x) + i * bb * (x * x)) by (nonlinear_arith);
    assert(l * (a * x + c) == l * (a * x) + l * c) by (nonlinear_arith);
    assert(l * (aa * x * x + a * x + c) == l * (aa * x * x) + l * (a * x) + l * c) by (nonlinear_arith);
    assert(i * bb * (x * x + sq) == i * bb * (x * x) + i * bb * sq) by (nonlinear_arith);
}

proof fn lemma_wadd(u: i64, v: i64, uu: int, vv: int)
    requires
        u as int == wrap_i64(uu),
        v as int == wrap_i64(vv),
    ensures
        vstd::wrapping::i64_specs::wrapping_add(u, v) as int == wrap_i64(uu + vv),
{
    lemma_i64_wrapping_add(u, v);
    lemma_wrap_i64_add(uu, vv);
}

proof fn lemma_wmul(u: i64, v: i64, uu: int, vv: int)
    requires
        u as int == wrap_i64(uu),
        v as int == wrap_i64(vv),
    ensures
        vstd::wrapping::i64_specs::wrapping_mul(u, v) as int == wrap_i64(uu * vv),
{
    lemma_i64_wrapping_mul(u, v);
    lemma_wrap_i64_mul(uu, vv);
}

/// Sum of `aa * x * x + bb * y * y + ab * x * y + a * x + b * y + c` over
/// all pairs `(x, y)`. O(N).
pub fn sum_pair_affine(xs: &[i64], aa: i64, bb: i64, ab: i64, a: i64, b: i64, c: i64) -> (r: i64)
    requires
        xs@.len() <= i64::MAX,
    ensures
        r as int == wrap_i64(pair_sum(to_ints(xs@), pf_affine(aa as int, bb as int, ab as int, a as int, b as int, c as int))),
{
    let ghost s = to_ints(xs@);
    let ghost f = pf_affine(aa as int, bb as int, ab as int, a as int, b as int, c as int);
    let n = xs.len();
    let mut ans: i64 = 0;
    let mut sum: i64 = 0;
    let mut k: usize = n;
    proof {
        assert(s.subrange(n as int, n as int).len() == 0);
        lemma_wrap_i64_id(0);
    }
    while k > 0
        invariant
            k <= n,
            n == xs.len(),
            n <= i64::MAX,
            s == to_ints(xs@),
            f == pf_affine(aa as int, bb as int, ab as int, a as int, b as int, c as int),
            ans as int == wrap_i64(pair_sum(s.subrange(k as int, n as int), f) + k * bb * sq_sum(s.subrange(k as int, n as int))),
            sum as int == wrap_i64(seq_sum(s.subrange(k as int, n as int))),
        decreases k,
    {
        k -= 1;
        let x = xs[k];
        let l = (n - k - 1) as i64;
        let i = k as i64;
        let ghost q = s.subrange(k + 1, n as int);
        let ghost q2 = s.subrange(k as int, n as int);
        let ghost xi = x as int;
        let ghost li = l as int;
        let ghost ii = i as int;
        let ghost ss = seq_sum(q);
        proof {
            lemma_wrap_i64_id(aa as int);
            lemma_wrap_i64_id(bb as int);
            lemma_wrap_i64_id(ab as int);
            lemma_wrap_i64_id(a as int);
            lemma_wrap_i64_id(b as int);
            lemma_wrap_i64_id(c as int);
            lemma_wrap_i64_id(xi);
            lemma_wrap_i64_id(li);
            lemma_wrap_i64_id(ii);
            lemma_wmul(aa, l, aa as int, li);
            lemma_wmul(bb, i, bb as int, ii);
        }
        let t1a = aa.wrapping_mul(l);
        let t1b = bb.wrapping_mul(i);
        proof {
            lemma_wadd(t1a, t1b, aa * li, bb * ii);
        }
        let t1 = t1a.wrapping_add(t1b);
        proof {
            lemma_wmul(t1, x, aa * li + bb * ii, xi);
        }
        let t2a = t1.wrapping_mul(x);
        proof {
            lemma_wmul(t2a, x, (aa * li + bb * ii) * xi, xi);
            lemma_wmul(a, x, a as int, xi);
        }
        let t2 = t2a.wrapping_mul(x);
        let t3a = a.wrapping_mul(x);
        proof {
            lemma_wadd(t3a, c, a * xi, c as int);
        }
        let t3b = t3a.wrapping_add(c);
        proof {
            lemma_wmul(l, t3b, li, a * xi + c);
            lemma_wmul(ab, x, ab as int, xi);
        }
        let t3 = l.wrapping_mul(t3b);
        let t4a = ab.wrapping_mul(x);
        proof {
            lemma_wadd(t4a, b, ab * xi, b as int);
        }
        let t4b = t4a.wrapping_add(b);
        proof {
            lemma_wmul(t4b, sum, ab * xi + b, ss);
        }
        let t4 = t4b.wrapping_mul(sum);
        let ghost e_old = pair_sum(q, f) + (k + 1) * bb * sq_sum(q);
        let ghost e2 = (aa * li + bb * ii) * xi * xi;
        let ghost e3 = li * (a * xi + c);
        let ghost e4 = (ab * xi + b) * ss;
        proof {
            lemma_wadd(ans, t2, e_old, e2);
        }
        let u1 = ans.wrapping_add(t2);
        proof {
            lemma_wadd(u1, t3, e_old + e2, e3);
        }
        let u2 = u1.wrapping_add(t3);
        proof {
            lemma_wadd(u2, t4, e_old + e2 + e3, e4);
            lemma_wadd(sum, x, ss, xi);
            assert(q2.drop_first() =~= q);
            assert(q2[0] == xi);
            lemma_pair_sum_split_first(q2, f);
            lemma_sq_sum_split_first(q2);
            lemma_seq_sum_split_first(q2);
            lemma_col_sum_affine(aa as int, bb as int, ab as int, a as int, b as int, c as int, xi, q);
            assert(q.len() == li);
            let sq = sq_sum(q);
            let ps = pair_sum(q, f);
            let cs = col_sum(xi, q, f);
            lemma_affine_step(aa as int, bb as int, a as int, c as int, xi, li, ii, sq, ss, ab * xi + b);
            assert(e_old + e2 + e3 + e4 == cs + ps + ii * bb * (xi * xi + sq));
        }
        ans = u2.wrapping_add(t4);
        sum = sum.wrapping_add(x);
    }
    proof {
        assert(s.subrange(0, n as int) =~= s);
        assert(0 * bb * sq_sum(s) == 0) by (nonlinear_arith);
    }
    ans
}

} // verus!
