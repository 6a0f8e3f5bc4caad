//! Helpers on lists of `i64`: sorted copy, sum, replacement, extremes,
//! cyclic indexing and mapping.
use vstd::prelude::*;
use crate::multiset::{elements, BTreeMultiset};
use crate::pairs::{seq_sum, to_ints, lemma_seq_sum_split_first};
use crate::sorted_seq::sorted;
use crate::wrap::{wrap_i64, lemma_wrap_i64_id, lemma_wrap_i64_add, lemma_i64_wrapping_add};

verus! {

/// The elements of `xs` in non-decreasing order.
pub fn sorted_list(xs: &[i64]) -> (v: Vec<i64>)
    ensures
        sorted(v@),
        elements(v@) == elements(xs@),
{
    let mut m = BTreeMultiset::new();
    let mut i: usize = 0;
    proof {
        assert(xs@.subrange(0, 0) =~= Seq::<i64>::empty());
    }
    while i < xs.len()
        invariant
            i <= xs@.len(),
            m.wf(),
            elements(m@) == elements(xs@.subrange(0, i as int)),
        decreases xs@.len() - i,
    {
        m.insert(xs[i]);
        proof {
            let p = xs@.subrange(0, i as int);
            assert(xs@.subrange(0, i + 1) =~= p.push(xs@[i as int]));
            p.to_multiset_ensures();
            vstd::seq_lib::to_multiset_build(p, xs@[i as int]);
        }
        i += 1;
    }
    proof {
        assert(xs@.subrange(0, xs@.len() as int) =~= xs@);
        m.lemma_wf_sorted();
    }
    let mut it = m.iter();
    it.collect_rest()
}

/// The sum of the elements, wrapping modulo 2^64.
pub fn sum(xs: &[i64]) -> (r: i64)
    ensures
        r as int == wrap_i64(seq_sum(to_ints(xs@))),
{
    let mut s: i64 = 0;
    let mut i: usize = 0;
    proof {
        assert(to_ints(xs@).subrange(0, 0) =~= Seq::<int>::empty());
        lemma_wrap_i64_id(0);
    }
    while i < xs.len()
        invariant
            i <= xs@.len(),
            s as int == wrap_i64(seq_sum(to_ints(xs@).subrange(0, i as int))),
        decreases xs@.len() - i,
    {
        proof {
            let p = to_ints(xs@).subrange(0, i as int);
            let q = to_ints(xs@).subrange(0, i + 1);
            assert(q.drop_last() =~= p);
            assert(q.last() == xs@[i as int] as int);
            lemma_i64_wrapping_add(s, xs@[i as int]);
            lemma_wrap_i64_id(xs@[i as int] as int);
            lemma_wrap_i64_add(seq_sum(p), xs@[i as int] as int);
        }
        s = s.wrapping_add(xs[i]);
        i += 1;
    }
    proof {
        assert(to_ints(xs@).subrange(0, xs@.len() as int) =~= to_ints(xs@));
    }
    s
}

/// A copy with every element equal to `from` replaced by `to`.
pub fn replace(xs: &[i64], from: i64, to: i64) -> (v: Vec<i64>)
    ensures
        v@.len() == xs@.len(),
        forall|i: int| 0 <= i < xs@.len() ==> #[trigger] v@[i] == if xs@[i] == from { to } else { xs@[i] },
{
    let mut v: Vec<i64> = Vec::new();
    let mut i: usize = 0;
    while i < xs.len()
        invariant
            i <= xs@.len(),
            v@.len() == i,
            forall|k: int| 0 <= k < i ==> #[trigger] v@[k] == if xs@[k] == from { to } else { xs@[k] },
        decreases xs@.len() - i,
    {
        let x = xs[i];
        v.push(if x == from { to } else { x });
        i += 1;
    }
    v
}

/// The greatest element; the list must not be empty.
pub fn max_value(xs: &[i64]) -> (m: i64)
    requires
        xs@.len() > 0,
    ensures
        xs@.contains(m),
        forall|i: int| 0 <= i < xs@.len() ==> #[trigger] xs@[i] <= m,
{
    let mut m = xs[0];
    let mut i: usize = 1;
    while i < xs.len()
        invariant
            1 <= i <= xs@.len(),
            xs@.contains(m),
            forall|k: int| 0 <= k < i ==> #[trigger] xs@[k] <= m,
        decreases xs@.len() - i,
    {
        if xs[i] > m {
            m = xs[i];
        }
        i += 1;
    }
    m
}

/// The least element; the list must not be empty.
pub fn min_value(xs: &[i64]) -> (m: i64)
    requires
        xs@.len() > 0,
    ensures
        xs@.contains(m),
        forall|i: int| 0 <= i < xs@.len() ==> m <= #[trigger] xs@[i],
{
    let mut m = xs[0];
    let mut i: usize = 1;
    while i < xs.len()
        invariant
            1 <= i <= xs@.len(),
            xs@.contains(m),
            forall|k: int| 0 <= k < i ==> m <= #[trigger] xs@[k],
        decreases xs@.len() - i,
    {
        if xs[i] < m {
            m = xs[i];
        }
        i += 1;
    }
    m
}

/// The element at `idx` taken cyclically: negative indices count from the
/// end.
pub fn at(xs: &[i64], idx: i64) -> (x: i64)
    requires
        xs@.len() > 0,
        xs@.len() <= i64::MAX,
    ensures
        x == xs@[idx as int % (xs@.len() as int)],
{
    let n = xs.len() as u64;
    let k: u64 = if idx >= 0 {
        (idx as u64) % n
    } else {
        let a = (0i128 - idx as i128) as u64;
        let m = a % n;
        if m == 0 { 0 } else { n - m }
    };
    proof {
        let ni = n as int;
        let ii = idx as int;
        if idx >= 0 {
            assert(k as int == ii % ni);
        } else {
            let a = -ii;
            let q = a / ni;
            let m = a % ni;
            vstd::arithmetic::div_mod::lemma_fundamental_div_mod(a, ni);
            vstd::arithmetic::div_mod::lemma_mod_bound(a, ni);
            if m == 0 {
                assert(ii == (-q) * ni) by (nonlinear_arith)
                    requires
                        a == ni * q + m,
                        m == 0,
                        ii == -a,
                ;
                vstd::arithmetic::div_mod::lemma_fundamental_div_mod_converse(ii, ni, -q, 0);
            } else {
                assert(ii == (-q - 1) * ni + (ni - m)) by (nonlinear_arith)
                    requires
                        a == ni * q + m,
                        ii == -a,
                ;
                vstd::arithmetic::div_mod::lemma_fundamental_div_mod_converse(ii, ni, -q - 1, ni - m);
            }
        }
    }
    xs[k as usize]
}

/// `f` applied to every element.
pub fn map<U, F: Fn(i64) -> U>(xs: &[i64], f: F) -> (v: Vec<U>)
    requires
        forall|x: i64| #[trigger] call_requires(f, (x,)),
    ensures
        v@.len() == xs@.len(),
        forall|i: int| 0 <= i < xs@.len() ==> call_ensures(f, (xs@[i],), #[trigger] v@[i]),
{
    let mut v: Vec<U> = Vec::new();
    let mut i: usize = 0;
    while i < xs.len()
        invariant
            i <= xs@.len(),
            v@.len() == i,
            forall|x: i64| #[trigger] call_requires(f, (x,)),
            forall|k: int| 0 <= k < i ==> call_ensures(f, (xs@[k],), #[trigger] v@[k]),
        decreases xs@.len() - i,
    {
        v.push(f(xs[i]));
        i += 1;
    }
    v
}

/// The list helpers as methods of any list of `i64` that lends its slice.
pub trait MyList {
    /// The elements.
    spec fn list_view(&self) -> Seq<i64>;

    fn to_slice(&self) -> (s: &[i64])
        ensures
            s@ == self.list_view(),
    ;

    /// A sorted copy (see `sorted_list`).
    fn sorted(&self) -> (v: Vec<i64>)
        ensures
            sorted(v@),
            elements(v@) == elements(self.list_view()),
    {
        sorted_list(self.to_slice())
    }

    /// The wrapped sum (see `sum`).
    fn sum(&self) -> (r: i64)
        ensures
            r as int == wrap_i64(seq_sum(to_ints(self.list_view()))),
    {
        sum(self.to_slice())
    }

    /// A copy with `from` replaced by `to` (see `replace`).
    fn replace(&self, from: i64, to: i64) -> (v: Vec<i64>)
        ensures
            v@.len() == self.list_view().len(),
            forall|i: int| 0 <= i < self.list_view().len() ==> #[trigger] v@[i] == if self.list_view()[i] == from { to } else { self.list_view()[i] },
    {
        replace(self.to_slice(), from, to)
    }

    /// The largest element of a non-empty list.
    fn max_value(&self) -> (m: i64)
        requires
            self.list_view().len() > 0,
        ensures
            self.list_view().contains(m),
            forall|i: int| 0 <= i < self.list_view().len() ==> #[trigger] self.list_view()[i] <= m,
    {
        max_value(self.to_slice())
    }

    /// The least element of a non-empty list.
    fn min_value(&self) -> (m: i64)
        requires
            self.list_view().len() > 0,
        ensures
            self.list_view().contains(m),
            forall|i: int| 0 <= i < self.list_view().len() ==> m <= #[trigger] self.list_view()[i],
    {
        min_value(self.to_slice())
    }

    /// The element at `idx` counted cyclically (see `MyIndex::of_slice`).
    fn at<I: MyIndex>(&self, idx: I) -> (x: i64)
        requires
            self.list_view().len() > 0,
            self.list_view().len() <= i64::MAX,
        ensures
            x == self.list_view()[idx.index_value() % (self.list_view().len() as int)],
    {
        idx.of_slice(self.to_slice())
    }
}

impl MyList for Vec<i64> {
    open spec fn list_view(&self) -> Seq<i64> {
        self@
    }

    fn to_slice(&self) -> (s: &[i64]) {
        self.as_slice()
    }
}

/// An index into a list, counted cyclically: `-1` is the last element.
pub trait MyIndex: Copy {
    /// The index as an integer.
    spec fn index_value(&self) -> int;

    /// The element of `xs` at this index modulo the length.
    fn of_slice(self, xs: &[i64]) -> (x: i64)
        requires
            xs@.len() > 0,
            xs@.len() <= i64::MAX,
        ensures
            x == xs@[self.index_value() % (xs@.len() as int)],
    ;

    /// The index as a `usize`, wrapping as `as` does.
    fn as_usize(self) -> (u: usize)
        ensures
            u == self.index_value() as usize,
    ;
}

impl MyIndex for i64 {
    open spec fn index_value(&self) -> int {
        *self as int
    }

    fn of_slice(self, xs: &[i64]) -> (x: i64) {
        at(xs, self)
    }

    fn as_usize(self) -> (u: usize) {
        self as usize
    }
}

impl MyIndex for i32 {
    open spec fn index_value(&self) -> int {
        *self as int
    }

    fn of_slice(self, xs: &[i64]) -> (x: i64) {
        at(xs, self as i64)
    }

    fn as_usize(self) -> (u: usize) {
        self as usize
    }
}

} // verus!
