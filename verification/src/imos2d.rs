//! Two-dimensional prefix folds answering rectangle queries with three
//! operations.
use vstd::prelude::*;
use crate::ranges::{Bound, Ranges};

verus! {

pub struct Imos2D<T, A, S> {
    n: usize,
    m: usize,
    imos: Vec<Vec<T>>,
    add: A,
    sub: S,
}

/// The rows as sequences.
pub open spec fn rows_of<T>(m: Seq<Vec<T>>) -> Seq<Seq<T>> {
    m.map_values(|r: Vec<T>| r@)
}

/// `out` is `sub(add(add(left, up), x), diag)`.
pub open spec fn step_ok<T, A: Fn(T, T) -> T, S: Fn(T, T) -> T>(add: A, sub: S, left: T, up: T, x: T, diag: T, out: T) -> bool {
    exists|p: T, q: T| #[trigger] call_ensures(add, (left, up), p)
        && #[trigger] call_ensures(add, (p, x), q)
        && call_ensures(sub, (q, diag), out)
}

/// `imos[i + 1][j + 1]` is `sub(add(add(imos[i + 1][j], imos[i][j + 1]), mat[i][j]), imos[i][j])`.
pub open spec fn cell_ok<T, A: Fn(T, T) -> T, S: Fn(T, T) -> T>(add: A, sub: S, imos: Seq<Seq<T>>, mat: Seq<Seq<T>>, i: int, j: int) -> bool {
    step_ok(add, sub, imos[i + 1][j], imos[i][j + 1], mat[i][j], imos[i][j], imos[i + 1][j + 1])
}

/// The sum of `r[j1 .. j2]`.
pub open spec fn row_sum(r: Seq<i64>, j1: int, j2: int) -> int
    decreases j2 - j1,
{
    if j2 <= j1 {
        0
    } else {
        row_sum(r, j1, j2 - 1) + r[j2 - 1]
    }
}

/// The sum of `mat[a][b]` over `i1 <= a < i2`, `j1 <= b < j2`.
pub open spec fn rect_sum(mat: Seq<Seq<i64>>, i1: int, i2: int, j1: int, j2: int) -> int
    decreases i2 - i1,
{
    if i2 <= i1 {
        0
    } else {
        rect_sum(mat, i1, i2 - 1, j1, j2) + row_sum(mat[i2 - 1], j1, j2)
    }
}

proof fn lemma_row_sum_split(r: Seq<i64>, j1: int, j2: int)
    requires
        0 <= j1 <= j2,
    ensures
        row_sum(r, 0, j2) == row_sum(r, 0, j1) + row_sum(r, j1, j2),
    decreases j2 - j1,
{
    if j2 > j1 {
        lemma_row_sum_split(r, j1, j2 - 1);
    }
}

proof fn lemma_rect_split(mat: Seq<Seq<i64>>, i1: int, i2: int, j1: int, j2: int)
    requires
        0 <= i1 <= i2,
        0 <= j1 <= j2,
    ensures
        rect_sum(mat, 0, i2, 0, j2) - rect_sum(mat, 0, i1, 0, j2) - rect_sum(mat, 0, i2, 0, j1)
            + rect_sum(mat, 0, i1, 0, j1) == rect_sum(mat, i1, i2, j1, j2),
    decreases i2 - i1,
{
    if i2 > i1 {
        lemma_rect_split(mat, i1, i2 - 1, j1, j2);
        lemma_row_sum_split(mat[i2 - 1], j1, j2);
    }
}

/// Law: when `plus` and `minus` compute exact sums and differences, a table
/// that meets the contract of `Imos2D::new` holds at `[i][j]` the sum of
/// the block `mat[0 .. i][0 .. j]`, so the combination that `rect` returns
/// is the sum of the rectangle `mat[i1 .. i2][j1 .. j2]`.
pub proof fn lemma_table_sums<A: Fn(i64, i64) -> i64, S: Fn(i64, i64) -> i64>(
    plus: A,
    minus: S,
    tab: Seq<Seq<i64>>,
    mat: Seq<Seq<i64>>,
    n: int,
    m: int,
)
    requires
        0 <= n,
        0 <= m,
        tab.len() == n + 1,
        mat.len() == n,
        forall|i: int| 0 <= i <= n ==> #[trigger] tab[i].len() == m + 1,
        forall|i: int| 0 <= i < n ==> #[trigger] mat[i].len() == m,
        forall|j: int| 0 <= j <= m ==> #[trigger] tab[0][j] == 0,
        forall|i: int| 0 <= i <= n ==> #[trigger] tab[i][0] == 0,
        forall|i: int, j: int| 0 <= i < n && 0 <= j < m ==> #[trigger] cell_ok(plus, minus, tab, mat, i, j),
        forall|a: i64, b: i64, v: i64| #[trigger] call_ensures(plus, (a, b), v) ==> v == a + b,
        forall|a: i64, b: i64, v: i64| #[trigger] call_ensures(minus, (a, b), v) ==> v == a - b,
    ensures
        forall|i: int, j: int| 0 <= i <= n && 0 <= j <= m ==> #[trigger] tab[i][j] == rect_sum(mat, 0, i, 0, j),
        forall|i1: int, i2: int, j1: int, j2: int| 0 <= i1 <= i2 <= n && 0 <= j1 <= j2 <= m ==>
            (tab[i2][j2] + tab[i1][j1]) - (tab[i1][j2] + tab[i2][j1]) == #[trigger] rect_sum(mat, i1, i2, j1, j2),
{
    assert forall|i: int, j: int| 0 <= i <= n && 0 <= j <= m implies #[trigger] tab[i][j] == rect_sum(mat, 0, i, 0, j) by {
        lemma_table_cell(plus, minus, tab, mat, n, m, i, j);
    }
    assert forall|i1: int, i2: int, j1: int, j2: int| 0 <= i1 <= i2 <= n && 0 <= j1 <= j2 <= m implies
        (tab[i2][j2] + tab[i1][j1]) - (tab[i1][j2] + tab[i2][j1]) == #[trigger] rect_sum(mat, i1, i2, j1, j2) by {
        lemma_table_cell(plus, minus, tab, mat, n, m, i1, j1);
        lemma_table_cell(plus, minus, tab, mat, n, m, i1, j2);
        lemma_table_cell(plus, minus, tab, mat, n, m, i2, j1);
        lemma_table_cell(plus, minus, tab, mat, n, m, i2, j2);
        lemma_rect_split(mat, i1, i2, j1, j2);
    }
}

proof fn lemma_table_cell<A: Fn(i64, i64) -> i64, S: Fn(i64, i64) -> i64>(
    plus: A,
    minus: S,
    tab: Seq<Seq<i64>>,
    mat: Seq<Seq<i64>>,
    n: int,
    m: int,
    i: int,
    j: int,
)
    requires
        0 <= i <= n,
        0 <= j <= m,
        tab.len() == n + 1,
        mat.len() == n,
        forall|i: int| 0 <= i <= n ==> #[trigger] tab[i].len() == m + 1,
        forall|i: int| 0 <= i < n ==> #[trigger] mat[i].len() == m,
        forall|j: int| 0 <= j <= m ==> #[trigger] tab[0][j] == 0,
        forall|i: int| 0 <= i <= n ==> #[trigger] tab[i][0] == 0,
        forall|i: int, j: int| 0 <= i < n && 0 <= j < m ==> #[trigger] cell_ok(plus, minus, tab, mat, i, j),
        forall|a: i64, b: i64, v: i64| #[trigger] call_ensures(plus, (a, b), v) ==> v == a + b,
        forall|a: i64, b: i64, v: i64| #[trigger] call_ensures(minus, (a, b), v) ==> v == a - b,
    ensures
        tab[i][j] == rect_sum(mat, 0, i, 0, j),
    decreases i + j,
{
    if i == 0 {
        assert(tab[0][j] == 0);
    } else if j == 0 {
        assert(tab[i][0] == 0);
        lemma_rect_zero_width(mat, i);
    } else {
        lemma_table_cell(plus, minus, tab, mat, n, m, i - 1, j - 1);
        lemma_table_cell(plus, minus, tab, mat, n, m, i, j - 1);
        lemma_table_cell(plus, minus, tab, mat, n, m, i - 1, j);
        assert(cell_ok(plus, minus, tab, mat, i - 1, j - 1));
        let (p, q) = choose|p: i64, q: i64| #[trigger] call_ensures(plus, (tab[i][j - 1], tab[i - 1][j]), p)
            && #[trigger] call_ensures(plus, (p, mat[i - 1][j - 1]), q)
            && call_ensures(minus, (q, tab[i - 1][j - 1]), tab[i][j]);
        assert(tab[i][j] == tab[i][j - 1] + tab[i - 1][j] + mat[i - 1][j - 1] - tab[i - 1][j - 1]);
        assert(row_sum(mat[i - 1], 0, j) == row_sum(mat[i - 1], 0, j - 1) + mat[i - 1][j - 1]);
    }
}

proof fn lemma_rect_zero_width(mat: Seq<Seq<i64>>, i: int)
    ensures
        rect_sum(mat, 0, i, 0, 0) == 0,
    decreases i,
{
    if i > 0 {
        lemma_rect_zero_width(mat, i - 1);
    }
}

impl<T: Copy, A: Fn(T, T) -> T, S: Fn(T, T) -> T> Imos2D<T, A, S> {
    /// The table of prefix folds, `(n + 1) x (m + 1)`.
    pub closed spec fn table(&self) -> Seq<Seq<T>> {
        rows_of(self.imos@)
    }

    pub closed spec fn n_spec(&self) -> nat {
        self.n as nat
    }

    pub closed spec fn m_spec(&self) -> nat {
        self.m as nat
    }

    pub closed spec fn add_spec(&self) -> A {
        self.add
    }

    pub closed spec fn sub_spec(&self) -> S {
        self.sub
    }

    pub closed spec fn wf(&self) -> bool {
        &&& self.imos@.len() == self.n + 1
        &&& forall|i: int| 0 <= i <= self.n ==> #[trigger] self.imos@[i]@.len() == self.m + 1
        &&& forall|a: T, b: T| #[trigger] call_requires(self.add, (a, b))
        &&& forall|a: T, b: T| #[trigger] call_requires(self.sub, (a, b))
    }

    /// The prefix folds of `mat`, `id` on the first row and column; `mat`
    /// must have a row and rows of one length.
    pub fn new(mat: &Vec<Vec<T>>, id: T, plus: A, minus: S) -> (t: Self)
        requires
            mat@.len() >= 1,
            forall|i: int| 0 <= i < mat@.len() ==> #[trigger] mat@[i]@.len() == mat@[0]@.len(),
            mat@[0]@.len() < usize::MAX,
            forall|a: T, b: T| #[trigger] call_requires(plus, (a, b)),
            forall|a: T, b: T| #[trigger] call_requires(minus, (a, b)),
        ensures
            t.wf(),
            t.n_spec() == mat@.len(),
            t.m_spec() == mat@[0]@.len(),
            t.add_spec() == plus,
            t.sub_spec() == minus,
            forall|j: int| 0 <= j <= t.m_spec() ==> #[trigger] t.table()[0][j] == id,
            forall|i: int| 0 <= i <= t.n_spec() ==> #[trigger] t.table()[i][0] == id,
            forall|i: int, j: int| 0 <= i < t.n_spec() && 0 <= j < t.m_spec() ==>
                #[trigger] cell_ok(plus, minus, t.table(), rows_of(mat@), i, j),
    {
        let n = mat.len();
        let m = mat[0].len();
        let mut imos: Vec<Vec<T>> = Vec::new();
        let mut first: Vec<T> = Vec::new();
        let mut j: usize = 0;
        while j <= m
            invariant
                j <= m + 1,
                m < usize::MAX,
                first@.len() == j,
                forall|b: int| 0 <= b < j ==> #[trigger] first@[b] == id,
            decreases m + 1 - j,
        {
            first.push(id);
            j += 1;
        }
        imos.push(first);
        let ghost mats = rows_of(mat@);
        let mut i: usize = 0;
        while i < n
            invariant
                n == mat@.len(),
                m == mat@[0]@.len(),
                m < usize::MAX,
                forall|a: int| 0 <= a < mat@.len() ==> #[trigger] mat@[a]@.len() == m,
                mats == rows_of(mat@),
                forall|a: T, b: T| #[trigger] call_requires(plus, (a, b)),
                forall|a: T, b: T| #[trigger] call_requires(minus, (a, b)),
                i <= n,
                imos@.len() == i + 1,
                forall|a: int| 0 <= a <= i ==> #[trigger] imos@[a]@.len() == m + 1,
                forall|b: int| 0 <= b <= m ==> #[trigger] imos@[0]@[b] == id,
                forall|a: int| 0 <= a <= i ==> #[trigger] imos@[a]@[0] == id,
                forall|a: int, b: int| 0 <= a < i && 0 <= b < m ==>
                    #[trigger] cell_ok(plus, minus, rows_of(imos@), mats, a, b),
            decreases n - i,
        {
            let mut row: Vec<T> = Vec::new();
            row.push(id);
            let mut j: usize = 0;
            while j < m
                invariant
                    n == mat@.len(),
                    m == mat@[0]@.len(),
                    i < n,
                    forall|a: int| 0 <= a < mat@.len() ==> #[trigger] mat@[a]@.len() == m,
                    forall|a: T, b: T| #[trigger] call_requires(plus, (a, b)),
                    forall|a: T, b: T| #[trigger] call_requires(minus, (a, b)),
                    imos@.len() == i + 1,
                    forall|a: int| 0 <= a <= i ==> #[trigger] imos@[a]@.len() == m + 1,
                    j <= m,
                    row@.len() == j + 1,
                    row@[0] == id,
                    forall|b: int| #![trigger row@[b]] 0 <= b < j ==> step_ok(plus, minus, row@[b], imos@[i as int]@[b + 1], mat@[i as int]@[b], imos@[i as int]@[b], row@[b + 1]),
                decreases m - j,
            {
                let p = (plus)(row[j], imos[i][j + 1]);
                let q = (plus)(p, mat[i][j]);
                let v = (minus)(q, imos[i][j]);
                let ghost old_row = row@;
                row.push(v);
                proof {
                    assert forall|b: int| #![trigger row@[b]] 0 <= b < j + 1 implies step_ok(plus, minus, row@[b], imos@[i as int]@[b + 1], mat@[i as int]@[b], imos@[i as int]@[b], row@[b + 1]) by {
                        if b < j {
                            assert(row@[b] == old_row[b] && row@[b + 1] == old_row[b + 1]);
                        } else {
                            assert(call_ensures(plus, (row@[b], imos@[i as int]@[b + 1]), p) && call_ensures(plus, (p, mat@[i as int]@[b]), q));
                        }
                    }
                }
                j += 1;
            }
            let ghost old_imos = imos@;
            imos.push(row);
            proof {
                let tab = rows_of(imos@);
                let old_tab = rows_of(old_imos);
                assert forall|a: int, b: int| 0 <= a < i + 1 && 0 <= b < m implies #[trigger] cell_ok(plus, minus, tab, mats, a, b) by {
                    if a < i {
                        assert(cell_ok(plus, minus, old_tab, mats, a, b));
                        assert(tab[a] == old_tab[a] && tab[a + 1] == old_tab[a + 1]);
                    } else {
                        assert(tab[a + 1] == row@ && tab[a] == imos@[a]@);
                        assert(mats[a] == mat@[a]@);
                    }
                }
            }
            i += 1;
        }
        Imos2D { n, m, imos, add: plus, sub: minus }
    }

    /// `sub(add(t[i2][j2], t[i1][j1]), add(t[i1][j2], t[i2][j1]))` with
    /// `i1`, `j1` the first indices of the ranges (default `0`) and `i2`,
    /// `j2` the indices after them (default `n`, `m`), `t` the table.
    pub fn rect(&self, i: Ranges, j: Ranges) -> (r: T)
        requires
            self.wf(),
            self.n_spec() <= i64::MAX,
            self.m_spec() <= i64::MAX,
            0 <= i.low_close_or(0) <= self.n_spec(),
            0 <= i.high_open_or(self.n_spec() as int) <= self.n_spec(),
            0 <= j.low_close_or(0) <= self.m_spec(),
            0 <= j.high_open_or(self.m_spec() as int) <= self.m_spec(),
        ensures
            ({
                let t = self.table();
                let i1 = i.low_close_or(0);
                let i2 = i.high_open_or(self.n_spec() as int);
                let j1 = j.low_close_or(0);
                let j2 = j.high_open_or(self.m_spec() as int);
                exists|x: T, y: T| #[trigger] call_ensures(self.add_spec(), (t[i2][j2], t[i1][j1]), x)
                    && #[trigger] call_ensures(self.add_spec(), (t[i1][j2], t[i2][j1]), y)
                    && call_ensures(self.sub_spec(), (x, y), r)
            }),
    {
        let i1 = i.start_close_or(0) as usize;
        let i2 = i.end_open_or(self.n as i64) as usize;
        let j1 = j.start_close_or(0) as usize;
        let j2 = j.end_open_or(self.m as i64) as usize;
        let x = (self.add)(self.imos[i2][j2], self.imos[i1][j1]);
        let y = (self.add)(self.imos[i1][j2], self.imos[i2][j1]);
        let r = (self.sub)(x, y);
        proof {
            let t = self.table();
            assert(t[i2 as int][j2 as int] == self.imos@[i2 as int]@[j2 as int]);
            assert(call_ensures(self.add_spec(), (t[i2 as int][j2 as int], t[i1 as int][j1 as int]), x)
                && call_ensures(self.add_spec(), (t[i1 as int][j2 as int], t[i2 as int][j1 as int]), y)
                && call_ensures(self.sub_spec(), (x, y), r));
        }
        r
    }

    /// The rectangle of the single cell `(i, j)`.
    pub fn at(&self, i: usize, j: usize) -> (r: T)
        requires
            self.wf(),
            i < self.n_spec(),
            j < self.m_spec(),
            self.n_spec() <= i64::MAX,
            self.m_spec() <= i64::MAX,
        ensures
            ({
                let t = self.table();
                exists|x: T, y: T| #[trigger] call_ensures(self.add_spec(), (t[i + 1][j + 1], t[i as int][j as int]), x)
                    && #[trigger] call_ensures(self.add_spec(), (t[i as int][j + 1], t[i + 1][j as int]), y)
                    && call_ensures(self.sub_spec(), (x, y), r)
            }),
    {
        let ii = Ranges { start: Bound::Included(i as i64), end: Bound::Included(i as i64) };
        let jj = Ranges { start: Bound::Included(j as i64), end: Bound::Included(j as i64) };
        self.rect(ii, jj)
    }
}

} // verus!
