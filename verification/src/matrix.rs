//! Rectangular matrices with entrywise maps.
use vstd::prelude::*;

verus! {

/// The rows of `mat` all have `cols` entries.
pub open spec fn rectangular<T>(mat: Seq<Vec<T>>, cols: nat) -> bool {
    forall|i: int| 0 <= i < mat.len() ==> #[trigger] mat[i]@.len() == cols
}

#[derive(Debug, Clone)]
pub struct Matrix<T> {
    rows: usize,
    cols: usize,
    mat: Vec<Vec<T>>,
}

impl<T: Copy> Matrix<T> {
    pub closed spec fn rows_spec(&self) -> nat {
        self.rows as nat
    }

    pub closed spec fn cols_spec(&self) -> nat {
        self.cols as nat
    }

    /// The entry in row `i`, column `j`.
    pub closed spec fn entry(&self, i: int, j: int) -> T {
        self.mat@[i]@[j]
    }

    /// At least one row and one column, every row of the same length.
    pub closed spec fn wf(&self) -> bool {
        &&& self.rows >= 1
        &&& self.cols >= 1
        &&& self.mat@.len() == self.rows
        &&& rectangular(self.mat@, self.cols as nat)
    }

    /// The matrix with rows `mat`; it must have a row, a column, and rows
    /// of one length.
    pub fn new(mat: Vec<Vec<T>>) -> (m: Self)
        requires
            mat@.len() >= 1,
            mat@[0]@.len() >= 1,
            rectangular(mat@, mat@[0]@.len()),
        ensures
            m.wf(),
            m.rows_spec() == mat@.len(),
            m.cols_spec() == mat@[0]@.len(),
            forall|i: int, j: int| 0 <= i < mat@.len() && 0 <= j < mat@[0]@.len() ==> #[trigger] m.entry(i, j) == mat@[i]@[j],
    {
        let rows = mat.len();
        let cols = mat[0].len();
        Matrix { rows, cols, mat }
    }

    pub fn at(&self, i: usize, j: usize) -> (x: T)
        requires
            self.wf(),
            i < self.rows_spec(),
            j < self.cols_spec(),
        ensures
            x == self.entry(i as int, j as int),
    {
        self.mat[i][j]
    }

    /// The matrix of `f` applied to every entry.
    pub fn map<R: Copy, F: Fn(T) -> R>(self, f: F) -> (m: Matrix<R>)
        requires
            self.wf(),
            forall|x: T| #[trigger] call_requires(f, (x,)),
        ensures
            m.wf(),
            m.rows_spec() == self.rows_spec(),
            m.cols_spec() == self.cols_spec(),
            forall|i: int, j: int| 0 <= i < self.rows_spec() && 0 <= j < self.cols_spec() ==> call_ensures(f, (self.entry(i, j),), #[trigger] m.entry(i, j)),
    {
        let mut out: Vec<Vec<R>> = Vec::new();
        let mut i: usize = 0;
        while i < self.rows
            invariant
                self.wf(),
                forall|x: T| #[trigger] call_requires(f, (x,)),
                i <= self.rows,
                out@.len() == i,
                rectangular(out@, self.cols as nat),
                forall|a: int, b: int| 0 <= a < i && 0 <= b < self.cols ==> call_ensures(f, (self.mat@[a]@[b],), #[trigger] out@[a]@[b]),
            decreases self.rows - i,
        {
            let mut row: Vec<R> = Vec::new();
            let mut j: usize = 0;
            assert(self.mat@[i as int]@.len() == self.cols);
            while j < self.cols
                invariant
                    self.wf(),
                    forall|x: T| #[trigger] call_requires(f, (x,)),
                    i < self.rows,
                    j <= self.cols,
                    row@.len() == j,
                    forall|b: int| 0 <= b < j ==> call_ensures(f, (self.mat@[i as int]@[b],), #[trigger] row@[b]),
                decreases self.cols - j,
            {
                assert(self.mat@[i as int]@.len() == self.cols);
                row.push(f(self.mat[i][j]));
                j += 1;
            }
            out.push(row);
            i += 1;
        }
        Matrix { rows: self.rows, cols: self.cols, mat: out }
    }

    /// Replaces every entry `x` by `f(x)`.
    pub fn tap<F: Fn(T) -> T>(&mut self, f: F)
        requires
            old(self).wf(),
            forall|x: T| #[trigger] call_requires(f, (x,)),
        ensures
            final(self).wf(),
            final(self).rows_spec() == old(self).rows_spec(),
            final(self).cols_spec() == old(self).cols_spec(),
            forall|i: int, j: int| 0 <= i < old(self).rows_spec() && 0 <= j < old(self).cols_spec() ==> call_ensures(f, (old(self).entry(i, j),), #[trigger] final(self).entry(i, j)),
    {
        let m = self.clone_entries();
        *self = m.map(f);
    }

    /// A matrix with the same entries.
    fn clone_entries(&self) -> (m: Self)
        requires
            self.wf(),
        ensures
            m.wf(),
            m.rows_spec() == self.rows_spec(),
            m.cols_spec() == self.cols_spec(),
            forall|i: int, j: int| 0 <= i < self.rows_spec() && 0 <= j < self.cols_spec() ==> #[trigger] m.entry(i, j) == self.entry(i, j),
    {
        let mut out: Vec<Vec<T>> = Vec::new();
        let mut i: usize = 0;
        while i < self.rows
            invariant
                self.wf(),
                i <= self.rows,
                out@.len() == i,
                rectangular(out@, self.cols as nat),
                forall|a: int, b: int| 0 <= a < i && 0 <= b < self.cols ==> #[trigger] out@[a]@[b] == self.mat@[a]@[b],
            decreases self.rows - i,
        {
            let mut row: Vec<T> = Vec::new();
            let mut j: usize = 0;
            assert(self.mat@[i as int]@.len() == self.cols);
            while j < self.cols
                invariant
                    self.wf(),
                    i < self.rows,
                    j <= self.cols,
                    row@.len() == j,
                    forall|b: int| 0 <= b < j ==> #[trigger] row@[b] == self.mat@[i as int]@[b],
                decreases self.cols - j,
            {
                assert(self.mat@[i as int]@.len() == self.cols);
                row.push(self.mat[i][j]);
                j += 1;
            }
            out.push(row);
            i += 1;
        }
        Matrix { rows: self.rows, cols: self.cols, mat: out }
    }

    /// The matrix of `f` applied to the entries of `self` and `other` at
    /// each position; the two must have the same shape.
    pub fn map2<U: Copy, R: Copy, F: Fn(T, U) -> R>(self, other: Matrix<U>, f: F) -> (m: Matrix<R>)
        requires
            self.wf(),
            other.wf(),
            self.rows_spec() == other.rows_spec(),
            self.cols_spec() == other.cols_spec(),
            forall|x: T, y: U| #[trigger] call_requires(f, (x, y)),
        ensures
            m.wf(),
            m.rows_spec() == self.rows_spec(),
            m.cols_spec() == self.cols_spec(),
            forall|i: int, j: int| 0 <= i < self.rows_spec() && 0 <= j < self.cols_spec() ==> call_ensures(f, (self.entry(i, j), other.entry(i, j)), #[trigger] m.entry(i, j)),
    {
        let mut out: Vec<Vec<R>> = Vec::new();
        let mut i: usize = 0;
        while i < self.rows
            invariant
                self.wf(),
                other.wf(),
                self.rows == other.rows,
                self.cols == other.cols,
                forall|x: T, y: U| #[trigger] call_requires(f, (x, y)),
                i <= self.rows,
                out@.len() == i,
                rectangular(out@, self.cols as nat),
                forall|a: int, b: int| 0 <= a < i && 0 <= b < self.cols ==> call_ensures(f, (self.mat@[a]@[b], other.mat@[a]@[b]), #[trigger] out@[a]@[b]),
            decreases self.rows - i,
        {
            let mut row: Vec<R> = Vec::new();
            let mut j: usize = 0;
            while j < self.cols
                invariant
                    self.wf(),
                    other.wf(),
                    self.rows == other.rows,
                    self.cols == other.cols,
                    forall|x: T, y: U| #[trigger] call_requires(f, (x, y)),
                    i < self.rows,
                    j <= self.cols,
                    row@.len() == j,
                    forall|b: int| 0 <= b < j ==> call_ensures(f, (self.mat@[i as int]@[b], other.mat@[i as int]@[b]), #[trigger] row@[b]),
                decreases self.cols - j,
            {
                assert(self.mat@[i as int]@.len() == self.cols);
                assert(other.mat@[i as int]@.len() == other.cols);
                row.push(f(self.mat[i][j], other.mat[i][j]));
                j += 1;
            }
            out.push(row);
            i += 1;
        }
        Matrix { rows: self.rows, cols: self.cols, mat: out }
    }

    /// Replaces every entry `x` by `f(x, y)`, `y` the entry of `other` at
    /// the same position; the two must have the same shape.
    pub fn tap2<U: Copy, F: Fn(T, U) -> T>(&mut self, other: Matrix<U>, f: F)
        requires
            old(self).wf(),
            other.wf(),
            old(self).rows_spec() == other.rows_spec(),
            old(self).cols_spec() == other.cols_spec(),
            forall|x: T, y: U| #[trigger] call_requires(f, (x, y)),
        ensures
            final(self).wf(),
            final(self).rows_spec() == old(self).rows_spec(),
            final(self).cols_spec() == old(self).cols_spec(),
            forall|i: int, j: int| 0 <= i < old(self).rows_spec() && 0 <= j < old(self).cols_spec() ==> call_ensures(f, (old(self).entry(i, j), other.entry(i, j)), #[trigger] final(self).entry(i, j)),
    {
        let m = self.clone_entries();
        *self = m.map2(other, f);
    }
}

/// `sum over t < k of m[i][t] * m[t][j]`.
pub open spec fn self_dot(m: Matrix<i64>, i: int, j: int, k: nat) -> int
    decreases k,
{
    if k == 0 {
        0
    } else {
        self_dot(m, i, j, (k - 1) as nat) + m.entry(i, k - 1) * m.entry(k - 1, j)
    }
}

impl Matrix<i64> {
    /// Every product and every partial sum of `mul`'s entries below column
    /// `cols` fits in `i64`.
    pub open spec fn product_fits(self, cols: nat) -> bool {
        &&& forall|i: int, j: int, k: int| 0 <= i < self.rows_spec() && 0 <= j < cols && 0 <= k < self.cols_spec() ==>
            i64::MIN <= #[trigger] (self.entry(i, k) * self.entry(k, j)) <= i64::MAX
        &&& forall|i: int, j: int, k: nat| 0 <= i < self.rows_spec() && 0 <= j < cols && 1 <= k <= self.cols_spec() ==>
            i64::MIN <= #[trigger] self_dot(self, i, j, k) <= i64::MAX
    }

    /// The product as the operator computes it: entry `(i, j)`, for `j`
    /// below `other`'s column count, is `sum over k of self[i][k] *
    /// self[k][j]` (both factors are read from `self`).
    pub fn mul(&self, other: &Matrix<i64>) -> (m: Matrix<i64>)
        requires
            self.wf(),
            other.wf(),
            self.cols_spec() <= self.rows_spec(),
            other.cols_spec() <= self.cols_spec(),
            self.product_fits(other.cols_spec()),
        ensures
            m.wf(),
            m.rows_spec() == self.rows_spec(),
            m.cols_spec() == other.cols_spec(),
            forall|i: int, j: int| 0 <= i < self.rows_spec() && 0 <= j < other.cols_spec() ==> #[trigger] m.entry(i, j) == self_dot(*self, i, j, self.cols_spec()),
    {
        let mut out: Vec<Vec<i64>> = Vec::new();
        let mut i: usize = 0;
        while i < self.rows
            invariant
                self.wf(),
                other.wf(),
                self.cols_spec() <= self.rows_spec(),
                other.cols_spec() <= self.cols_spec(),
                self.product_fits(other.cols_spec()),
                i <= self.rows,
                out@.len() == i,
                forall|a: int| 0 <= a < i ==> #[trigger] out@[a]@.len() == other.cols,
                forall|a: int, b: int| 0 <= a < i && 0 <= b < other.cols ==> #[trigger] out@[a]@[b] == self_dot(*self, a, b, self.cols_spec()),
            decreases self.rows - i,
        {
            let mut row: Vec<i64> = Vec::new();
            let mut j: usize = 0;
            while j < other.cols
                invariant
                    self.wf(),
                    other.wf(),
                    self.cols_spec() <= self.rows_spec(),
                    other.cols_spec() <= self.cols_spec(),
                    self.product_fits(other.cols_spec()),
                    i < self.rows,
                    j <= other.cols,
                    row@.len() == j,
                    forall|b: int| 0 <= b < j ==> #[trigger] row@[b] == self_dot(*self, i as int, b, self.cols_spec()),
                decreases other.cols - j,
            {
                proof {
                    assert(self_dot(*self, i as int, j as int, 0) == 0);
                    assert(self_dot(*self, i as int, j as int, 1) == self.entry(i as int, 0) * self.entry(0, j as int));
                    assert(i64::MIN <= self.entry(i as int, 0) * self.entry(0, j as int) <= i64::MAX);
                }
                let mut sum: i64 = self.at(i, 0) * self.at(0, j);
                let mut k: usize = 1;
                while k < self.cols
                    invariant
                        self.wf(),
                        other.wf(),
                        self.cols_spec() <= self.rows_spec(),
                        other.cols_spec() <= self.cols_spec(),
                        self.product_fits(other.cols_spec()),
                        i < self.rows,
                        j < other.cols,
                        1 <= k <= self.cols,
                        sum == self_dot(*self, i as int, j as int, k as nat),
                    decreases self.cols - k,
                {
                    proof {
                        assert(i64::MIN <= self.entry(i as int, k as int) * self.entry(k as int, j as int) <= i64::MAX);
                        assert(i64::MIN <= self_dot(*self, i as int, j as int, (k + 1) as nat) <= i64::MAX);
                    }
                    let p = self.at(i, k) * self.at(k, j);
                    sum = sum + p;
                    k += 1;
                }
                row.push(sum);
                j += 1;
            }
            out.push(row);
            i += 1;
        }
        Matrix { rows: self.rows, cols: other.cols, mat: out }
    }
}

} // verus!
