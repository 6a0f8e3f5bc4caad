//! Prefix folds of a list under an operation with an inverse, answering
//! range folds with one operation each.
use vstd::prelude::*;
use crate::ranges::{Bound, Ranges};

verus! {

pub struct Cumulated<T, Op, Inv> {
    cumulated: Vec<T>,
    op: Op,
    inv: Inv,
}

impl<T: Copy, Op: Fn(T, T) -> T, Inv: Fn(T) -> T> View for Cumulated<T, Op, Inv> {
    type V = Seq<T>;

    /// The prefix folds: `init`, then each one the previous combined with
    /// the next element of the list.
    closed spec fn view(&self) -> Seq<T> {
        self.cumulated@
    }
}

impl<T: Copy, Op: Fn(T, T) -> T, Inv: Fn(T) -> T> Cumulated<T, Op, Inv> {
    pub closed spec fn op_spec(&self) -> Op {
        self.op
    }

    pub closed spec fn inv_spec(&self) -> Inv {
        self.inv
    }

    pub closed spec fn wf(&self) -> bool {
        &&& self.cumulated@.len() >= 1
        &&& forall|a: T, b: T| #[trigger] call_requires(self.op, (a, b))
        &&& forall|a: T| #[trigger] call_requires(self.inv, (a,))
    }

    /// The prefix folds of `list` starting from `init`.
    pub fn new(list: Vec<T>, init: T, op: Op, inv: Inv) -> (c: Self)
        requires
            forall|a: T, b: T| #[trigger] call_requires(op, (a, b)),
            forall|a: T| #[trigger] call_requires(inv, (a,)),
        ensures
            c.wf(),
            c.op_spec() == op,
            c.inv_spec() == inv,
            c@.len() == list@.len() + 1,
            c@[0] == init,
            forall|i: int| 0 <= i < list@.len() ==> call_ensures(op, (c@[i], list@[i]), #[trigger] c@[i + 1]),
    {
        let mut cumulated: Vec<T> = Vec::new();
        cumulated.push(init);
        let mut last = init;
        let mut i: usize = 0;
        while i < list.len()
            invariant
                i <= list@.len(),
                forall|a: T, b: T| #[trigger] call_requires(op, (a, b)),
                cumulated@.len() == i + 1,
                cumulated@[0] == init,
                last == cumulated@[i as int],
                forall|k: int| 0 <= k < i ==> call_ensures(op, (cumulated@[k], list@[k]), #[trigger] cumulated@[k + 1]),
            decreases list@.len() - i,
        {
            last = (op)(last, list[i]);
            cumulated.push(last);
            i += 1;
        }
        Cumulated { cumulated, op, inv }
    }

    /// `op(c[e], inv(c[s]))` with `e` the end of `range` as an exclusive
    /// index (default the last prefix) and `s` the start of `range` as an
    /// exclusive index (default `0`), `c` the prefix folds.
    pub fn fold(&self, range: Ranges) -> (r: T)
        requires
            self.wf(),
            self@.len() <= i64::MAX,
            match range.start {
                Bound::Included(x) => 1 <= x <= self@.len(),
                Bound::Excluded(x) => 0 <= x < self@.len(),
                Bound::Unbounded => true,
            },
            match range.end {
                Bound::Included(x) => 0 <= x < self@.len() - 1,
                Bound::Excluded(x) => 0 <= x < self@.len(),
                Bound::Unbounded => true,
            },
        ensures
            exists|v: T| call_ensures(self.inv_spec(), (self@[range.start_open_spec(0)],), v)
                && call_ensures(self.op_spec(), (self@[range.end_open_spec(self@.len() - 1)], v), r),
    {
        let n = self.cumulated.len();
        let e = range.end_open_or((n - 1) as i64) as usize;
        let s = range.start_open_or(0) as usize;
        proof {
            assert(e as int == range.end_open_spec(self@.len() - 1));
            assert(s as int == range.start_open_spec(0));
        }
        let v = (self.inv)(self.cumulated[s]);
        let r = (self.op)(self.cumulated[e], v);
        proof {
            assert(call_ensures(self.inv_spec(), (self@[range.start_open_spec(0)],), v)
                && call_ensures(self.op_spec(), (self@[range.end_open_spec(self@.len() - 1)], v), r));
        }
        r
    }
}

} // verus!
