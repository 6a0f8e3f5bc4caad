//! Coordinate compression: a set of `i64` coordinates answering the index
//! of a value among them.
use vstd::prelude::*;
use crate::value_compression::ValueCompression;
use crate::sorted_seq::strictly_sorted;

verus! {

pub struct CompressCoords(ValueCompression);

impl View for CompressCoords {
    type V = Seq<i64>;

    /// The coordinates in increasing order.
    closed spec fn view(&self) -> Seq<i64> {
        self.0@
    }
}

impl CompressCoords {
    pub closed spec fn wf(&self) -> bool {
        self.0.wf()
    }

    pub fn new() -> (c: Self)
        ensures
            c.wf(),
            c@ == Seq::<i64>::empty(),
    {
        CompressCoords(ValueCompression::new())
    }

    /// Adds the coordinate `x`.
    pub fn add(&mut self, x: i64)
        requires
            old(self).wf(),
        ensures
            final(self).wf(),
            strictly_sorted(final(self)@),
            forall|y: i64| final(self)@.contains(y) <==> (old(self)@.contains(y) || y == x),
    {
        self.0.add(x)
    }

    /// `Ok(i)` when `x` is the `i`-th coordinate, else `Err(i)` with `i`
    /// the number of coordinates below `x`.
    pub fn index_of(&self, x: &i64) -> (r: Result<usize, usize>)
        requires
            self.wf(),
        ensures
            match r {
                Ok(i) => i < self@.len() && self@[i as int] == *x,
                Err(i) => i <= self@.len() && !self@.contains(*x)
                    && (forall|k: int| 0 <= k < i ==> self@[k] < *x)
                    && (forall|k: int| i <= k < self@.len() ==> self@[k] > *x),
            },
    {
        self.0.search(x)
    }

    /// The number of coordinates below `x`.
    pub fn get(&self, x: &i64) -> (i: usize)
        requires
            self.wf(),
        ensures
            i <= self@.len(),
            forall|k: int| 0 <= k < i ==> self@[k] < *x,
            forall|k: int| i <= k < self@.len() ==> self@[k] >= *x,
    {
        match self.index_of(x) {
            Ok(i) => {
                proof {
                    self.0.lemma_wf();
                }
                i
            },
            Err(i) => i,
        }
    }
}

} // verus!
