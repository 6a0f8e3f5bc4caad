//! Ordered multisets of integers.
//!
//! A `BTreeMultiset` is viewed as the non-decreasing sequence of all of its
//! elements, repetitions included; that sequence is unique for a given
//! multiset, so a contract of the form "sorted, with this multiset of
//! elements" fixes the new contents exactly.
use vstd::prelude::*;
use vstd::seq_lib::{to_multiset_insert, to_multiset_remove};
use vstd::multiset::Multiset;
use crate::sorted_seq::{
    sorted, lower_index, upper_index, lemma_count_interval, lemma_contains_at_lower,
    lemma_insert_sorted, lemma_remove_sorted, lemma_contains_count,
};

verus! {

/// A multiset of `i64`, kept as a sorted vector of all occurrences.
pub struct BTreeMultiset {
    items: Vec<i64>,
}

impl View for BTreeMultiset {
    type V = Seq<i64>;

    /// All elements in non-decreasing order.
    closed spec fn view(&self) -> Seq<i64> {
        self.items@
    }
}

/// The elements of the sequence as a multiset.
pub open spec fn elements(s: Seq<i64>) -> Multiset<i64> {
    s.to_multiset()
}

impl BTreeMultiset {
    /// The elements are kept in non-decreasing order.
    pub closed spec fn wf(&self) -> bool {
        sorted(self.items@)
    }

    pub proof fn lemma_wf_sorted(&self)
        requires
            self.wf(),
        ensures
            sorted(self@),
    {
    }

    /// The empty multiset.
    pub fn new() -> (m: Self)
        ensures
            m.wf(),
            m@ == Seq::<i64>::empty(),
    {
        BTreeMultiset { items: Vec::new() }
    }

    /// The number of elements, repetitions included.
    pub fn len(&self) -> (n: usize)
        ensures
            n == self@.len(),
    {
        self.items.len()
    }

    /// Whether `item` occurs.
    pub fn contains(&self, item: &i64) -> (b: bool)
        requires
            self.wf(),
        ensures
            b == self@.contains(*item),
    {
        let i = lower_index(&self.items, *item);
        proof {
            lemma_contains_at_lower(self.items@, *item, i as int);
        }
        i < self.items.len() && self.items[i] == *item
    }

    /// The number of occurrences of `item`.
    pub fn count(&self, item: &i64) -> (c: usize)
        requires
            self.wf(),
        ensures
            c == elements(self@).count(*item),
    {
        let lo = lower_index(&self.items, *item);
        let hi = upper_index(&self.items, *item);
        proof {
            if lo > hi {
                assert(self.items@[hi as int] > *item);
                assert(self.items@[hi as int] < *item);
            }
            assert forall|k: int| 0 <= k < self.items@.len() implies (self.items@[k] == *item
                <==> lo <= k < hi) by {}
            lemma_count_interval(self.items@, *item, lo as int, hi as int);
        }
        hi - lo
    }

    /// Adds one occurrence of `item`.
    pub fn insert(&mut self, item: i64)
        requires
            old(self).wf(),
        ensures
            final(self).wf(),
            sorted(final(self)@),
            elements(final(self)@) == elements(old(self)@).insert(item),
            final(self)@.len() == old(self)@.len() + 1,
    {
        let i = lower_index(&self.items, item);
        proof {
            lemma_insert_sorted(self.items@, item, i as int);
            to_multiset_insert(self.items@, i as int, item);
        }
        self.items.insert(i, item);
    }

    /// Removes one occurrence of `item`; returns whether there was one.
    pub fn remove(&mut self, item: &i64) -> (found: bool)
        requires
            old(self).wf(),
        ensures
            final(self).wf(),
            sorted(final(self)@),
            found == old(self)@.contains(*item),
            !found ==> final(self)@ == old(self)@,
            elements(final(self)@) == elements(old(self)@).remove(*item),
            final(self)@.len() == old(self)@.len() - if found { 1int } else { 0int },
    {
        let i = lower_index(&self.items, *item);
        proof {
            lemma_contains_at_lower(self.items@, *item, i as int);
            lemma_contains_count(self.items@, *item);
        }
        if i < self.items.len() && self.items[i] == *item {
            proof {
                lemma_remove_sorted(self.items@, i as int);
                to_multiset_remove(self.items@, i as int);
            }
            self.items.remove(i);
            true
        } else {
            proof {
                broadcast use vstd::multiset::group_multiset_axioms;
                assert(elements(self.items@).remove(*item) =~= elements(self.items@));
            }
            false
        }
    }

    /// The smallest element.
    pub fn min(&self) -> (r: Option<i64>)
        requires
            self.wf(),
        ensures
            r == (if self@.len() == 0 { None } else { Some(self@[0]) }),
            r matches Some(m) ==> forall|k: int| 0 <= k < self@.len() ==> m <= self@[k],
    {
        if self.items.len() == 0 {
            None
        } else {
            Some(self.items[0])
        }
    }

    /// The largest element.
    pub fn max(&self) -> (r: Option<i64>)
        requires
            self.wf(),
        ensures
            r == (if self@.len() == 0 { None } else { Some(self@.last()) }),
            r matches Some(m) ==> forall|k: int| 0 <= k < self@.len() ==> self@[k] <= m,
    {
        if self.items.len() == 0 {
            None
        } else {
            Some(self.items[self.items.len() - 1])
        }
    }

    /// The smallest element `>= min`.
    pub fn lower_bound(&self, min: &i64) -> (r: Option<i64>)
        requires
            self.wf(),
        ensures
            match r {
                Some(v) => self@.contains(v) && v >= *min && forall|k: int|
                    0 <= k < self@.len() && self@[k] >= *min ==> v <= self@[k],
                None => forall|k: int| 0 <= k < self@.len() ==> self@[k] < *min,
            },
    {
        let i = lower_index(&self.items, *min);
        if i < self.items.len() {
            Some(self.items[i])
        } else {
            None
        }
    }

    /// The smallest element `> min`.
    pub fn upper_bound(&self, min: &i64) -> (r: Option<i64>)
        requires
            self.wf(),
        ensures
            match r {
                Some(v) => self@.contains(v) && v > *min && forall|k: int|
                    0 <= k < self@.len() && self@[k] > *min ==> v <= self@[k],
                None => forall|k: int| 0 <= k < self@.len() ==> self@[k] <= *min,
            },
    {
        let i = upper_index(&self.items, *min);
        if i < self.items.len() {
            Some(self.items[i])
        } else {
            None
        }
    }

    /// The smallest element `> low`.
    pub fn greater_min(&self, low: &i64) -> (r: Option<i64>)
        requires
            self.wf(),
        ensures
            match r {
                Some(v) => self@.contains(v) && v > *low && forall|k: int|
                    0 <= k < self@.len() && self@[k] > *low ==> v <= self@[k],
                None => forall|k: int| 0 <= k < self@.len() ==> self@[k] <= *low,
            },
    {
        self.upper_bound(low)
    }

    /// The largest element `< high`.
    pub fn less_max(&self, high: &i64) -> (r: Option<i64>)
        requires
            self.wf(),
        ensures
            match r {
                Some(v) => self@.contains(v) && v < *high && forall|k: int|
                    0 <= k < self@.len() && self@[k] < *high ==> self@[k] <= v,
                None => forall|k: int| 0 <= k < self@.len() ==> self@[k] >= *high,
            },
    {
        let i = lower_index(&self.items, *high);
        if i > 0 {
            let v = self.items[i - 1];
            proof {
                assert(self.items@[i - 1] == v);
            }
            Some(v)
        } else {
            None
        }
    }

    /// Removes and returns the smallest element.
    pub fn pop_min(&mut self) -> (r: Option<i64>)
        requires
            old(self).wf(),
        ensures
            final(self).wf(),
            r == (if old(self)@.len() == 0 { None } else { Some(old(self)@[0]) }),
            final(self)@ == (if old(self)@.len() == 0 { old(self)@ } else { old(self)@.drop_first() }),
    {
        if self.items.len() == 0 {
            None
        } else {
            proof {
                lemma_remove_sorted(self.items@, 0);
                assert(self.items@.remove(0) =~= self.items@.drop_first());
            }
            Some(self.items.remove(0))
        }
    }

    /// Removes and returns the largest element.
    pub fn pop_max(&mut self) -> (r: Option<i64>)
        requires
            old(self).wf(),
        ensures
            final(self).wf(),
            r == (if old(self)@.len() == 0 { None } else { Some(old(self)@.last()) }),
            final(self)@ == (if old(self)@.len() == 0 { old(self)@ } else { old(self)@.drop_last() }),
    {
        if self.items.len() == 0 {
            None
        } else {
            proof {
                assert(sorted(self.items@.drop_last()));
            }
            self.items.pop()
        }
    }

    /// The elements in non-decreasing order.
    pub fn iter(&self) -> (it: Iter)
        ensures
            it.wf(),
            it@ == self@,
    {
        Iter::new(self.items.as_slice())
    }
}

/// Walks a sequence of elements from front to back.
pub struct Iter {
    items: Vec<i64>,
    pos: usize,
}

impl View for Iter {
    type V = Seq<i64>;

    /// The elements not yet returned.
    closed spec fn view(&self) -> Seq<i64> {
        self.items@.subrange(self.pos as int, self.items@.len() as int)
    }
}

impl Iter {
    /// The position is within the elements.
    pub closed spec fn wf(&self) -> bool {
        self.pos <= self.items@.len()
    }

    /// An iterator over `items`.
    pub fn new(items: &[i64]) -> (it: Self)
        ensures
            it.wf(),
            it@ == items@,
    {
        let mut v: Vec<i64> = Vec::new();
        let mut k: usize = 0;
        while k < items.len()
            invariant
                k <= items@.len(),
                v@ == items@.subrange(0, k as int),
            decreases items@.len() - k,
        {
            v.push(items[k]);
            k += 1;
        }
        assert(v@ =~= items@);
        let it = Iter { items: v, pos: 0 };
        assert(it@ =~= items@);
        it
    }

    /// Returns the next element, if any.
    pub fn next(&mut self) -> (r: Option<i64>)
        requires
            old(self).wf(),
        ensures
            final(self).wf(),
            r == (if old(self)@.len() == 0 { None } else { Some(old(self)@[0]) }),
            final(self)@ == (if old(self)@.len() == 0 { old(self)@ } else { old(self)@.drop_first() }),
    {
        if self.pos < self.items.len() {
            let v = self.items[self.pos];
            self.pos = self.pos + 1;
            proof {
                assert(self@ =~= old(self)@.drop_first());
            }
            Some(v)
        } else {
            None
        }
    }

    /// All remaining elements.
    pub fn collect_rest(&mut self) -> (v: Vec<i64>)
        requires
            old(self).wf(),
        ensures
            v@ == old(self)@,
            final(self)@.len() == 0,
            final(self).wf(),
    {
        let mut out: Vec<i64> = Vec::new();
        let ghost start = self@;
        while self.pos < self.items.len()
            invariant
                self.pos <= self.items@.len(),
                out@ + self@ == start,
            decreases self.items@.len() - self.pos,
        {
            let v = self.items[self.pos];
            proof {
                assert(self@ =~= seq![v] + self.items@.subrange(self.pos + 1, self.items@.len() as int));
            }
            out.push(v);
            self.pos = self.pos + 1;
            proof {
                assert(out@ + self@ =~= start);
            }
        }
        assert(out@ =~= out@ + self@);
        out
    }
}

/// Law: removing a value just inserted restores the contents.
pub proof fn lemma_insert_then_remove(m: Multiset<i64>, x: i64)
    ensures
        m.insert(x).remove(x) == m,
{
    broadcast use vstd::multiset::group_multiset_axioms;
    assert(m.insert(x).remove(x) =~= m);
}

} // verus!
