//! Priority queues: the `Heap` interface and a min-first heap of `i64`.
use vstd::prelude::*;
use vstd::multiset::Multiset;
use crate::multiset::{elements, BTreeMultiset};
use crate::sorted_seq::sorted;

verus! {

/// A priority queue.
pub trait Heap<T> {
    fn push(&mut self, item: T);

    fn pop(&mut self) -> Option<T>;

    fn is_empty(&self) -> bool;
}

/// A heap that hands out its least element first, held as an ordered
/// multiset.
pub struct BinaryHeapReversed(BTreeMultiset);

impl View for BinaryHeapReversed {
    type V = Multiset<i64>;

    /// The elements held.
    closed spec fn view(&self) -> Multiset<i64> {
        elements(self.0@)
    }
}

impl BinaryHeapReversed {
    #[verifier::type_invariant]
    closed spec fn wf(&self) -> bool {
        self.0.wf()
    }

    pub fn new() -> (h: Self)
        ensures
            h@ == Multiset::<i64>::empty(),
    {
        let h = BinaryHeapReversed(BTreeMultiset::new());
        proof {
            broadcast use vstd::seq_lib::group_to_multiset_ensures;
            broadcast use vstd::multiset::group_multiset_axioms;
            assert(h@ =~= Multiset::<i64>::empty());
        }
        h
    }

    /// Adds `item`.
    pub fn push_item(&mut self, item: i64)
        ensures
            final(self)@ == old(self)@.insert(item),
    {
        proof {
            use_type_invariant(&*self);
        }
        let mut inner = BTreeMultiset::new();
        std::mem::swap(&mut inner, &mut self.0);
        inner.insert(item);
        self.0 = inner;
    }

    /// Removes and returns a least element; `None` when empty.
    pub fn pop_least(&mut self) -> (r: Option<i64>)
        ensures
            old(self)@.len() == 0 ==> r is None && final(self)@ == old(self)@,
            old(self)@.len() > 0 ==> (r matches Some(m) && old(self)@.contains(m)
                && (forall|x: i64| #[trigger] old(self)@.contains(x) ==> m <= x)
                && final(self)@ == old(self)@.remove(m)),
    {
        proof {
            use_type_invariant(&*self);
        }
        let mut inner = BTreeMultiset::new();
        std::mem::swap(&mut inner, &mut self.0);
        let ghost s = inner@;
        proof {
            inner.lemma_wf_sorted();
        }
        let r = inner.pop_min();
        self.0 = inner;
        proof {
            vstd::seq_lib::to_multiset_len(s);
            if s.len() > 0 {
                let m = s[0];
                vstd::seq_lib::to_multiset_contains(s, m);
                assert(s.remove(0) =~= s.drop_first());
                vstd::seq_lib::to_multiset_remove(s, 0);
                assert(elements(s.drop_first()) =~= elements(s).remove(m));
                assert forall|x: i64| #[trigger] elements(s).contains(x) implies m <= x by {
                    s.to_multiset_ensures();
                    assert(s.contains(x));
                    let k = s.index_of(x);
                    assert(sorted(s));
                }
            } else {
                assert(elements(s) =~= Multiset::<i64>::empty()) by {
                    broadcast use vstd::seq_lib::group_to_multiset_ensures;
                    broadcast use vstd::multiset::group_multiset_axioms;
                    assert(s =~= Seq::<i64>::empty());
                }
            }
        }
        r
    }

    pub fn is_empty_heap(&self) -> (b: bool)
        ensures
            b == (self@.len() == 0),
    {
        proof {
            self.0@.to_multiset_ensures();
        }
        self.0.len() == 0
    }
}

impl Heap<i64> for BinaryHeapReversed {
    /// Adds `item`.
    fn push(&mut self, item: i64)
        ensures
            final(self)@ == old(self)@.insert(item),
    {
        self.push_item(item);
    }

    /// Removes and returns a least element; `None` when empty.
    fn pop(&mut self) -> (r: Option<i64>)
        ensures
            old(self)@.len() == 0 ==> r is None && final(self)@ == old(self)@,
            old(self)@.len() > 0 ==> (r matches Some(m) && old(self)@.contains(m)
                && (forall|x: i64| #[trigger] old(self)@.contains(x) ==> m <= x)
                && final(self)@ == old(self)@.remove(m)),
    {
        self.pop_least()
    }

    fn is_empty(&self) -> (b: bool)
        ensures
            b == (self@.len() == 0),
    {
        self.is_empty_heap()
    }
}

} // verus!
