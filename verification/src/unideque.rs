//! A double-ended queue of `u64` values in which no value occurs twice,
//! with a hash set answering membership.
use vstd::prelude::*;
use std::collections::{HashSet, VecDeque};

verus! {

broadcast use {vstd::std_specs::hash::group_hash_axioms, vstd::std_specs::vecdeque::group_vec_dequeue_axioms};

pub struct Unideque {
    deque: VecDeque<u64>,
    set: HashSet<u64>,
}

impl View for Unideque {
    type V = Seq<u64>;

    /// The values from front to back.
    closed spec fn view(&self) -> Seq<u64> {
        self.deque@
    }
}

impl Unideque {
    /// The set holds exactly the queued values, each queued once.
    pub closed spec fn wf(&self) -> bool {
        &&& self.deque@.no_duplicates()
        &&& self.set@ == self.deque@.to_set()
    }

    pub fn new() -> (u: Self)
        ensures
            u.wf(),
            u@ == Seq::<u64>::empty(),
    {
        let u = Unideque { deque: VecDeque::new(), set: HashSet::new() };
        proof {
            assert(u.deque@.to_set() =~= Set::<u64>::empty());
        }
        u
    }

    pub fn len(&self) -> (n: usize)
        ensures
            n == self@.len(),
    {
        self.deque.len()
    }

    pub fn is_empty(&self) -> (b: bool)
        ensures
            b == (self@.len() == 0),
    {
        self.deque.len() == 0
    }

    pub fn front(&self) -> (r: Option<&u64>)
        ensures
            r == if self@.len() == 0 { None } else { Some(&self@[0]) },
    {
        if self.deque.len() == 0 {
            None
        } else {
            Some(&self.deque[0])
        }
    }

    pub fn back(&self) -> (r: Option<&u64>)
        ensures
            r == if self@.len() == 0 { None } else { Some(&self@.last()) },
    {
        let n = self.deque.len();
        if n == 0 {
            None
        } else {
            Some(&self.deque[n - 1])
        }
    }

    pub fn get(&self, index: usize) -> (r: Option<&u64>)
        ensures
            r == if index < self@.len() { Some(&self@[index as int]) } else { None },
    {
        if index < self.deque.len() {
            Some(&self.deque[index])
        } else {
            None
        }
    }

    pub fn contains(&self, value: &u64) -> (b: bool)
        requires
            self.wf(),
        ensures
            b == self@.contains(*value),
    {
        let b = self.set.contains(value);
        proof {
            assert(self.deque@.to_set().contains(*value) == self.deque@.contains(*value));
        }
        b
    }

    /// Puts `value` in front unless it is already queued; tells whether it
    /// was put.
    pub fn push_front(&mut self, value: u64) -> (pushed: bool)
        requires
            old(self).wf(),
        ensures
            final(self).wf(),
            pushed == !old(self)@.contains(value),
            final(self)@ == if pushed { seq![value] + old(self)@ } else { old(self)@ },
    {
        if self.contains(&value) {
            return false;
        }
        self.set.insert(value);
        self.deque.push_front(value);
        proof {
            let s = self.deque@;
            let o = old(self).deque@;
            assert(s == seq![value] + o);
            assert forall|i: int, j: int| 0 <= i < s.len() && 0 <= j < s.len() && i != j implies s[i] != s[j] by {
                if i == 0 {
                    assert(o.contains(s[j]));
                } else if j == 0 {
                    assert(o.contains(s[i]));
                } else {
                    assert(s[i] == o[i - 1] && s[j] == o[j - 1]);
                }
            }
            assert forall|x: u64| s.contains(x) <==> (o.contains(x) || x == value) by {
                if o.contains(x) {
                    let k = choose|k: int| 0 <= k < o.len() && o[k] == x;
                    assert(s[k + 1] == x);
                }
                if s.contains(x) && x != value {
                    let k = choose|k: int| 0 <= k < s.len() && s[k] == x;
                    assert(o[k - 1] == x);
                }
                if x == value {
                    assert(s[0] == x);
                }
            }
            assert(self.set@ =~= s.to_set());
        }
        true
    }

    /// Puts `value` at the back unless it is already queued; tells whether
    /// it was put.
    pub fn push_back(&mut self, value: u64) -> (pushed: bool)
        requires
            old(self).wf(),
        ensures
            final(self).wf(),
            pushed == !old(self)@.contains(value),
            final(self)@ == if pushed { old(self)@.push(value) } else { old(self)@ },
    {
        if self.contains(&value) {
            return false;
        }
        self.set.insert(value);
        self.deque.push_back(value);
        proof {
            let s = self.deque@;
            let o = old(self).deque@;
            assert forall|i: int, j: int| 0 <= i < s.len() && 0 <= j < s.len() && i != j implies s[i] != s[j] by {
                if i == o.len() {
                    assert(o.contains(s[j]));
                } else if j == o.len() {
                    assert(o.contains(s[i]));
                }
            }
            assert forall|x: u64| s.contains(x) <==> (o.contains(x) || x == value) by {
                if o.contains(x) {
                    let k = choose|k: int| 0 <= k < o.len() && o[k] == x;
                    assert(s[k] == x);
                }
                if s.contains(x) && x != value {
                    let k = choose|k: int| 0 <= k < s.len() && s[k] == x;
                    assert(o[k] == x);
                }
                if x == value {
                    assert(s[o.len() as int] == x);
                }
            }
            assert(self.set@ =~= s.to_set());
        }
        true
    }

    /// Takes the front value out.
    pub fn pop_front(&mut self) -> (r: Option<u64>)
        requires
            old(self).wf(),
        ensures
            final(self).wf(),
            old(self)@.len() == 0 ==> r == None::<u64> && final(self)@ == old(self)@,
            old(self)@.len() > 0 ==> r == Some(old(self)@[0]) && final(self)@ == old(self)@.drop_first(),
    {
        let value = match self.deque.pop_front() {
            Some(v) => v,
            None => return None,
        };
        self.set.remove(&value);
        proof {
            let s = self.deque@;
            let o = old(self).deque@;
            assert(s =~= o.drop_first());
            assert forall|x: u64| s.contains(x) <==> (o.contains(x) && x != value) by {
                if o.contains(x) && x != value {
                    let k = choose|k: int| 0 <= k < o.len() && o[k] == x;
                    assert(s[k - 1] == x);
                }
                if s.contains(x) {
                    let k = choose|k: int| 0 <= k < s.len() && s[k] == x;
                    assert(o[k + 1] == x);
                    assert(o[0] != o[k + 1]);
                }
            }
            assert(self.set@ =~= s.to_set());
        }
        Some(value)
    }

    /// Takes the back value out.
    pub fn pop_back(&mut self) -> (r: Option<u64>)
        requires
            old(self).wf(),
        ensures
            final(self).wf(),
            old(self)@.len() == 0 ==> r == None::<u64> && final(self)@ == old(self)@,
            old(self)@.len() > 0 ==> r == Some(old(self)@.last()) && final(self)@ == old(self)@.drop_last(),
    {
        let value = match self.deque.pop_back() {
            Some(v) => v,
            None => return None,
        };
        self.set.remove(&value);
        proof {
            let s = self.deque@;
            let o = old(self).deque@;
            assert(s =~= o.drop_last());
            assert forall|x: u64| s.contains(x) <==> (o.contains(x) && x != value) by {
                if o.contains(x) && x != value {
                    let k = choose|k: int| 0 <= k < o.len() && o[k] == x;
                    assert(s[k] == x);
                }
                if s.contains(x) {
                    let k = choose|k: int| 0 <= k < s.len() && s[k] == x;
                    assert(o[k] == x);
                    assert(o[o.len() - 1] != o[k]);
                }
            }
            assert(self.set@ =~= s.to_set());
        }
        Some(value)
    }
}

impl Default for Unideque {
    fn default() -> (u: Self)
        ensures
            u.wf(),
            u@ == Seq::<u64>::empty(),
    {
        Unideque::new()
    }
}

} // verus!
