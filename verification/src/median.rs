//! Online median: a lower and an upper multiset, every element of the lower
//! part at most every element of the upper part, and the upper part never
//! smaller than the lower part.
use vstd::prelude::*;
use vstd::seq_lib::{lemma_multiset_commutative, to_multiset_remove};
use crate::multiset::{BTreeMultiset, Iter, elements};
use crate::sorted_seq::{sorted, lemma_contains_count};

verus! {

/// Every element of `a` is at most every element of `b`.
pub open spec fn all_le(a: Seq<i64>, b: Seq<i64>) -> bool {
    forall|i: int, j: int| 0 <= i < a.len() && 0 <= j < b.len() ==> a[i] <= b[j]
}

pub struct Median {
    left: BTreeMultiset,
    right: BTreeMultiset,
}

impl View for Median {
    type V = Seq<i64>;

    /// All elements in non-decreasing order.
    closed spec fn view(&self) -> Seq<i64> {
        self.left@ + self.right@
    }
}

/// An element of a sequence after one insertion is the inserted value or an
/// element from before.
proof fn lemma_inserted_elements(old_s: Seq<i64>, new_s: Seq<i64>, v: i64)
    requires
        elements(new_s) == elements(old_s).insert(v),
    ensures
        forall|k: int| 0 <= k < new_s.len() ==> new_s[k] == v || old_s.contains(#[trigger] new_s[k]),
{
    broadcast use vstd::multiset::group_multiset_axioms;
    assert forall|k: int| 0 <= k < new_s.len() implies new_s[k] == v || old_s.contains(#[trigger] new_s[k]) by {
        lemma_contains_count(new_s, new_s[k]);
        lemma_contains_count(old_s, new_s[k]);
        assert(new_s.contains(new_s[k]));
    }
}

/// An element of a sequence after one removal was there before.
proof fn lemma_removed_elements(old_s: Seq<i64>, new_s: Seq<i64>, v: i64)
    requires
        elements(new_s) == elements(old_s).remove(v),
    ensures
        forall|k: int| 0 <= k < new_s.len() ==> old_s.contains(#[trigger] new_s[k]),
{
    broadcast use vstd::multiset::group_multiset_axioms;
    assert forall|k: int| 0 <= k < new_s.len() implies old_s.contains(#[trigger] new_s[k]) by {
        lemma_contains_count(new_s, new_s[k]);
        lemma_contains_count(old_s, new_s[k]);
        assert(new_s.contains(new_s[k]));
    }
}

proof fn lemma_concat_sorted(a: Seq<i64>, b: Seq<i64>)
    requires
        sorted(a),
        sorted(b),
        all_le(a, b),
    ensures
        sorted(a + b),
{
    let c = a + b;
    assert forall|i: int, j: int| 0 <= i < j < c.len() implies c[i] <= c[j] by {
        if j < a.len() {
        } else if i < a.len() {
            assert(c[i] == a[i] && c[j] == b[j - a.len()]);
        } else {
            assert(c[i] == b[i - a.len()] && c[j] == b[j - a.len()]);
        }
    }
}

impl Median {
    /// The lower part, in non-decreasing order.
    pub closed spec fn lower(&self) -> Seq<i64> {
        self.left@
    }

    /// The upper part, in non-decreasing order.
    pub closed spec fn upper(&self) -> Seq<i64> {
        self.right@
    }

    /// The upper part has at most one element more than the lower part.
    pub open spec fn balanced(&self) -> bool {
        self.upper().len() <= self.lower().len() + 1
    }

    /// The structure is internally consistent.
    pub closed spec fn wf(&self) -> bool {
        &&& self.left.wf()
        &&& self.right.wf()
        &&& sorted(self.left@)
        &&& sorted(self.right@)
        &&& self.left@.len() <= self.right@.len()
        &&& all_le(self.left@, self.right@)
        &&& self.left@.len() + self.right@.len() <= usize::MAX
    }

    pub proof fn lemma_view(&self)
        requires
            self.wf(),
        ensures
            self@ == self.lower() + self.upper(),
            sorted(self@),
            self.lower().len() <= self.upper().len(),
    {
        lemma_concat_sorted(self.left@, self.right@);
    }

    /// An empty median structure.
    pub fn new() -> (m: Self)
        ensures
            m.wf(),
            m.balanced(),
            m@ == Seq::<i64>::empty(),
    {
        let m = Median { left: BTreeMultiset::new(), right: BTreeMultiset::new() };
        assert(m@ =~= Seq::<i64>::empty());
        m
    }

    pub fn is_empty(&self) -> (b: bool)
        ensures
            b == (self@.len() == 0),
    {
        self.left.len() == 0 && self.right.len() == 0
    }

    /// The number of elements.
    pub fn len(&self) -> (n: usize)
        requires
            self.wf(),
        ensures
            n == self@.len(),
    {
        self.left.len() + self.right.len()
    }

    /// The lower median: the element just below the middle of the sorted
    /// elements (the middle one for an odd count).
    pub fn median_low(&self) -> (r: Option<i64>)
        requires
            self.wf(),
        ensures
            r == (if self@.len() == 0 {
                None
            } else if self.lower().len() < self.upper().len() {
                Some(self@[self.lower().len() as int])
            } else {
                Some(self@[self.lower().len() - 1])
            }),
            self.balanced() ==> r == (if self@.len() == 0 {
                None
            } else {
                Some(self@[(self@.len() - 1) / 2])
            }),
    {
        if self.left.len() < self.right.len() {
            self.right.min()
        } else {
            self.left.max()
        }
    }

    /// The upper median: the element just above the middle of the sorted
    /// elements (the middle one for an odd count).
    pub fn median_high(&self) -> (r: Option<i64>)
        requires
            self.wf(),
        ensures
            r == (if self@.len() == 0 { None } else { Some(self@[self.lower().len() as int]) }),
            self.balanced() ==> r == (if self@.len() == 0 {
                None
            } else {
                Some(self@[(self@.len() / 2) as int])
            }),
    {
        self.right.min()
    }

    /// Adds `value`.
    pub fn insert(&mut self, value: i64)
        requires
            old(self).wf(),
            old(self)@.len() < usize::MAX,
        ensures
            final(self).wf(),
            sorted(final(self)@),
            elements(final(self)@) == elements(old(self)@).insert(value),
            old(self).balanced() ==> final(self).balanced(),
    {
        broadcast use vstd::multiset::group_multiset_axioms;
        let ghost l0 = self.left@;
        let ghost r0 = self.right@;
        if self.is_empty() {
            self.right.insert(value);
            proof {
                assert(self.left@.len() == 0);
                lemma_multiset_commutative(l0, r0);
                lemma_multiset_commutative(self.left@, self.right@);
            }
        } else if self.left.len() < self.right.len() {
            let m = self.right.min().unwrap();
            if value <= m {
                self.left.insert(value);
                proof {
                    lemma_inserted_elements(l0, self.left@, value);
                    assert forall|i: int, j: int|
                        0 <= i < self.left@.len() && 0 <= j < self.right@.len() implies self.left@[i]
                        <= self.right@[j] by {
                        if self.left@[i] != value {
                            let w = choose|w: int| 0 <= w < l0.len() && l0[w] == self.left@[i];
                        }
                    }
                    lemma_multiset_commutative(l0, r0);
                    lemma_multiset_commutative(self.left@, self.right@);
                }
            } else {
                let x = self.right.pop_min().unwrap();
                let ghost r1 = self.right@;
                self.left.insert(x);
                self.right.insert(value);
                proof {
                    lemma_inserted_elements(l0, self.left@, x);
                    lemma_inserted_elements(r1, self.right@, value);
                    assert forall|i: int, j: int|
                        0 <= i < self.left@.len() && 0 <= j < self.right@.len() implies self.left@[i]
                        <= self.right@[j] by {
                        if self.right@[j] != value {
                            let w = choose|w: int| 0 <= w < r1.len() && r1[w] == self.right@[j];
                            assert(r1[w] == r0[w + 1]);
                            assert(r0[0] <= r0[w + 1]);
                        }
                        if self.left@[i] != x {
                            let w = choose|w: int| 0 <= w < l0.len() && l0[w] == self.left@[i];
                        }
                    }
                    to_multiset_remove(r0, 0);
                    assert(r0.remove(0) =~= r1);
                    assert(r0[0] == x);
                    lemma_contains_count(r0, x);
                    lemma_multiset_commutative(l0, r0);
                    lemma_multiset_commutative(self.left@, self.right@);
                    let lhs = elements(self.left@ + self.right@);
                    let rhs = elements(l0 + r0).insert(value);
                    assert forall|e: i64| #[trigger] lhs.count(e) == rhs.count(e) by {
                        assert(elements(r1).count(e) == elements(r0).count(e) - if e == x { 1int } else { 0int });
                    }
                    assert(lhs =~= rhs);
                }
            }
        } else {
            let m = self.left.max().unwrap();
            if value < m {
                let x = self.left.pop_max().unwrap();
                let ghost l1 = self.left@;
                self.right.insert(x);
                self.left.insert(value);
                proof {
                    lemma_inserted_elements(l1, self.left@, value);
                    lemma_inserted_elements(r0, self.right@, x);
                    assert forall|i: int, j: int|
                        0 <= i < self.left@.len() && 0 <= j < self.right@.len() implies self.left@[i]
                        <= self.right@[j] by {
                        if self.left@[i] != value {
                            let w = choose|w: int| 0 <= w < l1.len() && l1[w] == self.left@[i];
                            assert(l1[w] == l0[w]);
                            assert(l0[w] <= l0[l0.len() - 1]);
                        }
                        if self.right@[j] != x {
                            let w = choose|w: int| 0 <= w < r0.len() && r0[w] == self.right@[j];
                            assert(l0[l0.len() - 1] <= r0[w]);
                        }
                    }
                    to_multiset_remove(l0, l0.len() - 1);
                    assert(l0.remove(l0.len() - 1) =~= l1);
                    assert(l0[l0.len() - 1] == x);
                    lemma_contains_count(l0, x);
                    assert(l0.contains(x));
                    lemma_multiset_commutative(l0, r0);
                    lemma_multiset_commutative(self.left@, self.right@);
                    let lhs = elements(self.left@ + self.right@);
                    let rhs = elements(l0 + r0).insert(value);
                    assert forall|e: i64| #[trigger] lhs.count(e) == rhs.count(e) by {
                        assert(elements(l1).count(e) == elements(l0).count(e) - if e == x { 1int } else { 0int });
                    }
                    assert(lhs =~= rhs);
                }
            } else {
                self.right.insert(value);
                proof {
                    lemma_inserted_elements(r0, self.right@, value);
                    assert forall|i: int, j: int|
                        0 <= i < self.left@.len() && 0 <= j < self.right@.len() implies self.left@[i]
                        <= self.right@[j] by {
                        assert(l0[i] <= l0[l0.len() - 1]);
                        if self.right@[j] != value {
                            let w = choose|w: int| 0 <= w < r0.len() && r0[w] == self.right@[j];
                        }
                    }
                    lemma_multiset_commutative(l0, r0);
                    lemma_multiset_commutative(self.left@, self.right@);
                }
            }
        }
        proof {
            lemma_concat_sorted(self.left@, self.right@);
        }
    }

    /// Removes one occurrence of `value`; returns whether there was one.
    /// The two parts are rebalanced so that the medians stay in the middle.
    pub fn remove(&mut self, value: &i64) -> (found: bool)
        requires
            old(self).wf(),
        ensures
            final(self).wf(),
            sorted(final(self)@),
            found == old(self)@.contains(*value),
            elements(final(self)@) == elements(old(self)@).remove(*value),
            old(self).balanced() ==> final(self).balanced(),
    {
        broadcast use vstd::multiset::group_multiset_axioms;
        let ghost l0 = self.left@;
        let ghost r0 = self.right@;
        proof {
            lemma_multiset_commutative(l0, r0);
            lemma_contains_count(l0, *value);
            lemma_contains_count(r0, *value);
            lemma_contains_count(l0 + r0, *value);
        }
        let in_left = self.left.remove(value);
        if !in_left {
            let in_right = self.right.remove(value);
            if !in_right {
                proof {
                    lemma_concat_sorted(self.left@, self.right@);
                    assert(elements(l0 + r0).remove(*value) =~= elements(l0 + r0));
                }
                return false;
            }
        }
        let ghost l1 = self.left@;
        let ghost r1 = self.right@;
        proof {
            if in_left {
                lemma_removed_elements(l0, l1, *value);
                assert(r1 == r0);
                assert(l0.contains(*value));
            } else {
                assert(l1 == l0);
                lemma_removed_elements(r0, r1, *value);
                assert(r0.contains(*value));
            }
            assert forall|i: int, j: int| 0 <= i < l1.len() && 0 <= j < r1.len() implies l1[i] <= r1[j] by {
                let a = choose|a: int| 0 <= a < l0.len() && l0[a] == l1[i];
                let b = choose|b: int| 0 <= b < r0.len() && r0[b] == r1[j];
            }
            lemma_multiset_commutative(l1, r1);
            assert(elements(l1 + r1) =~= elements(l0 + r0).remove(*value));
        }
        if self.left.len() > self.right.len() {
            let x = self.left.pop_max().unwrap();
            let ghost l2 = self.left@;
            self.right.insert(x);
            proof {
                lemma_inserted_elements(r1, self.right@, x);
                assert forall|i: int, j: int|
                    0 <= i < self.left@.len() && 0 <= j < self.right@.len() implies self.left@[i]
                    <= self.right@[j] by {
                    assert(l2[i] == l1[i]);
                    assert(l1[i] <= l1[l1.len() - 1]);
                    if self.right@[j] != x {
                        let w = choose|w: int| 0 <= w < r1.len() && r1[w] == self.right@[j];
                    }
                }
                to_multiset_remove(l1, l1.len() - 1);
                assert(l1.remove(l1.len() - 1) =~= l2);
                assert(l1[l1.len() - 1] == x);
                lemma_contains_count(l1, x);
                assert(l1.contains(x));
                lemma_multiset_commutative(self.left@, self.right@);
                let lhs = elements(self.left@ + self.right@);
                let rhs = elements(l1 + r1);
                assert forall|e: i64| #[trigger] lhs.count(e) == rhs.count(e) by {
                    assert(elements(l2).count(e) == elements(l1).count(e) - if e == x { 1int } else { 0int });
                }
                assert(lhs =~= rhs);
            }
        } else if self.right.len() > self.left.len() + 1 {
            let x = self.right.pop_min().unwrap();
            let ghost r2 = self.right@;
            self.left.insert(x);
            proof {
                lemma_inserted_elements(l1, self.left@, x);
                assert forall|i: int, j: int|
                    0 <= i < self.left@.len() && 0 <= j < self.right@.len() implies self.left@[i]
                    <= self.right@[j] by {
                    assert(self.right@[j] == r1[j + 1]);
                    assert(r1[0] <= r1[j + 1]);
                    if self.left@[i] != x {
                        let w = choose|w: int| 0 <= w < l1.len() && l1[w] == self.left@[i];
                        assert(l1[w] <= r1[j + 1]);
                    }
                }
                to_multiset_remove(r1, 0);
                assert(r1.remove(0) =~= r2);
                assert(r1[0] == x);
                lemma_contains_count(r1, x);
                lemma_multiset_commutative(self.left@, self.right@);
                let lhs = elements(self.left@ + self.right@);
                let rhs = elements(l1 + r1);
                assert forall|e: i64| #[trigger] lhs.count(e) == rhs.count(e) by {
                    assert(elements(r2).count(e) == elements(r1).count(e) - if e == x { 1int } else { 0int });
                }
                assert(lhs =~= rhs);
            }
        }
        proof {
            lemma_concat_sorted(self.left@, self.right@);
        }
        true
    }

    /// The elements in non-decreasing order.
    pub fn iter(&self) -> (it: Iter)
        requires
            self.wf(),
        ensures
            it.wf(),
            it@ == self@,
    {
        let mut a = self.left.iter();
        let mut b = self.right.iter();
        let mut all = a.collect_rest();
        let rest = b.collect_rest();
        let mut k: usize = 0;
        let ghost start = all@;
        while k < rest.len()
            invariant
                k <= rest@.len(),
                all@ == start + rest@.subrange(0, k as int),
            decreases rest@.len() - k,
        {
            all.push(rest[k]);
            k += 1;
            proof {
                assert(all@ =~= start + rest@.subrange(0, k as int));
            }
        }
        proof {
            assert(rest@.subrange(0, rest@.len() as int) =~= rest@);
        }
        Iter::new(all.as_slice())
    }
}

} // verus!
