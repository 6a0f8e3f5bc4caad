//! An implicit treap: a binary tree ordered by position, each node keeping
//! the size of its subtree and the fold of its values under an operation.
use vstd::prelude::*;
use std::rc::Rc;

verus! {

pub enum Treap<K, Op> {
    NIL,
    NODE {
        key: K,
        value: i64,
        sum: i64,
        op: Rc<Op>,
        priority: usize,
        len: usize,
        left: Box<Treap<K, Op>>,
        right: Box<Treap<K, Op>>,
    },
}

impl<K: Copy, Op: Fn(i64, i64) -> i64> Treap<K, Op> {
    /// The values in order.
    pub open spec fn values(self) -> Seq<i64>
        decreases self,
    {
        match self {
            Treap::NIL => Seq::empty(),
            Treap::NODE { value, left, right, .. } => (*left).values() + seq![value] + (*right).values(),
        }
    }

    /// The stored fold, `0` for the empty tree.
    pub open spec fn sum_spec(self) -> i64 {
        match self {
            Treap::NIL => 0,
            Treap::NODE { sum, .. } => sum,
        }
    }

    /// The stored size, `0` for the empty tree.
    pub open spec fn len_spec(self) -> nat {
        match self {
            Treap::NIL => 0,
            Treap::NODE { len, .. } => len as nat,
        }
    }

    /// The stored fold of a node: its value for a node without children
    /// as made by `new`, or `op(op(left fold, right fold), value)` under the
    /// node's operation as `update` computes it.
    pub open spec fn sum_ok(self) -> bool {
        match self {
            Treap::NIL => true,
            Treap::NODE { value, sum, op, left, right, .. } => {
                ||| (*left is NIL && *right is NIL && sum == value)
                ||| exists|t: i64| #[trigger] call_ensures(*op, ((*left).sum_spec(), (*right).sum_spec()), t)
                    && call_ensures(*op, (t, value), sum)
            },
        }
    }

    /// Every stored size is the number of values below, every stored fold
    /// is as `sum_ok` says, and each node's operation takes any two values.
    pub open spec fn wf(self) -> bool
        decreases self,
    {
        match self {
            Treap::NIL => true,
            Treap::NODE { value, sum, op, len, left, right, .. } => {
                &&& (*left).wf()
                &&& (*right).wf()
                &&& len == (*left).len_spec() + (*right).len_spec() + 1
                &&& forall|a: i64, b: i64| #[trigger] call_requires(*op, (a, b))
                &&& self.sum_ok()
            },
        }
    }

    /// The root's priority, `0` for the empty tree.
    pub open spec fn priority_spec(self) -> usize {
        match self {
            Treap::NIL => 0,
            Treap::NODE { priority, .. } => priority,
        }
    }

    /// Priorities form a max-heap: no child's priority exceeds its parent's.
    pub open spec fn heap_ordered(self) -> bool
        decreases self,
    {
        match self {
            Treap::NIL => true,
            Treap::NODE { priority, left, right, .. } => {
                &&& (*left).heap_ordered()
                &&& (*right).heap_ordered()
                &&& (*left).priority_spec() <= priority
                &&& (*right).priority_spec() <= priority
            },
        }
    }

    /// Every node's operation computes `f`.
    pub open spec fn ops_compute(self, f: spec_fn(i64, i64) -> i64) -> bool
        decreases self,
    {
        match self {
            Treap::NIL => true,
            Treap::NODE { op, left, right, .. } => {
                &&& (*left).ops_compute(f)
                &&& (*right).ops_compute(f)
                &&& forall|a: i64, b: i64, t: i64| #[trigger] call_ensures(*op, (a, b), t) ==> t == f(a, b)
            },
        }
    }

    /// Law: when every node's operation computes an associative and
    /// commutative `f` with identity `0`, the stored fold of a well-formed
    /// tree is the fold of its values in order.
    pub proof fn lemma_sum_is_fold(self, f: spec_fn(i64, i64) -> i64)
        requires
            self.wf(),
            self.ops_compute(f),
            commutative_monoid(f),
        ensures
            self.sum_spec() == fold_values(self.values(), f),
        decreases self,
    {
        match self {
            Treap::NIL => {},
            Treap::NODE { value, sum, op, left, right, .. } => {
                (*left).lemma_sum_is_fold(f);
                (*right).lemma_sum_is_fold(f);
                let lv = (*left).values();
                let rv = (*right).values();
                lemma_fold_node(lv, value, rv, f);
                reveal(commutative_monoid);
                if *left is NIL && *right is NIL && sum == value {
                    assert(lv =~= Seq::<i64>::empty());
                    assert(rv =~= Seq::<i64>::empty());
                    assert(f(0, 0) == 0);
                    assert(f(0, value) == value);
                } else {
                    let t = choose|t: i64| #[trigger] call_ensures(*op, ((*left).sum_spec(), (*right).sum_spec()), t)
                        && call_ensures(*op, (t, value), sum);
                    assert(call_ensures(*op, ((*left).sum_spec(), (*right).sum_spec()), t));
                    assert(call_ensures(*op, (t, value), sum));
                }
            },
        }
    }

    pub proof fn lemma_len(self)
        requires
            self.wf(),
        ensures
            self.len_spec() == self.values().len(),
        decreases self,
    {
        match self {
            Treap::NIL => {},
            Treap::NODE { left, right, .. } => {
                (*left).lemma_len();
                (*right).lemma_len();
            },
        }
    }

    /// A single node.
    pub fn new(key: K, value: i64, op: Rc<Op>, priority: usize) -> (t: Self)
        requires
            forall|a: i64, b: i64| #[trigger] call_requires(*op, (a, b)),
        ensures
            t.wf(),
            t.values() == seq![value],
            t.len_spec() == 1,
            t.sum_spec() == value,
            t matches Treap::NODE { priority: p, .. } && p == priority,
            t.heap_ordered(),
    {
        let t = Treap::NODE {
            key,
            value,
            sum: value,
            op,
            priority,
            len: 1,
            left: Box::new(Treap::NIL),
            right: Box::new(Treap::NIL),
        };
        proof {
            let nil = Treap::<K, Op>::NIL;
            assert(nil.values() =~= Seq::<i64>::empty());
            assert(nil.wf());
            assert(t.values() =~= seq![value]);
            assert(t.sum_ok());
            assert(nil.heap_ordered());
            assert(nil.priority_spec() == 0);
            assert(t.heap_ordered());
        }
        t
    }

    pub fn is_node(&self) -> (b: bool)
        ensures
            b == (*self is NODE),
    {
        match self {
            Treap::NIL => false,
            _ => true,
        }
    }

    pub fn len(&self) -> (n: usize)
        ensures
            n == self.len_spec(),
    {
        match self {
            Treap::NIL => 0,
            Treap::NODE { len, .. } => *len,
        }
    }

    /// The node's value, `0` for the empty tree.
    pub fn value(&self) -> (v: i64)
        ensures
            v == match *self {
                Treap::NIL => 0,
                Treap::NODE { value, .. } => value,
            },
    {
        match self {
            Treap::NIL => 0,
            Treap::NODE { value, .. } => *value,
        }
    }

    pub fn sum(&self) -> (v: i64)
        ensures
            v == self.sum_spec(),
    {
        match self {
            Treap::NIL => 0,
            Treap::NODE { sum, .. } => *sum,
        }
    }

    /// The node's priority, `0` for the empty tree.
    pub fn priority(&self) -> (p: usize)
        ensures
            p == match *self {
                Treap::NIL => 0,
                Treap::NODE { priority, .. } => priority,
            },
    {
        match self {
            Treap::NIL => 0,
            Treap::NODE { priority, .. } => *priority,
        }
    }

    /// Replaces child `which` (`0` left, otherwise right) by `f` of it; the
    /// stored size and fold are left as they were. The empty tree stays
    /// empty.
    pub fn map_child<F: FnOnce(Self) -> Self>(self, which: usize, f: F) -> (t: Self)
        requires
            self matches Treap::NODE { left, right, .. } ==> call_requires(f, (if which == 0 { *left } else { *right },)),
        ensures
            self is NIL ==> t is NIL,
            self matches Treap::NODE { key, value, sum, op, priority, len, left, right } ==> (t matches Treap::NODE {
                key: k2, value: v2, sum: s2, op: o2, priority: p2, len: l2, left: lt, right: rt }
                && k2 == key && v2 == value && s2 == sum && o2 == op && p2 == priority && l2 == len
                && (which == 0 ==> call_ensures(f, (*left,), *lt) && *rt == *right)
                && (which != 0 ==> call_ensures(f, (*right,), *rt) && *lt == *left)),
    {
        match self {
            Treap::NIL => Treap::NIL,
            Treap::NODE { key, value, sum, op, priority, len, left, right } => {
                if which == 0 {
                    let l = f(*left);
                    Treap::NODE { key, value, sum, op, priority, len, left: Box::new(l), right }
                } else {
                    let r = f(*right);
                    Treap::NODE { key, value, sum, op, priority, len, left, right: Box::new(r) }
                }
            },
        }
    }

    /// Recomputes the stored size and fold of the root from its children.
    pub fn update(self) -> (t: Self)
        requires
            self matches Treap::NODE { op, left, right, .. } ==> (*left).wf() && (*right).wf()
                && forall|a: i64, b: i64| #[trigger] call_requires(*op, (a, b)),
            self matches Treap::NODE { left, right, .. } ==> (*left).len_spec() + (*right).len_spec() + 1 <= usize::MAX,
        ensures
            t.wf(),
            t.values() == self.values(),
            self is NIL ==> t is NIL,
            self matches Treap::NODE { priority, .. } ==> (t matches Treap::NODE { priority: p2, .. } && p2 == priority),
            t.priority_spec() == self.priority_spec(),
            self.heap_ordered() ==> t.heap_ordered(),
    {
        match self {
            Treap::NIL => Treap::NIL,
            Treap::NODE { key, value, sum, op, priority, len, left, right } => {
                let len = left.len() + right.len() + 1;
                let ls = left.sum();
                let rs = right.sum();
                let t = (*op)(ls, rs);
                let sum = (*op)(t, value);
                proof {
                    assert(call_ensures(*op, ((*left).sum_spec(), (*right).sum_spec()), t) && call_ensures(*op, (t, value), sum));
                }
                let ghost gl = *left;
                let ghost gr = *right;
                let ghost go = op;
                proof {
                    assert(exists|w: i64| #[trigger] call_ensures(*go, (gl.sum_spec(), gr.sum_spec()), w) && call_ensures(*go, (w, value), sum));
                }
                let r = Treap::NODE { key, value, sum, op, priority, len, left, right };
                proof {
                    assert(r matches Treap::NODE { op: o, left: l, right: rr, .. } && o == go && *l == gl && *rr == gr);
                    assert(r.sum_ok());
                }
                r
            },
        }
    }

    /// The tree holding the values of `self` followed by those of `other`;
    /// the root of greater priority stays on top.
    pub fn merge(self, other: Self) -> (t: Self)
        requires
            self.wf(),
            other.wf(),
            self.len_spec() + other.len_spec() <= usize::MAX,
        ensures
            t.wf(),
            t.values() == self.values() + other.values(),
            self.heap_ordered() && other.heap_ordered() ==> t.heap_ordered()
                && t.priority_spec() == if self.priority_spec() >= other.priority_spec() { self.priority_spec() } else { other.priority_spec() },
        decreases self.len_spec() + other.len_spec(),
    {
        proof {
            self.lemma_len();
            other.lemma_len();
        }
        if self.is_node() {
            if other.is_node() {
                if self.priority() > other.priority() {
                    match self {
                        Treap::NODE { key, value, sum, op, priority, len, left, right } => {
                            proof {
                                (*left).lemma_len();
                                (*right).lemma_len();
                            }
                            let r = (*right).merge(other);
                            let t = Treap::NODE { key, value, sum, op, priority, len, left, right: Box::new(r) };
                            proof {
                                assert(t.values() =~= self.values() + other.values());
                                r.lemma_len();
                            }
                            t.update()
                        },
                        Treap::NIL => other,
                    }
                } else {
                    match other {
                        Treap::NODE { key, value, sum, op, priority, len, left, right } => {
                            proof {
                                (*left).lemma_len();
                                (*right).lemma_len();
                            }
                            let l = self.merge(*left);
                            let t = Treap::NODE { key, value, sum, op, priority, len, left: Box::new(l), right };
                            proof {
                                assert(t.values() =~= self.values() + other.values());
                                l.lemma_len();
                            }
                            t.update()
                        },
                        Treap::NIL => self,
                    }
                }
            } else {
                proof {
                    assert(self.values() + other.values() =~= self.values());
                }
                self
            }
        } else {
            proof {
                assert(self.values() + other.values() =~= other.values());
            }
            other
        }
    }

    /// The trees holding the first `k` values and the rest.
    pub fn split(self, k: usize) -> (r: (Self, Self))
        requires
            self.wf(),
        ensures
            r.0.wf(),
            r.1.wf(),
            k <= self.values().len() ==> r.0.values() == self.values().subrange(0, k as int),
            k <= self.values().len() ==> r.1.values() == self.values().subrange(k as int, self.values().len() as int),
            k > self.values().len() ==> r.0.values() == self.values() && r.1.values() == Seq::<i64>::empty(),
            self.heap_ordered() ==> r.0.heap_ordered() && r.1.heap_ordered()
                && r.0.priority_spec() <= self.priority_spec() && r.1.priority_spec() <= self.priority_spec(),
        decreases self,
    {
        match self {
            Treap::NIL => (Treap::NIL, Treap::NIL),
            Treap::NODE { key, value, sum, op, priority, len, left, right } => {
                proof {
                    (*left).lemma_len();
                    (*right).lemma_len();
                }
                let ghost lv = (*left).values();
                let ghost rv = (*right).values();
                if k <= left.len() {
                    let (s, t) = (*left).split(k);
                    proof {
                        s.lemma_len();
                        t.lemma_len();
                    }
                    let node = Treap::NODE { key, value, sum, op, priority, len, left: Box::new(t), right };
                    let u = node.update();
                    proof {
                        assert(self.values() =~= lv + seq![value] + rv);
                        assert(lv.subrange(0, k as int) =~= self.values().subrange(0, k as int));
                        assert(u.values() =~= self.values().subrange(k as int, self.values().len() as int));
                    }
                    (s, u)
                } else {
                    let (s, t) = (*right).split(k - left.len() - 1);
                    proof {
                        s.lemma_len();
                        t.lemma_len();
                    }
                    let node = Treap::NODE { key, value, sum, op, priority, len, left, right: Box::new(s) };
                    let u = node.update();
                    proof {
                        assert(self.values() =~= lv + seq![value] + rv);
                        if k <= self.values().len() {
                            assert(u.values() =~= self.values().subrange(0, k as int));
                            assert(t.values() =~= self.values().subrange(k as int, self.values().len() as int));
                        } else {
                            assert(u.values() =~= self.values());
                        }
                    }
                    (u, t)
                }
            },
        }
    }
}

impl<K, Op> Default for Treap<K, Op> {
    fn default() -> (t: Self)
        ensures
            t is NIL,
    {
        Treap::NIL
    }
}

/// `f` is associative and commutative with identity `0`.
#[verifier::opaque]
pub open spec fn commutative_monoid(f: spec_fn(i64, i64) -> i64) -> bool {
    &&& forall|a: i64, b: i64, c: i64| #[trigger] f(f(a, b), c) == f(a, f(b, c))
    &&& forall|a: i64, b: i64| #[trigger] f(a, b) == f(b, a)
    &&& forall|a: i64| #[trigger] f(0, a) == a
}

/// The fold of `s` under `f` from the left, starting at `0`.
pub open spec fn fold_values(s: Seq<i64>, f: spec_fn(i64, i64) -> i64) -> i64
    decreases s.len(),
{
    if s.len() == 0 {
        0
    } else {
        f(fold_values(s.drop_last(), f), s.last())
    }
}

/// The fold of a concatenation combines the folds of its parts, for an
/// associative `f` with left identity `0`.
pub proof fn lemma_fold_concat(a: Seq<i64>, b: Seq<i64>, f: spec_fn(i64, i64) -> i64)
    requires
        forall|x: i64, y: i64, z: i64| #[trigger] f(f(x, y), z) == f(x, f(y, z)),
        forall|x: i64, y: i64| #[trigger] f(x, y) == f(y, x),
        forall|x: i64| #[trigger] f(0, x) == x,
    ensures
        fold_values(a + b, f) == f(fold_values(a, f), fold_values(b, f)),
    decreases b.len(),
{
    if b.len() == 0 {
        assert(a + b =~= a);
        let fa = fold_values(a, f);
        assert(f(0, fa) == fa);
        assert(f(fa, 0) == f(0, fa));
    } else {
        lemma_fold_concat(a, b.drop_last(), f);
        assert((a + b).drop_last() =~= a + b.drop_last());
        assert((a + b).last() == b.last());
        let fa = fold_values(a, f);
        let fb = fold_values(b.drop_last(), f);
        assert(f(f(fa, fb), b.last()) == f(fa, f(fb, b.last())));
    }
}

proof fn lemma_fold_node(lv: Seq<i64>, v: i64, rv: Seq<i64>, f: spec_fn(i64, i64) -> i64)
    requires
        commutative_monoid(f),
    ensures
        fold_values(lv + seq![v] + rv, f) == f(f(fold_values(lv, f), fold_values(rv, f)), v),
{
    reveal(commutative_monoid);
    let l = fold_values(lv, f);
    let r = fold_values(rv, f);
    lemma_fold_concat(lv + seq![v], rv, f);
    lemma_fold_concat(lv, seq![v], f);
    assert(seq![v].drop_last() =~= Seq::<i64>::empty());
    assert(fold_values(Seq::<i64>::empty(), f) == 0);
    assert(fold_values(seq![v], f) == f(0, v));
    assert(f(f(l, v), r) == f(l, f(v, r)));
    assert(f(v, r) == f(r, v));
    assert(f(l, f(r, v)) == f(f(l, r), v));
}

/// Law: merging the two parts that `split` gives back yields the values of
/// the tree that was split.
pub proof fn lemma_split_merge_values(values: Seq<i64>, k: int)
    requires
        0 <= k <= values.len(),
    ensures
        values.subrange(0, k) + values.subrange(k, values.len() as int) == values,
{
    assert(values.subrange(0, k) + values.subrange(k, values.len() as int) =~= values);
}

} // verus!
