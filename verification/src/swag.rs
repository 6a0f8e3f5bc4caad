//! Sliding window aggregation: a queue that keeps the fold of its contents
//! under a binary operation, with amortised O(1) push, pop and fold.
//!
//! The queue is held as two stacks. `back` receives pushed elements and
//! keeps the running fold of them; `front` holds older elements, top first,
//! each with the fold of itself and everything below it.
use vstd::prelude::*;

verus! {

/// Left fold of a non-empty sequence: `g(..g(g(s[0], s[1]), s[2]).., s[n-1])`.
pub open spec fn fold1<T>(s: Seq<T>, g: spec_fn(T, T) -> T) -> T
    decreases s.len(),
{
    if s.len() <= 1 {
        s[0]
    } else {
        g(fold1(s.drop_last(), g), s.last())
    }
}

pub open spec fn associative<T>(g: spec_fn(T, T) -> T) -> bool {
    forall|a: T, b: T, c: T| #[trigger] g(g(a, b), c) == g(a, g(b, c))
}

pub open spec fn commutative<T>(g: spec_fn(T, T) -> T) -> bool {
    forall|a: T, b: T| #[trigger] g(a, b) == g(b, a)
}

pub struct SWAG<T, F> {
    op: F,
    front: Vec<(T, T)>,
    back: Vec<T>,
    back_sum: Option<T>,
    back_folds: Ghost<Seq<T>>,
    front_seq: Ghost<Seq<T>>,
    front_fold_seq: Ghost<Seq<T>>,
}

impl<T: Copy, F: Fn(T, T) -> T> View for SWAG<T, F> {
    type V = Seq<T>;

    /// The elements in queue order, oldest first.
    closed spec fn view(&self) -> Seq<T> {
        self.front_elems().reverse() + self.back@
    }
}

impl<T: Copy, F: Fn(T, T) -> T> SWAG<T, F> {
    /// The operation.
    pub closed spec fn op_spec(&self) -> F {
        self.op
    }

    /// The older elements, the oldest last.
    pub closed spec fn front_elems(&self) -> Seq<T> {
        self.front_seq@
    }

    /// The folds kept beside the older elements.
    pub closed spec fn front_folds(&self) -> Seq<T> {
        self.front_fold_seq@
    }

    /// The newer elements, in queue order.
    pub closed spec fn back_elems(&self) -> Seq<T> {
        self.back@
    }

    /// The running folds of the newer elements.
    pub closed spec fn back_folds_spec(&self) -> Seq<T> {
        self.back_folds@
    }

    /// `folds[k]` is `op(folds[k - 1], elems[k])`, starting from `elems[0]`.
    pub open spec fn chained(op: F, elems: Seq<T>, folds: Seq<T>) -> bool {
        &&& folds.len() == elems.len()
        &&& elems.len() > 0 ==> folds[0] == elems[0]
        &&& forall|k: int| 0 < k < elems.len() ==> call_ensures(op, (folds[k - 1], elems[k]), #[trigger] folds[k])
    }

    /// The stack holds the pairs `(elems[k], folds[k])`.
    pub open spec fn stack_matches(front: Seq<(T, T)>, elems: Seq<T>, folds: Seq<T>) -> bool {
        &&& elems.len() == front.len()
        &&& folds.len() == front.len()
        &&& forall|k: int| 0 <= k < front.len() ==> #[trigger] front[k] == (elems[k], folds[k])
    }

    pub closed spec fn wf(&self) -> bool {
        &&& forall|a: T, b: T| #[trigger] call_requires(self.op, (a, b))
        &&& Self::stack_matches(self.front@, self.front_seq@, self.front_fold_seq@)
        &&& Self::chained(self.op, self.front_elems(), self.front_folds())
        &&& Self::chained(self.op, self.back@, self.back_folds@)
        &&& self.back_sum == if self.back@.len() == 0 { None } else { Some(self.back_folds@.last()) }
    }

    /// `r` is what `fold` gives for the current split of the queue: the
    /// fold of the older elements (top down) combined with the fold of the
    /// newer ones.
    pub closed spec fn folds_to(&self, r: T) -> bool {
        let fe = self.front_elems();
        let ff = self.front_folds();
        let bf = self.back_folds@;
        if fe.len() == 0 {
            self.back@.len() > 0 && r == bf.last()
        } else if self.back@.len() == 0 {
            r == ff.last()
        } else {
            call_ensures(self.op, (ff.last(), bf.last()), r)
        }
    }

    /// An empty queue over `op`.
    pub fn new(op: F) -> (w: Self)
        requires
            forall|a: T, b: T| #[trigger] call_requires(op, (a, b)),
        ensures
            w.wf(),
            w@ == Seq::<T>::empty(),
            w.op_spec() == op,
    {
        let w = SWAG { op, front: Vec::new(), back: Vec::new(), back_sum: None, back_folds: Ghost(Seq::<T>::empty()), front_seq: Ghost(Seq::<T>::empty()), front_fold_seq: Ghost(Seq::<T>::empty()) };
        proof {
            assert(w.front_elems() =~= Seq::<T>::empty());
            assert(w.front_folds() =~= Seq::<T>::empty());
            assert(w@ =~= Seq::<T>::empty());
        }
        w
    }

    /// Appends `x` at the back of the queue.
    pub fn push(&mut self, x: T)
        requires
            old(self).wf(),
        ensures
            final(self).wf(),
            final(self)@ == old(self)@.push(x),
            final(self).op_spec() == old(self).op_spec(),
            final(self).front_elems() == old(self).front_elems(),
            final(self).front_folds() == old(self).front_folds(),
            final(self).back_elems() == old(self).back_elems().push(x),
            old(self).back_elems().len() == 0 ==> final(self).back_folds_spec() == seq![x],
            old(self).back_elems().len() > 0 ==> final(self).back_folds_spec().drop_last() == old(self).back_folds_spec()
                && call_ensures(old(self).op_spec(), (old(self).back_folds_spec().last(), x), final(self).back_folds_spec().last()),
    {
        let ghost bf = self.back_folds@;
        if self.back.len() == 0 {
            self.back_sum = Some(x);
            self.back.push(x);
            let ghost nb = seq![x];
            self.back_folds = Ghost(nb);
        } else {
            let s = match self.back_sum {
                Some(v) => v,
                None => x,
            };
            let v = (self.op)(s, x);
            self.back_sum = Some(v);
            self.back.push(x);
            let ghost nb = bf.push(v);
            self.back_folds = Ghost(nb);
            proof {
                let b = self.back@;
                let f = self.back_folds@;
                assert forall|k: int| 0 < k < b.len() implies call_ensures(self.op, (f[k - 1], b[k]), #[trigger] f[k]) by {
                    if k < b.len() - 1 {
                        assert(f[k] == bf[k] && f[k - 1] == bf[k - 1] && b[k] == old(self).back@[k]);
                    }
                }
            }
        }
        proof {
            assert(self@ =~= old(self)@.push(x));
            if old(self).back@.len() > 0 {
                assert(self.back_folds@.drop_last() =~= bf);
            }
        }
    }

    /// Moves every newer element onto the stack of older ones.
    fn refill(&mut self)
        requires
            old(self).wf(),
            old(self).front@.len() == 0,
        ensures
            final(self).wf(),
            final(self).op == old(self).op,
            final(self).back@.len() == 0,
            final(self)@ == old(self)@,
    {
        let ghost b0 = self.back@;
        proof {
            assert(b0.subrange(0, b0.len() as int) =~= b0);
            assert(self.front_elems() =~= b0.subrange(b0.len() as int, b0.len() as int).reverse());
        }
        while self.back.len() > 0
            invariant
                forall|a: T, b: T| #[trigger] call_requires(self.op, (a, b)),
                self.op == old(self).op,
                Self::chained(self.op, self.front_elems(), self.front_folds()),
                Self::stack_matches(self.front@, self.front_seq@, self.front_fold_seq@),
                self.back@.len() <= b0.len(),
                self.back@ == b0.subrange(0, self.back@.len() as int),
                self.front_elems() == b0.subrange(self.back@.len() as int, b0.len() as int).reverse(),
            decreases self.back.len(),
        {
            let ghost fe = self.front_elems();
            let ghost ff = self.front_folds();
            let ghost ob = self.back@;
            let ghost old_front = self.front@;
            let x = self.back.pop().unwrap();
            let sum = if self.front.len() == 0 {
                x
            } else {
                let last = self.front[self.front.len() - 1].1;
                (self.op)(last, x)
            };
            self.front.push((x, sum));
            let ghost nfe = fe.push(x);
            let ghost nff = ff.push(sum);
            self.front_seq = Ghost(nfe);
            self.front_fold_seq = Ghost(nff);
            proof {
                let n = self.back@.len() as int;
                assert forall|k: int| 0 <= k < self.front@.len() implies #[trigger] self.front@[k] == (nfe[k], nff[k]) by {
                    if k < self.front@.len() - 1 {
                        assert(self.front@[k] == old_front[k]);
                    }
                }
                assert(self.back@ =~= ob.drop_last());
                assert(x == b0[n]);
                let fe2 = self.front_elems();
                let ff2 = self.front_folds();
                assert(fe2 =~= fe.push(x));
                assert(ff2.len() == fe2.len());
                assert forall|k: int| 0 < k < fe2.len() implies call_ensures(self.op, (ff2[k - 1], fe2[k]), #[trigger] ff2[k]) by {
                    if k < fe2.len() - 1 {
                        assert(ff2[k] == ff[k] && ff2[k - 1] == ff[k - 1] && fe2[k] == fe[k]);
                    }
                }
                assert(b0.subrange(n, b0.len() as int) =~= seq![x] + b0.subrange(n + 1, b0.len() as int));
                assert(fe2 =~= b0.subrange(n, b0.len() as int).reverse());
                assert(self.back@ =~= b0.subrange(0, n));
            }
        }
        self.back_sum = None;
        let ghost nb = Seq::<T>::empty();
        self.back_folds = Ghost(nb);
        proof {
            assert(b0.subrange(0, b0.len() as int) =~= b0);
            assert(self.front_elems().reverse() =~= b0);
            assert(old(self).front_elems() =~= Seq::<T>::empty());
            assert(self@ =~= old(self)@);
        }
    }

    /// Removes and returns the oldest element, with the fold kept beside
    /// it; `None` when the queue is empty.
    pub fn pop(&mut self) -> (r: Option<(T, T)>)
        requires
            old(self).wf(),
        ensures
            final(self).wf(),
            final(self).op_spec() == old(self).op_spec(),
            old(self)@.len() == 0 ==> r is None && final(self)@ == old(self)@,
            old(self)@.len() > 0 ==> r is Some && r.unwrap().0 == old(self)@[0] && final(self)@ == old(self)@.drop_first(),
    {
        if self.front.len() == 0 {
            self.refill();
        }
        if self.front.len() == 0 {
            return None;
        }
        let ghost fe = self.front_elems();
        let ghost ff = self.front_folds();
        let r = self.front.pop();
        let ghost nfe = fe.drop_last();
        let ghost nff = ff.drop_last();
        self.front_seq = Ghost(nfe);
        self.front_fold_seq = Ghost(nff);
        r
    }

    /// The fold of the current contents; `None` when the queue is empty.
    pub fn fold(&self) -> (r: Option<T>)
        requires
            self.wf(),
        ensures
            r is None <==> self@.len() == 0,
            r matches Some(v) ==> self.folds_to(v),
    {
        if self.front.len() > 0 {
            let f = self.front[self.front.len() - 1].1;
            match self.back_sum {
                Some(b) => Some((self.op)(f, b)),
                None => Some(f),
            }
        } else {
            self.back_sum
        }
    }

    /// Law: when `op` computes an associative function `g`, the fold after
    /// pushing `x` is `g(fold before, x)` (and `x` on an empty queue):
    /// `before` and `after` are the states around a `push(x)`, as its
    /// `ensures` describes them.
    pub proof fn lemma_fold_after_push(before: Self, after: Self, x: T, r0: T, r1: T, g: spec_fn(T, T) -> T)
        requires
            before.wf(),
            after.wf(),
            after.op_spec() == before.op_spec(),
            after.front_elems() == before.front_elems(),
            after.front_folds() == before.front_folds(),
            after.back_elems() == before.back_elems().push(x),
            before.back_elems().len() == 0 ==> after.back_folds_spec() == seq![x],
            before.back_elems().len() > 0 ==> after.back_folds_spec().drop_last() == before.back_folds_spec()
                && call_ensures(before.op_spec(), (before.back_folds_spec().last(), x), after.back_folds_spec().last()),
            forall|a: T, b: T, v: T| #[trigger] call_ensures(before.op_spec(), (a, b), v) ==> v == g(a, b),
            associative(g),
            before@.len() > 0 ==> before.folds_to(r0),
            after.folds_to(r1),
        ensures
            before@.len() == 0 ==> r1 == x,
            before@.len() > 0 ==> r1 == g(r0, x),
    {
        let fe = before.front_elems();
        let ff = before.front_folds();
        let bf = before.back_folds@;
        let bf2 = after.back_folds@;
        assert(before@.len() == fe.len() + before.back@.len());
        if before.back@.len() > 0 {
            assert(bf2.last() == g(bf.last(), x));
            if fe.len() > 0 {
                assert(r0 == g(ff.last(), bf.last()));
                assert(r1 == g(ff.last(), bf2.last()));
            }
        } else if fe.len() > 0 {
            assert(bf2.last() == x);
        } else {
            assert(bf2.last() == x);
        }
    }

    /// Law: when `op` computes an associative and commutative function
    /// `g`, the fold of the queue is the fold of its elements under `g`.
    #[verifier::spinoff_prover]
    pub proof fn lemma_fold_is_product(&self, r: T, g: spec_fn(T, T) -> T)
        requires
            self.wf(),
            self.folds_to(r),
            forall|a: T, b: T, v: T| #[trigger] call_ensures(self.op_spec(), (a, b), v) ==> v == g(a, b),
            associative(g),
            commutative(g),
        ensures
            self@.len() > 0,
            r == fold1(self@, g),
    {
        let fe = self.front_elems();
        let ff = self.front_folds();
        let be = self.back@;
        let bf = self.back_folds@;
        let op = self.op_spec();
        assert(self@ == fe.reverse() + be);
        if fe.len() > 0 {
            assert(ff.last() == fold1(fe.reverse(), g)) by {
                lemma_chained_fold1(op, fe, ff, g, fe.len() - 1);
                assert(fe.subrange(0, fe.len() as int) =~= fe);
                lemma_fold1_reverse(fe, g);
            }
        }
        if be.len() > 0 {
            assert(bf.last() == fold1(be, g)) by {
                lemma_chained_fold1(op, be, bf, g, be.len() - 1);
                assert(be.subrange(0, be.len() as int) =~= be);
            }
        }
        if fe.len() > 0 && be.len() > 0 {
            assert(call_ensures(op, (ff.last(), bf.last()), r));
            assert(r == g(ff.last(), bf.last()));
            lemma_fold1_append(fe.reverse(), be, g);
        } else if fe.len() > 0 {
            assert(self@ =~= fe.reverse());
        } else {
            assert(self@ =~= be);
        }
    }
}

/// The kept folds are the left folds of the prefixes.
proof fn lemma_chained_fold1<T: Copy, F: Fn(T, T) -> T>(op: F, elems: Seq<T>, folds: Seq<T>, g: spec_fn(T, T) -> T, k: int)
    requires
        SWAG::<T, F>::chained(op, elems, folds),
        forall|a: T, b: T, v: T| #[trigger] call_ensures(op, (a, b), v) ==> v == g(a, b),
        0 <= k < elems.len(),
    ensures
        folds[k] == fold1(elems.subrange(0, k + 1), g),
    decreases k,
{
    if k > 0 {
        lemma_chained_fold1(op, elems, folds, g, k - 1);
        let p = elems.subrange(0, k + 1);
        assert(p.drop_last() =~= elems.subrange(0, k));
        assert(call_ensures(op, (folds[k - 1], elems[k]), folds[k]));
        assert(folds[k] == g(folds[k - 1], elems[k]));
    }
}

proof fn lemma_fold1_append<T>(a: Seq<T>, b: Seq<T>, g: spec_fn(T, T) -> T)
    requires
        a.len() > 0,
        b.len() > 0,
        associative(g),
    ensures
        fold1(a + b, g) == g(fold1(a, g), fold1(b, g)),
    decreases b.len(),
{
    if b.len() == 1 {
        assert((a + b).drop_last() =~= a);
    } else {
        lemma_fold1_append(a, b.drop_last(), g);
        assert((a + b).drop_last() =~= a + b.drop_last());
        assert(g(g(fold1(a, g), fold1(b.drop_last(), g)), b.last()) == g(fold1(a, g), g(fold1(b.drop_last(), g), b.last())));
    }
}

proof fn lemma_fold1_reverse<T>(a: Seq<T>, g: spec_fn(T, T) -> T)
    requires
        a.len() > 0,
        associative(g),
        commutative(g),
    ensures
        fold1(a.reverse(), g) == fold1(a, g),
    decreases a.len(),
{
    if a.len() > 1 {
        let p = a.drop_last();
        lemma_fold1_reverse(p, g);
        assert(a.reverse() =~= seq![a.last()] + p.reverse());
        lemma_fold1_append(seq![a.last()], p.reverse(), g);
        assert(fold1(seq![a.last()], g) == a.last());
        assert(g(a.last(), fold1(p, g)) == g(fold1(p, g), a.last()));
    } else {
        assert(a.reverse() =~= a);
    }
}

} // verus!
