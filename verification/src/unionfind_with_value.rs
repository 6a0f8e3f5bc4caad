//! Union-find whose classes carry a value; joining two classes combines
//! their values with a user function.
use vstd::prelude::*;
use crate::uf_model::{
    forest_wf, identity_seq, join_roots, count_in, class_size, num_classes, members, nonempty_rows,
    groups_of, lemma_identity_wf, lemma_compress, lemma_join_wf, lemma_count_two_le,
    lemma_count_join, lemma_count_identity, lemma_forest_at, lemma_count_le, lemma_count_self_pos,
    lemma_count_roots_join, lemma_count_roots_identity, lemma_count_roots_le,
};

verus! {

/// Union-find with a value per class; `merge(x, y)` combines two values.
pub struct UnionFindWithValue<T, F> {
    parent: Vec<isize>,
    values: Vec<Option<T>>,
    f: F,
    g: usize,
    roots: Ghost<Seq<int>>,
    rank: Ghost<Seq<nat>>,
    bound: Ghost<nat>,
}

impl<T, F> View for UnionFindWithValue<T, F> {
    type V = Seq<int>;

    /// The representative of every element.
    closed spec fn view(&self) -> Seq<int> {
        self.roots@
    }
}

impl<T, F: Fn(T, T) -> T> UnionFindWithValue<T, F> {
    spec fn par_seq(&self) -> Seq<int> {
        Seq::new(
            self.parent@.len(),
            |i: int| if self.parent@[i] < 0 { i } else { self.parent@[i] as int },
        )
    }

    /// The value of the class whose representative is `r`.
    pub closed spec fn value_of(&self, r: int) -> T {
        self.values@[r]->0
    }

    /// The function that combines the values of two classes.
    pub closed spec fn merge_fn(&self) -> F {
        self.f
    }

    pub closed spec fn find_measure(&self, i: int) -> int {
        self.bound@ - self.rank@[i]
    }

    /// The structure is internally consistent.
    pub closed spec fn wf(&self) -> bool {
        &&& self.parent@.len() == self.roots@.len()
        &&& self.values@.len() == self.roots@.len()
        &&& self.roots@.len() <= isize::MAX
        &&& forest_wf(self.par_seq(), self.roots@, self.rank@, self.bound@)
        &&& self.sizes_ok()
        &&& self.g == num_classes(self.roots@)
        &&& forall|a: T, b: T| #[trigger] call_requires(self.f, (a, b))
    }

    /// Every vertex's representative is a vertex and its own representative,
    /// so the classes are the vertices sharing a representative and the
    /// representatives are the vertices that represent themselves.
    pub proof fn lemma_representatives(&self)
        requires
            self.wf(),
        ensures
            forall|i: int| 0 <= i < self@.len() ==> 0 <= #[trigger] self@[i] < self@.len() && self@[self@[i]] == self@[i],
    {
        assert forall|i: int| 0 <= i < self@.len() implies 0 <= #[trigger] self@[i] < self@.len() && self@[self@[i]] == self@[i] by {
            lemma_forest_at(self.par_seq(), self.roots@, self.rank@, self.bound@, i);
        }
    }

    #[verifier::opaque]
    spec fn sizes_ok(&self) -> bool {
        forall|r: int|
            0 <= r < self.roots@.len() && #[trigger] self.roots@[r] == r ==> {
                &&& self.parent@[r] == -(class_size(self.roots@, r) as int)
                &&& self.values@[r] is Some
            }
    }

    proof fn lemma_size_at(&self, r: int)
        requires
            self.sizes_ok(),
            0 <= r < self.roots@.len(),
            self.roots@[r] == r,
        ensures
            self.parent@[r] == -(class_size(self.roots@, r) as int),
            self.values@[r] is Some,
    {
        reveal(UnionFindWithValue::sizes_ok);
    }

    /// One class per value; `merge(x, y)` combines the values of two classes.
    pub fn new(values: Vec<T>, merge: F) -> (uf: Self)
        requires
            values@.len() <= isize::MAX,
            forall|a: T, b: T| #[trigger] call_requires(merge, (a, b)),
        ensures
            uf.wf(),
            uf@ == identity_seq(values@.len()),
            uf.merge_fn() == merge,
            forall|r: int| 0 <= r < values@.len() ==> uf.value_of(r) == values@[r],
    {
        let g = values.len();
        let ghost vs = values@;
        let mut parent: Vec<isize> = Vec::new();
        let mut opts: Vec<Option<T>> = Vec::new();
        let mut values = values;
        while values.len() > 0
            invariant
                parent@.len() + values@.len() == vs.len(),
                opts@.len() == parent@.len(),
                values@ == vs.subrange(0, values@.len() as int),
                forall|t: int| 0 <= t < parent@.len() ==> parent@[t] == -1,
                forall|t: int|
                    0 <= t < opts@.len() ==> opts@[t] == Some(vs[vs.len() - 1 - t]),
            decreases values@.len(),
        {
            let v = values.pop().unwrap();
            parent.push(-1);
            opts.push(Some(v));
        }
        let mut rev: Vec<Option<T>> = Vec::new();
        while opts.len() > 0
            invariant
                rev@.len() + opts@.len() == vs.len(),
                forall|t: int|
                    0 <= t < opts@.len() ==> opts@[t] == Some(vs[vs.len() - 1 - t]),
                forall|t: int| 0 <= t < rev@.len() ==> rev@[t] == Some(vs[t]),
            decreases opts@.len(),
        {
            let v = opts.pop().unwrap();
            rev.push(v);
        }
        let uf = UnionFindWithValue {
            parent,
            values: rev,
            f: merge,
            g,
            roots: Ghost(identity_seq(g as nat)),
            rank: Ghost(Seq::new(g as nat, |i: int| 0nat)),
            bound: Ghost(0),
        };
        proof {
            lemma_identity_wf(g as nat);
            assert(uf.par_seq() =~= identity_seq(g as nat));
            reveal(UnionFindWithValue::sizes_ok);
            assert forall|r: int|
                0 <= r < g && #[trigger] uf.roots@[r] == r implies uf.parent@[r] == -(class_size(
                uf.roots@,
                r,
            ) as int) && uf.values@[r] is Some by {
                lemma_count_identity(g as nat, r, g as int);
            }
            lemma_count_roots_identity(g as nat, g as int);
        }
        uf
    }

    /// The number of elements.
    pub fn len(&self) -> (n: usize)
        requires
            self.wf(),
        ensures
            n == self@.len(),
    {
        self.parent.len()
    }

    /// The number of classes.
    pub fn num_of_groups(&self) -> (n: usize)
        requires
            self.wf(),
        ensures
            n == num_classes(self@),
    {
        self.g
    }

    /// The representative of the class of `i`.
    pub fn leader(&self, i: usize) -> (r: usize)
        requires
            self.wf(),
            i < self@.len(),
        ensures
            r == self@[i as int],
            r < self@.len(),
            self@[r as int] == r,
    {
        let mut cur = i;
        proof {
            lemma_forest_at(self.par_seq(), self.roots@, self.rank@, self.bound@, i as int);
        }
        while self.parent[cur] >= 0
            invariant
                self.wf(),
                cur < self@.len(),
                self@[cur as int] == self@[i as int],
            decreases self.find_measure(cur as int),
        {
            proof {
                lemma_forest_at(self.par_seq(), self.roots@, self.rank@, self.bound@, cur as int);
                assert(self.par_seq()[cur as int] == self.parent@[cur as int] as int);
                if self.roots@[cur as int] == cur as int {
                    self.lemma_size_at(cur as int);
                    lemma_count_self_pos(self.roots@, cur as int, self.roots@.len() as int);
                }
                let k = self.parent@[cur as int] as int;
                lemma_forest_at(self.par_seq(), self.roots@, self.rank@, self.bound@, k);
            }
            cur = self.parent[cur] as usize;
        }
        proof {
            lemma_forest_at(self.par_seq(), self.roots@, self.rank@, self.bound@, cur as int);
        }
        cur
    }

    /// Whether `i` and `j` are in the same class.
    pub fn is_same(&self, i: usize, j: usize) -> (b: bool)
        requires
            self.wf(),
            i < self@.len(),
            j < self@.len(),
        ensures
            b == (self@[i as int] == self@[j as int]),
    {
        self.leader(i) == self.leader(j)
    }

    /// Applies `f` to the value of the class of `i`.
    pub fn tap<U, G: FnMut(&T) -> U>(&self, i: usize, f: G) -> (u: U)
        requires
            self.wf(),
            i < self@.len(),
            call_requires(f, (&self.value_of(self@[i as int]),)),
        ensures
            call_ensures(f, (&self.value_of(self@[i as int]),), u),
    {
        let mut f = f;
        let r = self.leader(i);
        proof {
            lemma_forest_at(self.par_seq(), self.roots@, self.rank@, self.bound@, i as int);
            self.lemma_size_at(r as int);
        }
        let v = self.values[r].as_ref().unwrap();
        f(v)
    }

    /// The value of the class of `i`.
    pub fn get(&self, i: usize) -> (v: &T)
        requires
            self.wf(),
            i < self@.len(),
        ensures
            *v == self.value_of(self@[i as int]),
    {
        let r = self.leader(i);
        proof {
            lemma_forest_at(self.par_seq(), self.roots@, self.rank@, self.bound@, i as int);
            self.lemma_size_at(r as int);
        }
        self.values[r].as_ref().unwrap()
    }

    /// The value of the class of `i`, to be modified in place.
    pub fn get_mut(&mut self, i: usize) -> (v: &mut T)
        requires
            old(self).wf(),
            i < old(self)@.len(),
        ensures
            *v == old(self).value_of(old(self)@[i as int]),
            final(self).wf(),
            final(self)@ == old(self)@,
            final(self).merge_fn() == old(self).merge_fn(),
            final(self).value_of(old(self)@[i as int]) == *final(v),
            forall|r: int|
                0 <= r < old(self)@.len() && r != old(self)@[i as int] ==> final(self).value_of(r)
                    == old(self).value_of(r),
    {
        let r = self.leader(i);
        proof {
            lemma_forest_at(self.par_seq(), self.roots@, self.rank@, self.bound@, i as int);
            self.lemma_size_at(r as int);
            reveal(UnionFindWithValue::sizes_ok);
        }
        self.values[r].as_mut().unwrap()
    }

    /// The number of elements in the class of `i`.
    pub fn size(&self, i: usize) -> (s: usize)
        requires
            self.wf(),
            i < self@.len(),
        ensures
            s == class_size(self@, self@[i as int]),
    {
        let r = self.leader(i);
        proof {
            lemma_forest_at(self.par_seq(), self.roots@, self.rank@, self.bound@, i as int);
            self.lemma_size_at(r as int);
            lemma_count_le(self.roots@, r as int, self.roots@.len() as int);
        }
        (-self.parent[r]) as usize
    }

    /// Points `i` straight at its root.
    fn compress(&mut self, i: usize) -> (r: usize)
        requires
            old(self).wf(),
            i < old(self)@.len(),
        ensures
            final(self).wf(),
            final(self)@ == old(self)@,
            final(self).merge_fn() == old(self).merge_fn(),
            forall|t: int| 0 <= t < old(self)@.len() ==> final(self).values@[t] == old(self).values@[t],
            r == old(self)@[i as int],
    {
        let r = self.leader(i);
        if r != i {
            let ghost before = self.par_seq();
            let ghost prev = *self;
            proof {
                lemma_forest_at(before, self.roots@, self.rank@, self.bound@, i as int);
            }
            self.parent[i] = r as isize;
            proof {
                lemma_compress(before, self.roots@, self.rank@, self.bound@, i as int);
                assert(self.par_seq() =~= before.update(i as int, self.roots@[i as int]));
                reveal(UnionFindWithValue::sizes_ok);
                assert forall|q: int|
                    0 <= q < self.roots@.len() && #[trigger] self.roots@[q] == q implies self.parent@[q]
                    == -(class_size(self.roots@, q) as int) && self.values@[q] is Some by {
                    prev.lemma_size_at(q);
                }
            }
        }
        r
    }

    /// Joins the classes of `i` and `j`; returns whether they were distinct.
    /// The larger class keeps its representative (the class of `i` on a
    /// tie) and its value becomes `merge(larger value, smaller value)`.
    pub fn merge(&mut self, i: usize, j: usize) -> (joined: bool)
        requires
            old(self).wf(),
            i < old(self)@.len(),
            j < old(self)@.len(),
        ensures
            final(self).wf(),
            final(self).merge_fn() == old(self).merge_fn(),
            joined == (old(self)@[i as int] != old(self)@[j as int]),
            !joined ==> final(self)@ == old(self)@ && forall|r: int|
                0 <= r < old(self)@.len() ==> final(self).value_of(r) == old(self).value_of(r),
            joined ==> {
                let ri = old(self)@[i as int];
                let rj = old(self)@[j as int];
                let big = if class_size(old(self)@, ri) < class_size(old(self)@, rj) {
                    rj
                } else {
                    ri
                };
                let small = if big == ri { rj } else { ri };
                &&& final(self)@ == join_roots(old(self)@, big, small)
                &&& call_ensures(
                    old(self).merge_fn(),
                    (old(self).value_of(big), old(self).value_of(small)),
                    final(self).value_of(big),
                )
                &&& forall|r: int|
                    0 <= r < old(self)@.len() && r != ri && r != rj ==> final(self).value_of(r)
                        == old(self).value_of(r)
                &&& num_classes(final(self)@) == num_classes(old(self)@) - 1
                &&& class_size(final(self)@, big) == class_size(old(self)@, ri) + class_size(old(self)@, rj)
                &&& final(self)@[i as int] == big && final(self)@[j as int] == big
            },
    {
        let mut a = self.compress(i);
        let mut b = self.compress(j);
        if a == b {
            return false;
        }
        proof {
            lemma_forest_at(self.par_seq(), self.roots@, self.rank@, self.bound@, i as int);
            lemma_forest_at(self.par_seq(), self.roots@, self.rank@, self.bound@, j as int);
            lemma_count_two_le(self.roots@, a as int, b as int, self.roots@.len() as int);
            self.lemma_size_at(a as int);
            self.lemma_size_at(b as int);
            lemma_count_roots_join(self.roots@, a as int, b as int, self.roots@.len() as int);
            lemma_count_roots_le(join_roots(self.roots@, a as int, b as int), self.roots@.len() as int);
        }
        self.g = self.g - 1;
        if -self.parent[a] < -self.parent[b] {
            std::mem::swap(&mut a, &mut b);
        }
        let ghost par = self.par_seq();
        let ghost rt = self.roots@;
        let ghost rank = self.rank@;
        let ghost bound = self.bound@;
        let ghost prev = *self;
        let size = self.parent[a] + self.parent[b];
        self.parent[a] = size;
        self.parent[b] = a as isize;
        let mut va: Option<T> = None;
        let mut vb: Option<T> = None;
        std::mem::swap(&mut va, &mut self.values[a]);
        std::mem::swap(&mut vb, &mut self.values[b]);
        let x = va.unwrap();
        let y = vb.unwrap();
        let z = (self.f)(x, y);
        self.values[a] = Some(z);
        proof {
            let ra = a as int;
            let rb = b as int;
            let new_rank = rank.update(ra, if rank[ra] > rank[rb] { rank[ra] } else { rank[rb] + 1 });
            lemma_join_wf(par, rt, rank, bound, ra, rb);
            self.roots@ = join_roots(rt, ra, rb);
            self.rank@ = new_rank;
            self.bound@ = bound + 1;
            assert(self.par_seq() =~= par.update(rb, ra));
            lemma_count_roots_join(rt, ra, rb, rt.len() as int);
            reveal(UnionFindWithValue::sizes_ok);
            assert forall|r: int|
                0 <= r < self.roots@.len() && #[trigger] self.roots@[r] == r implies self.parent@[r]
                == -(class_size(self.roots@, r) as int) && self.values@[r] is Some by {
                lemma_count_join(rt, ra, rb, r, rt.len() as int);
                if r != ra {
                    assert(rt[r] == r);
                    prev.lemma_size_at(r);
                }
            }
            lemma_count_join(rt, ra, rb, ra, rt.len() as int);
        }
        true
    }

    /// Every class as the increasing list of its elements, ordered by
    /// their representatives.
    pub fn groups(&mut self) -> (gs: Vec<Vec<usize>>)
        requires
            old(self).wf(),
        ensures
            *final(self) == *old(self),
            gs@.map_values(|g: Vec<usize>| g@) == groups_of(old(self)@),
    {
        let n = self.parent.len();
        let ghost rt = self.roots@;
        let mut rows: Vec<Vec<usize>> = Vec::new();
        let mut k: usize = 0;
        while k < n
            invariant
                k <= n,
                rows@.len() == k,
                forall|r: int| 0 <= r < k ==> (#[trigger] rows@[r])@ == Seq::<usize>::empty(),
            decreases n - k,
        {
            rows.push(Vec::new());
            k += 1;
        }
        let mut i: usize = 0;
        while i < n
            invariant
                i <= n,
                n == self.parent@.len(),
                self.wf(),
                self@ == rt,
                rt.len() == n,
                rows@.len() == n,
                forall|r: int| 0 <= r < n ==> (#[trigger] rows@[r])@ == members(rt, r, i as int),
            decreases n - i,
        {
            proof {
                lemma_forest_at(self.par_seq(), self.roots@, self.rank@, self.bound@, i as int);
            }
            let r = self.leader(i);
            let mut row: Vec<usize> = Vec::new();
            std::mem::swap(&mut row, &mut rows[r]);
            row.push(i);
            std::mem::swap(&mut row, &mut rows[r]);
            i += 1;
        }
        let ghost full = Seq::new(n as nat, |r: int| members(rt, r, n as int));
        let mut gs: Vec<Vec<usize>> = Vec::new();
        let mut r: usize = 0;
        while r < n
            invariant
                r <= n,
                rows@.len() == n,
                full.len() == n,
                forall|t: int| r <= t < n ==> (#[trigger] rows@[t])@ == full[t],
                gs@.map_values(|g: Vec<usize>| g@) == nonempty_rows(full, r as int),
            decreases n - r,
        {
            if rows[r].len() > 0 {
                let mut row: Vec<usize> = Vec::new();
                std::mem::swap(&mut row, &mut rows[r]);
                gs.push(row);
                proof {
                    assert(gs@.map_values(|g: Vec<usize>| g@) =~= nonempty_rows(full, r as int).push(
                        full[r as int],
                    ));
                }
            }
            r += 1;
        }
        gs
    }
}

} // verus!
