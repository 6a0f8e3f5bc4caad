//! A compact union-find: one signed word per vertex, negative at a root
//! (minus the class size), otherwise the parent.  Union by size, path
//! compression.
use vstd::prelude::*;
use crate::uf_model::{
    forest_wf, identity_seq, join_roots, count_in, class_size, members, nonempty_rows, groups_of,
    lemma_identity_wf, lemma_rank_root, lemma_compress, lemma_join_wf, lemma_count_two_le,
    lemma_count_join, lemma_count_identity, lemma_forest_at, lemma_forest_len, lemma_count_self_pos,
    lemma_count_le,
};

verus! {

pub struct UnionFind {
    parent: Vec<isize>,
    n: usize,
    roots: Ghost<Seq<int>>,
    rank: Ghost<Seq<nat>>,
    bound: Ghost<nat>,
}

impl View for UnionFind {
    type V = Seq<int>;

    /// The representative of every vertex.
    closed spec fn view(&self) -> Seq<int> {
        self.roots@
    }
}

impl UnionFind {
    /// Parent pointers, with a root pointing at itself.
    spec fn par_seq(&self) -> Seq<int> {
        Seq::new(
            self.parent@.len(),
            |i: int| if self.parent@[i] < 0 { i } else { self.parent@[i] as int },
        )
    }

    /// Distance bound used to show that finding a root terminates.
    pub closed spec fn find_measure(&self, i: int) -> int {
        self.bound@ - self.rank@[i]
    }

    /// The structure is internally consistent.
    pub closed spec fn wf(&self) -> bool {
        &&& self.parent@.len() == self.n
        &&& self.n <= isize::MAX
        &&& self.roots@.len() == self.n
        &&& forest_wf(self.par_seq(), self.roots@, self.rank@, self.bound@)
        &&& self.sizes_ok()
    }

    /// Every vertex's representative is a vertex and its own representative,
    /// so the classes are the vertices sharing a representative and the
    /// representatives are the vertices that represent themselves.
    pub proof fn lemma_representatives(&self)
        requires
            self.wf(),
        ensures
            forall|i: int| 0 <= i < self@.len() ==> 0 <= #[trigger] self@[i] < self@.len() && self@[self@[i]] == self@[i],
    {
        assert forall|i: int| 0 <= i < self@.len() implies 0 <= #[trigger] self@[i] < self@.len() && self@[self@[i]] == self@[i] by {
            lemma_forest_at(self.par_seq(), self.roots@, self.rank@, self.bound@, i);
        }
    }

    /// Every root stores minus the size of its class.
    #[verifier::opaque]
    spec fn sizes_ok(&self) -> bool {
        forall|r: int|
            0 <= r < self.n && #[trigger] self.roots@[r] == r ==> self.parent@[r] == -(class_size(
                self.roots@,
                r,
            ) as int)
    }

    proof fn lemma_size_at(&self, r: int)
        requires
            self.sizes_ok(),
            0 <= r < self.n,
            self.roots@[r] == r,
        ensures
            self.parent@[r] == -(class_size(self.roots@, r) as int),
    {
        reveal(UnionFind::sizes_ok);
    }

    /// Creates `n` singleton classes.
    pub fn new(n: usize) -> (uf: Self)
        requires
            n <= isize::MAX,
        ensures
            uf.wf(),
            uf@ == identity_seq(n as nat),
    {
        let mut parent: Vec<isize> = Vec::new();
        let mut k: usize = 0;
        while k < n
            invariant
                k <= n,
                parent@.len() == k,
                forall|t: int| 0 <= t < k ==> parent@[t] == -1,
            decreases n - k,
        {
            parent.push(-1);
            k += 1;
        }
        let uf = UnionFind {
            parent,
            n,
            roots: Ghost(identity_seq(n as nat)),
            rank: Ghost(Seq::new(n as nat, |i: int| 0nat)),
            bound: Ghost(0),
        };
        proof {
            lemma_identity_wf(n as nat);
            assert(uf.par_seq() =~= identity_seq(n as nat));
            reveal(UnionFind::sizes_ok);
            assert forall|r: int| 0 <= r < n && #[trigger] uf.roots@[r] == r implies uf.parent@[r]
                == -(class_size(uf.roots@, r) as int) by {
                lemma_count_identity(n as nat, r, n as int);
            }
        }
        uf
    }

    /// The representative of the class of `i`; compresses the path.
    pub fn leader(&mut self, i: usize) -> (r: usize)
        requires
            old(self).wf(),
            i < old(self)@.len(),
        ensures
            final(self).wf(),
            final(self)@ == old(self)@,
            r == old(self)@[i as int],
            r < old(self)@.len(),
            old(self)@[r as int] == r,
        decreases old(self).find_measure(i as int),
    {
        let k = self.parent[i];
        proof {
            lemma_forest_at(self.par_seq(), self.roots@, self.rank@, self.bound@, i as int);
        }
        if k >= 0 {
            proof {
                assert(self.par_seq()[i as int] == k as int);
                if self.roots@[i as int] == i as int {
                    self.lemma_size_at(i as int);
                    lemma_count_self_pos(self.roots@, i as int, self.n as int);
                    assert(false);
                }
                lemma_forest_at(self.par_seq(), self.roots@, self.rank@, self.bound@, k as int);
                assert(self.find_measure(k as int) < self.find_measure(i as int));
            }
            let j = self.leader(k as usize);
            let ghost before = self.par_seq();
            let ghost prev = *self;
            self.parent[i] = j as isize;
            proof {
                lemma_forest_at(before, self.roots@, self.rank@, self.bound@, i as int);
                lemma_compress(before, self.roots@, self.rank@, self.bound@, i as int);
                assert(self.par_seq() =~= before.update(i as int, self.roots@[i as int]));
                assert(self.roots@[i as int] != i as int);
                reveal(UnionFind::sizes_ok);
                assert forall|r: int|
                    0 <= r < self.n && #[trigger] self.roots@[r] == r implies self.parent@[r]
                    == -(class_size(self.roots@, r) as int) by {
                    prev.lemma_size_at(r);
                }
            }
            j
        } else {
            proof {
                assert(self.par_seq()[i as int] == i as int);
            }
            i
        }
    }

    /// Joins the classes of `i` and `j`; returns whether they were distinct.
    /// The larger class keeps its representative (the class of `i` on a tie).
    pub fn merge(&mut self, i: usize, j: usize) -> (joined: bool)
        requires
            old(self).wf(),
            i < old(self)@.len(),
            j < old(self)@.len(),
        ensures
            final(self).wf(),
            joined == (old(self)@[i as int] != old(self)@[j as int]),
            !joined ==> final(self)@ == old(self)@,
            joined ==> {
                let ri = old(self)@[i as int];
                let rj = old(self)@[j as int];
                let big = if class_size(old(self)@, ri) < class_size(old(self)@, rj) {
                    rj
                } else {
                    ri
                };
                let small = if big == ri { rj } else { ri };
                final(self)@ == join_roots(old(self)@, big, small)
            },
    {
        let ghost old_roots = self.roots@;
        let mut a = self.leader(i);
        let mut b = self.leader(j);
        if a == b {
            return false;
        }
        proof {
            lemma_forest_at(self.par_seq(), self.roots@, self.rank@, self.bound@, i as int);
            lemma_forest_at(self.par_seq(), self.roots@, self.rank@, self.bound@, j as int);
            assert(self.roots@[a as int] == a as int);
            assert(self.roots@[b as int] == b as int);
            lemma_count_two_le(self.roots@, a as int, b as int, self.n as int);
            self.lemma_size_at(a as int);
            self.lemma_size_at(b as int);
        }
        if self.parent[a] > self.parent[b] {
            std::mem::swap(&mut a, &mut b);
        }
        let ghost par = self.par_seq();
        let ghost rt = self.roots@;
        let ghost rank = self.rank@;
        let ghost bound = self.bound@;
        let ghost prev = *self;
        let size = self.parent[a] + self.parent[b];
        self.parent[a] = size;
        self.parent[b] = a as isize;
        proof {
            let ra = a as int;
            let rb = b as int;
            let new_rank = rank.update(ra, if rank[ra] > rank[rb] { rank[ra] } else { rank[rb] + 1 });
            lemma_join_wf(par, rt, rank, bound, ra, rb);
            self.roots@ = join_roots(rt, ra, rb);
            self.rank@ = new_rank;
            self.bound@ = bound + 1;
            assert(self.par_seq() =~= par.update(rb, ra));
            reveal(UnionFind::sizes_ok);
            assert forall|r: int|
                0 <= r < self.n && #[trigger] self.roots@[r] == r implies self.parent@[r]
                == -(class_size(self.roots@, r) as int) by {
                lemma_count_join(rt, ra, rb, r, self.n as int);
                if r != ra {
                    assert(rt[r] == r);
                    prev.lemma_size_at(r);
                }
            }
        }
        true
    }

    /// Whether `i` and `j` are in the same class.
    pub fn same(&mut self, i: usize, j: usize) -> (b: bool)
        requires
            old(self).wf(),
            i < old(self)@.len(),
            j < old(self)@.len(),
        ensures
            final(self).wf(),
            final(self)@ == old(self)@,
            b == (old(self)@[i as int] == old(self)@[j as int]),
    {
        let a = self.leader(i);
        let b = self.leader(j);
        a == b
    }

    /// Number of vertices in the class of `i`.
    pub fn size(&mut self, i: usize) -> (s: usize)
        requires
            old(self).wf(),
            i < old(self)@.len(),
        ensures
            final(self).wf(),
            final(self)@ == old(self)@,
            s == class_size(old(self)@, old(self)@[i as int]),
    {
        let r = self.leader(i);
        proof {
            lemma_forest_at(self.par_seq(), self.roots@, self.rank@, self.bound@, i as int);
            self.lemma_size_at(r as int);
            lemma_count_le(self.roots@, r as int, self.n as int);
        }
        (-self.parent[r]) as usize
    }

    /// Every class as the increasing list of its vertices, classes ordered
    /// by their representatives.
    pub fn groups(&mut self) -> (gs: Vec<Vec<usize>>)
        requires
            old(self).wf(),
        ensures
            final(self).wf(),
            final(self)@ == old(self)@,
            gs@.map_values(|g: Vec<usize>| g@) == groups_of(old(self)@),
    {
        let n = self.n;
        let ghost rt = self.roots@;
        let mut rows: Vec<Vec<usize>> = Vec::new();
        let mut k: usize = 0;
        while k < n
            invariant
                k <= n,
                rows@.len() == k,
                forall|r: int| 0 <= r < k ==> (#[trigger] rows@[r])@ == Seq::<usize>::empty(),
            decreases n - k,
        {
            rows.push(Vec::new());
            k += 1;
        }
        let mut i: usize = 0;
        while i < n
            invariant
                i <= n,
                n == self.n,
                self.wf(),
                self@ == rt,
                rt.len() == n,
                rows@.len() == n,
                forall|r: int| 0 <= r < n ==> (#[trigger] rows@[r])@ == members(rt, r, i as int),
            decreases n - i,
        {
            proof {
                lemma_forest_at(self.par_seq(), self.roots@, self.rank@, self.bound@, i as int);
            }
            let r = self.leader(i);
            let mut row: Vec<usize> = Vec::new();
            std::mem::swap(&mut row, &mut rows[r]);
            row.push(i);
            std::mem::swap(&mut row, &mut rows[r]);
            i += 1;
        }
        let ghost full = Seq::new(n as nat, |r: int| members(rt, r, n as int));
        let mut gs: Vec<Vec<usize>> = Vec::new();
        let mut r: usize = 0;
        while r < n
            invariant
                r <= n,
                rows@.len() == n,
                full.len() == n,
                forall|t: int| r <= t < n ==> (#[trigger] rows@[t])@ == full[t],
                gs@.map_values(|g: Vec<usize>| g@) == nonempty_rows(full, r as int),
            decreases n - r,
        {
            if rows[r].len() > 0 {
                let mut row: Vec<usize> = Vec::new();
                std::mem::swap(&mut row, &mut rows[r]);
                gs.push(row);
                proof {
                    assert(gs@.map_values(|g: Vec<usize>| g@) =~= nonempty_rows(full, r as int).push(
                        full[r as int],
                    ));
                }
            }
            r += 1;
        }
        gs
    }
}

} // verus!
