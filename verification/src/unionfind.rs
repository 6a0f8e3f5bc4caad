//! Union-find over the vertices `0 .. n` of a graph that also counts, for
//! every connected component, its vertices and the edges joined into it.
use vstd::prelude::*;
use crate::uf_model::{
    linked, classes_are_links, lemma_links_identity, lemma_links_same, lemma_links_join,
    pair_count, lemma_pair_count_push, lemma_pair_count_join,
    forest_wf, identity_seq, join_roots, count_in, class_size, count_roots, num_classes, members,
    nonempty_rows, groups_of, lemma_identity_wf, lemma_compress, lemma_join_wf,
    lemma_count_two_le, lemma_count_join, lemma_count_identity, lemma_forest_at, lemma_count_le,
    lemma_count_roots_join, lemma_count_roots_identity, lemma_count_roots_le,
};

verus! {

/// One connected component: its representative, vertex count and edge count.
#[derive(Debug, Clone, Copy)]
pub struct UnionFindComponent {
    root: usize,
    vertices: usize,
    edges: usize,
}

impl UnionFindComponent {
    pub closed spec fn root_spec(&self) -> usize {
        self.root
    }

    pub closed spec fn vertices_spec(&self) -> usize {
        self.vertices
    }

    pub closed spec fn edges_spec(&self) -> usize {
        self.edges
    }

    /// The singleton component `{i}` without edges.
    pub fn new(i: usize) -> (c: Self)
        ensures
            c.root_spec() == i,
            c.vertices_spec() == 1,
            c.edges_spec() == 0,
    {
        Self { root: i, vertices: 1, edges: 0 }
    }

    /// The representative vertex.
    pub fn root(&self) -> (r: usize)
        ensures
            r == self.root_spec(),
    {
        self.root
    }

    /// The number of vertices.
    pub fn vertices(&self) -> (v: usize)
        ensures
            v == self.vertices_spec(),
    {
        self.vertices
    }

    /// The number of edges.
    pub fn edges(&self) -> (e: usize)
        ensures
            e == self.edges_spec(),
    {
        self.edges
    }
}

/// The representatives in order of the first vertex of each class.
pub open spec fn roots_in_order(rt: Seq<int>, k: int) -> Seq<int>
    decreases k,
{
    if k <= 0 {
        Seq::empty()
    } else if roots_in_order(rt, k - 1).contains(rt[k - 1]) {
        roots_in_order(rt, k - 1)
    } else {
        roots_in_order(rt, k - 1).push(rt[k - 1])
    }
}

pub struct UnionFind {
    components: Vec<UnionFindComponent>,
    len: usize,
    roots: Ghost<Seq<int>>,
    rank: Ghost<Seq<nat>>,
    bound: Ghost<nat>,
    joins: Ghost<nat>,
    pairs: Ghost<Seq<(int, int)>>,
}

impl View for UnionFind {
    type V = Seq<int>;

    /// The representative of every vertex.
    closed spec fn view(&self) -> Seq<int> {
        self.roots@
    }
}

impl UnionFind {
    spec fn par_seq(&self) -> Seq<int> {
        Seq::new(self.components@.len(), |i: int| self.components@[i].root as int)
    }

    /// Number of edges joined into the class whose representative is `r`.
    pub closed spec fn edges_of(&self, r: int) -> nat {
        self.components@[r].edges as nat
    }

    pub closed spec fn find_measure(&self, i: int) -> int {
        self.bound@ - self.rank@[i]
    }

    /// The structure is internally consistent.
    pub closed spec fn wf(&self) -> bool {
        &&& self.components@.len() == self.roots@.len()
        &&& forest_wf(self.par_seq(), self.roots@, self.rank@, self.bound@)
        &&& self.sizes_ok()
        &&& self.len == num_classes(self.roots@)
        &&& self.len + self.joins@ == self.roots@.len()
        &&& classes_are_links(self.roots@, self.pairs@)
        &&& self.edges_ok()
    }

    /// Every class counts the merged pairs whose first vertex lies in it.
    #[verifier::opaque]
    spec fn edges_ok(&self) -> bool {
        forall|r: int|
            0 <= r < self.roots@.len() && #[trigger] self.roots@[r] == r
                ==> self.components@[r].edges == pair_count(self.roots@, self.pairs@, r, self.pairs@.len() as int)
    }

    proof fn lemma_edges_at(&self, r: int)
        requires
            self.edges_ok(),
            0 <= r < self.roots@.len(),
            self.roots@[r] == r,
        ensures
            self.components@[r].edges == pair_count(self.roots@, self.pairs@, r, self.pairs@.len() as int),
    {
        reveal(UnionFind::edges_ok);
    }

    /// Law: the edge count of a component is the number of calls of `merge`
    /// whose first vertex lies in it, joining or not.
    pub proof fn lemma_edges_count_merges(&self, r: int)
        requires
            self.wf(),
            0 <= r < self@.len(),
            self@[r] == r,
        ensures
            self.edges_of(r) == pair_count(self@, self.merged_pairs(), r, self.merged_pairs().len() as int),
    {
        self.lemma_edges_at(r);
    }

    /// The pairs passed to `merge` so far, in order.
    pub closed spec fn merged_pairs(&self) -> Seq<(int, int)> {
        self.pairs@
    }

    /// Law: two vertices share a representative exactly when a chain of
    /// pairs passed to `merge` links them, that is, when the least
    /// equivalence holding every merged pair relates them.
    pub proof fn lemma_same_iff_linked(&self)
        requires
            self.wf(),
        ensures
            forall|u: int, v: int| 0 <= u < self@.len() && 0 <= v < self@.len()
                ==> (#[trigger] self@[u] == #[trigger] self@[v] <==> linked(self.merged_pairs(), u, v)),
    {
    }

    /// The number of calls of `merge` that joined two components.
    pub closed spec fn joins(&self) -> nat {
        self.joins@
    }

    /// Every vertex's representative is a vertex and its own representative,
    /// so the classes are the vertices sharing a representative and the
    /// representatives are the vertices that represent themselves.
    pub proof fn lemma_representatives(&self)
        requires
            self.wf(),
        ensures
            forall|i: int| 0 <= i < self@.len() ==> 0 <= #[trigger] self@[i] < self@.len() && self@[self@[i]] == self@[i],
    {
        assert forall|i: int| 0 <= i < self@.len() implies 0 <= #[trigger] self@[i] < self@.len() && self@[self@[i]] == self@[i] by {
            lemma_forest_at(self.par_seq(), self.roots@, self.rank@, self.bound@, i);
        }
    }

    #[verifier::opaque]
    spec fn sizes_ok(&self) -> bool {
        forall|r: int|
            0 <= r < self.roots@.len() && #[trigger] self.roots@[r] == r
                ==> self.components@[r].vertices == class_size(self.roots@, r)
    }

    proof fn lemma_size_at(&self, r: int)
        requires
            self.sizes_ok(),
            0 <= r < self.roots@.len(),
            self.roots@[r] == r,
        ensures
            self.components@[r].vertices == class_size(self.roots@, r),
    {
        reveal(UnionFind::sizes_ok);
    }

    /// The graph with vertices `0 .. n` and no edges.
    pub fn new(n: usize) -> (uf: Self)
        ensures
            uf.wf(),
            uf@ == identity_seq(n as nat),
            forall|r: int| 0 <= r < n ==> uf.edges_of(r) == 0,
            uf.joins() == 0,
            uf.merged_pairs() == Seq::<(int, int)>::empty(),
    {
        let mut components: Vec<UnionFindComponent> = Vec::new();
        let mut k: usize = 0;
        while k < n
            invariant
                k <= n,
                components@.len() == k,
                forall|t: int|
                    0 <= t < k ==> (#[trigger] components@[t]).root == t && components@[t].vertices
                        == 1 && components@[t].edges == 0,
            decreases n - k,
        {
            components.push(UnionFindComponent::new(k));
            k += 1;
        }
        let uf = UnionFind {
            components,
            len: n,
            roots: Ghost(identity_seq(n as nat)),
            rank: Ghost(Seq::new(n as nat, |i: int| 0nat)),
            bound: Ghost(0),
            joins: Ghost(0),
            pairs: Ghost(Seq::empty()),
        };
        proof {
            lemma_identity_wf(n as nat);
            assert(uf.par_seq() =~= identity_seq(n as nat));
            reveal(UnionFind::sizes_ok);
            assert forall|r: int|
                0 <= r < n && #[trigger] uf.roots@[r] == r implies uf.components@[r].vertices
                == class_size(uf.roots@, r) by {
                lemma_count_identity(n as nat, r, n as int);
            }
            lemma_count_roots_identity(n as nat, n as int);
            lemma_links_identity(n as nat);
            reveal(UnionFind::edges_ok);
        }
        uf
    }

    /// The representative of the component of `i`; compresses the path.
    pub fn leader(&mut self, i: usize) -> (r: usize)
        requires
            old(self).wf(),
            i < old(self)@.len(),
        ensures
            final(self).wf(),
            final(self).joins() == old(self).joins(),
            final(self).merged_pairs() == old(self).merged_pairs(),
            final(self)@ == old(self)@,
            forall|t: int| 0 <= t < old(self)@.len() ==> final(self).edges_of(t) == old(self).edges_of(t),
            r == old(self)@[i as int],
            r < old(self)@.len(),
            old(self)@[r as int] == r,
        decreases old(self).find_measure(i as int),
    {
        let k = self.components[i].root;
        proof {
            lemma_forest_at(self.par_seq(), self.roots@, self.rank@, self.bound@, i as int);
        }
        if k != i {
            proof {
                lemma_forest_at(self.par_seq(), self.roots@, self.rank@, self.bound@, k as int);
                assert(self.find_measure(k as int) < self.find_measure(i as int));
            }
            let j = self.leader(k);
            let ghost before = self.par_seq();
            let ghost prev = *self;
            self.components[i].root = j;
            proof {
                lemma_forest_at(before, self.roots@, self.rank@, self.bound@, i as int);
                lemma_compress(before, self.roots@, self.rank@, self.bound@, i as int);
                assert(self.par_seq() =~= before.update(i as int, self.roots@[i as int]));
                reveal(UnionFind::sizes_ok);
                assert forall|r: int|
                    0 <= r < self.roots@.len() && #[trigger] self.roots@[r] == r implies self.components@[r].vertices
                    == class_size(self.roots@, r) by {
                    prev.lemma_size_at(r);
                }
                reveal(UnionFind::edges_ok);
                assert forall|r: int|
                    0 <= r < self.roots@.len() && #[trigger] self.roots@[r] == r implies self.components@[r].edges
                    == pair_count(self.roots@, self.pairs@, r, self.pairs@.len() as int) by {
                    prev.lemma_edges_at(r);
                }
            }
            j
        } else {
            i
        }
    }

    /// Adds the undirected edge `{i, j}`; returns whether it joined two
    /// different components.  The component with more vertices keeps its
    /// representative (the component of `i` on a tie).
    pub fn merge(&mut self, i: usize, j: usize) -> (joined: bool)
        requires
            old(self).wf(),
            i < old(self)@.len(),
            j < old(self)@.len(),
            old(self).edges_of(old(self)@[i as int]) + old(self).edges_of(old(self)@[j as int]) + 1
                <= usize::MAX,
        ensures
            final(self).wf(),
            joined == (old(self)@[i as int] != old(self)@[j as int]),
            final(self).joins() == old(self).joins() + if joined { 1nat } else { 0nat },
            final(self).merged_pairs() == old(self).merged_pairs().push((i as int, j as int)),
            !joined ==> {
                &&& final(self)@ == old(self)@
                &&& final(self).edges_of(old(self)@[i as int]) == old(self).edges_of(
                    old(self)@[i as int],
                ) + 1
                &&& forall|t: int|
                    0 <= t < old(self)@.len() && t != old(self)@[i as int] ==> final(self).edges_of(
                        t,
                    ) == old(self).edges_of(t)
            },
            joined ==> {
                let ri = old(self)@[i as int];
                let rj = old(self)@[j as int];
                let big = if class_size(old(self)@, ri) < class_size(old(self)@, rj) {
                    rj
                } else {
                    ri
                };
                let small = if big == ri { rj } else { ri };
                &&& final(self)@ == join_roots(old(self)@, big, small)
                &&& final(self).edges_of(big) == old(self).edges_of(ri) + old(self).edges_of(rj) + 1
                &&& forall|t: int|
                    0 <= t < old(self)@.len() && t != ri && t != rj ==> final(self).edges_of(t)
                        == old(self).edges_of(t)
            },
    {
        let mut a = self.leader(i);
        let mut b = self.leader(j);
        proof {
            lemma_forest_at(self.par_seq(), self.roots@, self.rank@, self.bound@, i as int);
            lemma_forest_at(self.par_seq(), self.roots@, self.rank@, self.bound@, j as int);
        }
        let ghost mid = *self;
        let ea = self.components[a].edges;
        self.components[a].edges = ea + 1;
        proof {
            assert(self.par_seq() =~= mid.par_seq());
            reveal(UnionFind::sizes_ok);
            assert forall|r: int|
                0 <= r < self.roots@.len() && #[trigger] self.roots@[r] == r implies self.components@[r].vertices
                == class_size(self.roots@, r) by {
                mid.lemma_size_at(r);
            }
        }
        if a == b {
            proof {
                lemma_links_same(self.roots@, self.pairs@, i as int, j as int);
            }
            self.pairs = Ghost(self.pairs@.push((i as int, j as int)));
            proof {
                reveal(UnionFind::edges_ok);
                assert forall|r: int|
                    0 <= r < self.roots@.len() && #[trigger] self.roots@[r] == r implies self.components@[r].edges
                    == pair_count(self.roots@, self.pairs@, r, self.pairs@.len() as int) by {
                    mid.lemma_edges_at(r);
                    lemma_pair_count_push(mid.roots@, mid.pairs@, (i as int, j as int), r);
                }
            }
            return false;
        }
        proof {
            lemma_count_two_le(self.roots@, a as int, b as int, self.roots@.len() as int);
            self.lemma_size_at(a as int);
            self.lemma_size_at(b as int);
            lemma_count_roots_le(self.roots@, self.roots@.len() as int);
            lemma_count_roots_join(self.roots@, a as int, b as int, self.roots@.len() as int);
            lemma_count_roots_le(join_roots(self.roots@, a as int, b as int), self.roots@.len() as int);
        }
        self.len = self.len - 1;
        self.joins = Ghost(self.joins@ + 1);
        if self.components[a].vertices < self.components[b].vertices {
            std::mem::swap(&mut a, &mut b);
        }
        let ghost par = self.par_seq();
        let ghost rt = self.roots@;
        let ghost rank = self.rank@;
        let ghost bound = self.bound@;
        let ghost prev = *self;
        let eb = self.components[b].edges;
        let ea2 = self.components[a].edges;
        self.components[a].edges = ea2 + eb;
        let vb = self.components[b].vertices;
        let va = self.components[a].vertices;
        let total = self.components.len();
        proof {
            lemma_count_two_le(rt, a as int, b as int, rt.len() as int);
            prev.lemma_size_at(a as int);
            prev.lemma_size_at(b as int);
            assert(va as int + vb as int <= rt.len());
            assert(rt.len() == self.components@.len());
            assert(va as int + vb as int <= total);
        }
        self.components[a].vertices = va + vb;
        self.components[b].root = a;
        proof {
            let ra = a as int;
            let rb = b as int;
            let new_rank = rank.update(ra, if rank[ra] > rank[rb] { rank[ra] } else { rank[rb] + 1 });
            lemma_join_wf(par, rt, rank, bound, ra, rb);
            lemma_links_join(rt, self.pairs@, i as int, j as int, ra, rb);
            let ps0 = self.pairs@;
            self.pairs@ = self.pairs@.push((i as int, j as int));
            self.roots@ = join_roots(rt, ra, rb);
            reveal(UnionFind::edges_ok);
            mid.lemma_edges_at(ra);
            mid.lemma_edges_at(rb);
            assert forall|r: int|
                0 <= r < self.roots@.len() && #[trigger] self.roots@[r] == r implies self.components@[r].edges
                == pair_count(self.roots@, self.pairs@, r, self.pairs@.len() as int) by {
                lemma_pair_count_join(rt, ps0, ra, rb, r, ps0.len() as int);
                lemma_pair_count_push(join_roots(rt, ra, rb), ps0, (i as int, j as int), r);
                if r != ra {
                    assert(rt[r] == r);
                    mid.lemma_edges_at(r);
                }
            }
            self.rank@ = new_rank;
            self.bound@ = bound + 1;
            assert(self.par_seq() =~= par.update(rb, ra));
            lemma_count_roots_join(rt, ra, rb, rt.len() as int);
            reveal(UnionFind::sizes_ok);
            assert forall|r: int|
                0 <= r < self.roots@.len() && #[trigger] self.roots@[r] == r implies self.components@[r].vertices
                == class_size(self.roots@, r) by {
                lemma_count_join(rt, ra, rb, r, rt.len() as int);
                if r != ra {
                    assert(rt[r] == r);
                    prev.lemma_size_at(r);
                }
            }
        }
        true
    }

    /// Whether `i` and `j` are in the same component.
    pub fn is_same(&mut self, i: usize, j: usize) -> (b: bool)
        requires
            old(self).wf(),
            i < old(self)@.len(),
            j < old(self)@.len(),
        ensures
            final(self).wf(),
            final(self).joins() == old(self).joins(),
            final(self).merged_pairs() == old(self).merged_pairs(),
            final(self)@ == old(self)@,
            forall|t: int| 0 <= t < old(self)@.len() ==> final(self).edges_of(t) == old(self).edges_of(t),
            b == (old(self)@[i as int] == old(self)@[j as int]),
    {
        let a = self.leader(i);
        let b = self.leader(j);
        a == b
    }

    /// The number of components.
    pub fn len(&self) -> (l: usize)
        requires
            self.wf(),
        ensures
            l == num_classes(self@),
            l == self@.len() - self.joins(),
    {
        self.len
    }

    /// The component of `i`.
    pub fn component(&mut self, i: usize) -> (c: UnionFindComponent)
        requires
            old(self).wf(),
            i < old(self)@.len(),
        ensures
            final(self).wf(),
            final(self).joins() == old(self).joins(),
            final(self).merged_pairs() == old(self).merged_pairs(),
            final(self)@ == old(self)@,
            forall|t: int| 0 <= t < old(self)@.len() ==> final(self).edges_of(t) == old(self).edges_of(t),
            c.root_spec() == old(self)@[i as int],
            c.vertices_spec() == class_size(old(self)@, old(self)@[i as int]),
            c.edges_spec() == old(self).edges_of(old(self)@[i as int]),
    {
        let r = self.leader(i);
        proof {
            lemma_forest_at(self.par_seq(), self.roots@, self.rank@, self.bound@, i as int);
            self.lemma_size_at(r as int);
            lemma_forest_at(self.par_seq(), self.roots@, self.rank@, self.bound@, r as int);
        }
        self.components[r]
    }

    /// The number of vertices in the component of `i`.
    pub fn vertex_count(&mut self, i: usize) -> (v: usize)
        requires
            old(self).wf(),
            i < old(self)@.len(),
        ensures
            final(self).wf(),
            final(self).joins() == old(self).joins(),
            final(self).merged_pairs() == old(self).merged_pairs(),
            final(self)@ == old(self)@,
            forall|t: int| 0 <= t < old(self)@.len() ==> final(self).edges_of(t) == old(self).edges_of(t),
            v == class_size(old(self)@, old(self)@[i as int]),
    {
        self.component(i).vertices()
    }

    /// The number of edges in the component of `i`.
    pub fn edge_count(&mut self, i: usize) -> (e: usize)
        requires
            old(self).wf(),
            i < old(self)@.len(),
        ensures
            final(self).wf(),
            final(self).joins() == old(self).joins(),
            final(self).merged_pairs() == old(self).merged_pairs(),
            final(self)@ == old(self)@,
            forall|t: int| 0 <= t < old(self)@.len() ==> final(self).edges_of(t) == old(self).edges_of(t),
            e == old(self).edges_of(old(self)@[i as int]),
    {
        self.component(i).edges()
    }

    /// Every component as the increasing list of its vertices, ordered by
    /// their representatives.
    pub fn groups(&mut self) -> (gs: Vec<Vec<usize>>)
        requires
            old(self).wf(),
        ensures
            final(self).wf(),
            final(self).joins() == old(self).joins(),
            final(self).merged_pairs() == old(self).merged_pairs(),
            final(self)@ == old(self)@,
            forall|t: int| 0 <= t < old(self)@.len() ==> final(self).edges_of(t) == old(self).edges_of(t),
            gs@.map_values(|g: Vec<usize>| g@) == groups_of(old(self)@),
    {
        let n = self.components.len();
        let ghost rt = self.roots@;
        let ghost start = *self;
        let mut rows: Vec<Vec<usize>> = Vec::new();
        let mut k: usize = 0;
        while k < n
            invariant
                k <= n,
                rows@.len() == k,
                forall|r: int| 0 <= r < k ==> (#[trigger] rows@[r])@ == Seq::<usize>::empty(),
            decreases n - k,
        {
            rows.push(Vec::new());
            k += 1;
        }
        let mut i: usize = 0;
        while i < n
            invariant
                i <= n,
                n == self.components@.len(),
                self.wf(),
                self@ == rt,
                rt.len() == n,
                self.merged_pairs() == start.merged_pairs(),
                self.joins() == start.joins(),
                forall|t: int| 0 <= t < n ==> self.edges_of(t) == start.edges_of(t),
                rows@.len() == n,
                forall|r: int| 0 <= r < n ==> (#[trigger] rows@[r])@ == members(rt, r, i as int),
            decreases n - i,
        {
            proof {
                lemma_forest_at(self.par_seq(), self.roots@, self.rank@, self.bound@, i as int);
            }
            let r = self.leader(i);
            let mut row: Vec<usize> = Vec::new();
            std::mem::swap(&mut row, &mut rows[r]);
            row.push(i);
            std::mem::swap(&mut row, &mut rows[r]);
            i += 1;
        }
        let ghost full = Seq::new(n as nat, |r: int| members(rt, r, n as int));
        let mut gs: Vec<Vec<usize>> = Vec::new();
        let mut r: usize = 0;
        while r < n
            invariant
                r <= n,
                rows@.len() == n,
                full.len() == n,
                forall|t: int| r <= t < n ==> (#[trigger] rows@[t])@ == full[t],
                gs@.map_values(|g: Vec<usize>| g@) == nonempty_rows(full, r as int),
            decreases n - r,
        {
            if rows[r].len() > 0 {
                let mut row: Vec<usize> = Vec::new();
                std::mem::swap(&mut row, &mut rows[r]);
                gs.push(row);
                proof {
                    assert(gs@.map_values(|g: Vec<usize>| g@) =~= nonempty_rows(full, r as int).push(
                        full[r as int],
                    ));
                }
            }
            r += 1;
        }
        gs
    }

    /// Every component once, in the order of the smallest vertex of each.
    pub fn each_component(&mut self) -> (cs: Vec<UnionFindComponent>)
        requires
            old(self).wf(),
        ensures
            final(self).wf(),
            final(self).joins() == old(self).joins(),
            final(self).merged_pairs() == old(self).merged_pairs(),
            final(self)@ == old(self)@,
            forall|t: int| 0 <= t < old(self)@.len() ==> final(self).edges_of(t) == old(self).edges_of(t),
            cs@.len() == roots_in_order(old(self)@, old(self)@.len() as int).len(),
            forall|g: int|
                0 <= g < cs@.len() ==> {
                    let r = roots_in_order(old(self)@, old(self)@.len() as int)[g];
                    &&& (#[trigger] cs@[g]).root_spec() == r
                    &&& cs@[g].vertices_spec() == class_size(old(self)@, r)
                    &&& cs@[g].edges_spec() == old(self).edges_of(r)
                },
    {
        let n = self.components.len();
        let ghost rt = self.roots@;
        let ghost start = *self;
        let mut visited: Vec<bool> = Vec::new();
        let mut k: usize = 0;
        while k < n
            invariant
                k <= n,
                visited@.len() == k,
                forall|r: int| 0 <= r < k ==> !(#[trigger] visited@[r]),
            decreases n - k,
        {
            visited.push(false);
            k += 1;
        }
        let mut cs: Vec<UnionFindComponent> = Vec::new();
        let mut i: usize = 0;
        while i < n
            invariant
                i <= n,
                n == self.components@.len(),
                self.wf(),
                self@ == rt,
                rt.len() == n,
                self.merged_pairs() == start.merged_pairs(),
                self.joins() == start.joins(),
                forall|t: int| 0 <= t < n ==> self.edges_of(t) == start.edges_of(t),
                visited@.len() == n,
                forall|r: int| 0 <= r < n ==> (#[trigger] visited@[r] <==> roots_in_order(rt, i as int).contains(r)),
                cs@.len() == roots_in_order(rt, i as int).len(),
                forall|g: int|
                    0 <= g < cs@.len() ==> {
                        let r = roots_in_order(rt, i as int)[g];
                        &&& (#[trigger] cs@[g]).root_spec() == r
                        &&& cs@[g].vertices_spec() == class_size(rt, r)
                        &&& cs@[g].edges_spec() == start.edges_of(r)
                    },
            decreases n - i,
        {
            proof {
                lemma_forest_at(self.par_seq(), self.roots@, self.rank@, self.bound@, i as int);
            }
            let r = self.leader(i);
            if !visited[r] {
                visited[r] = true;
                proof {
                    lemma_forest_at(self.par_seq(), self.roots@, self.rank@, self.bound@, r as int);
                    self.lemma_size_at(r as int);
                }
                cs.push(self.components[r]);
            }
            proof {
                let prev = roots_in_order(rt, i as int);
                let x = rt[i as int];
                assert(x == r as int);
                assert(roots_in_order(rt, i + 1) == if prev.contains(x) {
                    prev
                } else {
                    prev.push(x)
                });
                if !prev.contains(x) {
                    assert forall|t: int| #[trigger] prev.push(x).contains(t) <==> (prev.contains(t) || t == x) by {
                        if prev.push(x).contains(t) {
                            let w = choose|w: int| 0 <= w < prev.len() + 1 && prev.push(x)[w] == t;
                            if w < prev.len() {
                                assert(prev[w] == t);
                            }
                        }
                        if prev.contains(t) {
                            let w = choose|w: int| 0 <= w < prev.len() && prev[w] == t;
                            assert(prev.push(x)[w] == t);
                        }
                        if t == x {
                            assert(prev.push(x)[prev.len() as int] == t);
                        }
                    }
                }
            }
            i += 1;
        }
        cs
    }
}

} // verus!
