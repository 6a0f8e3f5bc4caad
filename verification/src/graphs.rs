//! Graphs keyed by `u64` vertex ids: a walker that remembers visited
//! vertices, an adjacency-list graph over a hash map, and a grid.
use vstd::prelude::*;
use std::collections::{HashMap, HashSet, VecDeque};
use vstd::set_lib::set_int_range;

verus! {

broadcast use {vstd::std_specs::hash::group_hash_axioms, vstd::std_specs::vecdeque::group_vec_dequeue_axioms};

/// The frontier of a walk over vertices, and the vertices ever queued and
/// not forgotten.
pub struct Walker {
    visited: HashSet<u64>,
    queue: VecDeque<u64>,
}

impl Walker {
    pub closed spec fn visited_spec(&self) -> Set<u64> {
        self.visited@
    }

    /// The frontier, taken from its back.
    pub closed spec fn queue_spec(&self) -> Seq<u64> {
        self.queue@
    }

    pub fn new() -> (w: Self)
        ensures
            w.visited_spec() == Set::<u64>::empty(),
            w.queue_spec() == Seq::<u64>::empty(),
    {
        Walker { visited: HashSet::new(), queue: VecDeque::new() }
    }

    /// Queues `v` at the back, to be taken next, unless it was visited;
    /// tells whether it was queued.
    pub fn go_next(&mut self, v: u64) -> (queued: bool)
        ensures
            queued == !old(self).visited_spec().contains(v),
            final(self).visited_spec() == old(self).visited_spec().insert(v),
            final(self).queue_spec() == if queued { old(self).queue_spec().push(v) } else { old(self).queue_spec() },
    {
        if self.visited.insert(v) {
            self.queue.push_back(v);
            true
        } else {
            false
        }
    }

    /// Queues `v` at the front, to be taken last, unless it was visited;
    /// tells whether it was queued.
    pub fn go_later(&mut self, v: u64) -> (queued: bool)
        ensures
            queued == !old(self).visited_spec().contains(v),
            final(self).visited_spec() == old(self).visited_spec().insert(v),
            final(self).queue_spec() == if queued { seq![v] + old(self).queue_spec() } else { old(self).queue_spec() },
    {
        if self.visited.insert(v) {
            self.queue.push_front(v);
            true
        } else {
            false
        }
    }

    /// Marks `v` unvisited; tells whether it was visited.
    pub fn forget(&mut self, v: u64) -> (was: bool)
        ensures
            was == old(self).visited_spec().contains(v),
            final(self).visited_spec() == old(self).visited_spec().remove(v),
            final(self).queue_spec() == old(self).queue_spec(),
    {
        self.visited.remove(&v)
    }

    pub fn is_visited(&self, v: u64) -> (b: bool)
        ensures
            b == self.visited_spec().contains(v),
    {
        self.visited.contains(&v)
    }

    /// Takes the vertex at the back of the frontier.
    pub fn next(&mut self) -> (r: Option<u64>)
        ensures
            final(self).visited_spec() == old(self).visited_spec(),
            old(self).queue_spec().len() == 0 ==> r is None && final(self).queue_spec() == old(self).queue_spec(),
            old(self).queue_spec().len() > 0 ==> r == Some(old(self).queue_spec().last())
                && final(self).queue_spec() == old(self).queue_spec().drop_last(),
    {
        let r = self.queue.pop_back();
        proof {
            if old(self).queue_spec().len() > 0 {
                assert(self.queue@ =~= old(self).queue_spec().drop_last());
            }
        }
        r
    }
}

/// A rectangular grid of characters.
pub struct GridGraph {
    rows: usize,
    columns: usize,
    grid: Vec<Vec<char>>,
}

impl GridGraph {
    pub closed spec fn rows_spec(&self) -> nat {
        self.rows as nat
    }

    pub closed spec fn columns_spec(&self) -> nat {
        self.columns as nat
    }

    pub fn new(rows: usize, columns: usize, grid: Vec<Vec<char>>) -> (g: Self)
        ensures
            g.rows_spec() == rows,
            g.columns_spec() == columns,
    {
        GridGraph { rows, columns, grid }
    }

    pub fn rows(&self) -> (r: usize)
        ensures
            r == self.rows_spec(),
    {
        self.rows
    }

    pub fn columns(&self) -> (c: usize)
        ensures
            c == self.columns_spec(),
    {
        self.columns
    }

    /// Whether `v` is a cell of the grid.
    pub fn valid_vertex(&self, v: (usize, usize)) -> (b: bool)
        ensures
            b == (v.0 < self.rows_spec() && v.1 < self.columns_spec()),
    {
        v.0 < self.rows && v.1 < self.columns
    }
}

/// An edge, with the id of its reverse for edges added in pairs.
#[derive(Debug, Clone, Copy)]
pub struct Edge {
    pub from: u64,
    pub to: u64,
    pub weight: i64,
    pub rev: Option<usize>,
}

/// A vertex: the ids of the edges that leave it.
#[derive(Debug, Clone)]
pub struct Vertex {
    edges: Vec<usize>,
}

impl Vertex {
    pub closed spec fn edges_spec(&self) -> Seq<usize> {
        self.edges@
    }

    pub fn edges(&self) -> (e: &Vec<usize>)
        ensures
            e@ == self.edges_spec(),
    {
        &self.edges
    }
}

/// A directed graph: the vertices by id with their outgoing edge ids, and
/// the edges in the order they were added.
pub struct DicGraph {
    vertices: HashMap<u64, Vertex>,
    edges: Vec<Edge>,
}

impl DicGraph {
    /// The outgoing edge ids of each vertex present.
    pub closed spec fn adjacency(&self) -> Map<u64, Seq<usize>> {
        Map::new(|v: u64| self.vertices@.contains_key(v), |v: u64| self.vertices@[v].edges@)
    }

    pub closed spec fn edges_spec(&self) -> Seq<Edge> {
        self.edges@
    }

    /// Every edge id in the adjacency lists names an edge.
    pub closed spec fn wf(&self) -> bool {
        forall|v: u64, i: int| self.adjacency().contains_key(v) && 0 <= i < self.adjacency()[v].len()
            ==> #[trigger] self.adjacency()[v][i] < self.edges_spec().len()
    }

    pub fn new() -> (g: Self)
        ensures
            g.wf(),
            g.adjacency() == Map::<u64, Seq<usize>>::empty(),
            g.edges_spec() == Seq::<Edge>::empty(),
    {
        let g = DicGraph { vertices: HashMap::new(), edges: Vec::new() };
        proof {
            assert(g.adjacency() =~= Map::<u64, Seq<usize>>::empty());
        }
        g
    }

    /// The number of vertices.
    pub fn n(&self) -> (n: usize)
        ensures
            n == self.adjacency().dom().len(),
    {
        proof {
            assert(self.adjacency().dom() =~= self.vertices@.dom());
        }
        self.vertices.len()
    }

    /// The number of edges.
    pub fn m(&self) -> (m: usize)
        ensures
            m == self.edges_spec().len(),
    {
        self.edges.len()
    }

    pub fn edge(&self, id: usize) -> (e: &Edge)
        requires
            id < self.edges_spec().len(),
        ensures
            *e == self.edges_spec()[id as int],
    {
        &self.edges[id]
    }

    /// The ids of the edges leaving `from`, which must be a vertex.
    pub fn edges_from(&self, from: u64) -> (es: Vec<usize>)
        requires
            self.adjacency().contains_key(from),
        ensures
            es@ == self.adjacency()[from],
    {
        match self.vertices.get(&from) {
            Some(v) => v.edges.clone(),
            None => {
                proof {
                    assert(false);
                }
                Vec::new()
            },
        }
    }

    /// The heads of the edges leaving `from` (none when it is not a
    /// vertex).
    pub fn adjacent_vertices(&self, from: u64) -> (vs: Vec<u64>)
        requires
            self.wf(),
        ensures
            !self.adjacency().contains_key(from) ==> vs@.len() == 0,
            self.adjacency().contains_key(from) ==> vs@.len() == self.adjacency()[from].len()
                && forall|i: int| 0 <= i < vs@.len() ==> #[trigger] vs@[i] == self.edges_spec()[self.adjacency()[from][i] as int].to,
    {
        let mut vs: Vec<u64> = Vec::new();
        match self.vertices.get(&from) {
            Some(v) => {
                let mut i: usize = 0;
                while i < v.edges.len()
                    invariant
                        self.vertices@.contains_key(from),
                        *v == self.vertices@[from],
                        forall|w: u64, k: int| self.adjacency().contains_key(w) && 0 <= k < self.adjacency()[w].len()
                            ==> #[trigger] self.adjacency()[w][k] < self.edges_spec().len(),
                        i <= v.edges@.len(),
                        vs@.len() == i,
                        forall|k: int| 0 <= k < i ==> #[trigger] vs@[k] == self.edges@[v.edges@[k] as int].to,
                    decreases v.edges@.len() - i,
                {
                    proof {
                        assert(self.adjacency()[from][i as int] == v.edges@[i as int]);
                    }
                    let e = v.edges[i];
                    vs.push(self.edges[e].to);
                    i += 1;
                }
                vs
            },
            None => vs,
        }
    }

    /// The reverse of edge `e`, for edges added in pairs.
    pub fn reverse_edge(&self, e: usize) -> (r: Option<usize>)
        requires
            e < self.edges_spec().len(),
        ensures
            r == self.edges_spec()[e as int].rev,
    {
        self.edges[e].rev
    }

    /// Appends `id` to the edges leaving `v`, making `v` a vertex first.
    fn attach(&mut self, v: u64, id: usize)
        ensures
            final(self).edges_spec() == old(self).edges_spec(),
            final(self).adjacency() == old(self).adjacency().insert(v,
                if old(self).adjacency().contains_key(v) { old(self).adjacency()[v].push(id) } else { seq![id] }),
    {
        let mut list = match self.vertices.get(&v) {
            Some(x) => x.edges.clone(),
            None => Vec::new(),
        };
        list.push(id);
        self.vertices.insert(v, Vertex { edges: list });
        proof {
            assert(self.adjacency() =~= old(self).adjacency().insert(v,
                if old(self).adjacency().contains_key(v) { old(self).adjacency()[v].push(id) } else { seq![id] }));
        }
    }

    /// Adds the edge `from -> to` and returns its id.
    pub fn add_arc(&mut self, from: u64, to: u64, weight: i64) -> (id: usize)
        requires
            old(self).wf(),
            old(self).edges_spec().len() < usize::MAX,
        ensures
            final(self).wf(),
            id == old(self).edges_spec().len(),
            final(self).edges_spec() == old(self).edges_spec().push(Edge { from, to, weight, rev: None }),
            final(self).adjacency() == old(self).adjacency().insert(from,
                if old(self).adjacency().contains_key(from) { old(self).adjacency()[from].push(id) } else { seq![id] }),
    {
        let id = self.edges.len();
        self.edges.push(Edge { from, to, weight, rev: None });
        self.attach(from, id);
        proof {
            let a = old(self).adjacency();
            assert forall|v: u64, i: int| self.adjacency().contains_key(v) && 0 <= i < self.adjacency()[v].len()
                implies #[trigger] self.adjacency()[v][i] < self.edges_spec().len() by {
                if v == from && a.contains_key(from) && i < a[from].len() {
                    assert(self.adjacency()[v][i] == a[from][i]);
                } else if v != from {
                    assert(self.adjacency()[v] == a[v]);
                }
            }
        }
        id
    }

    /// Adds the edges `from -> to` and `to -> from`, each the other's
    /// reverse, and returns their ids.
    pub fn add_edge(&mut self, from: u64, to: u64, weight: i64) -> (ids: (usize, usize))
        requires
            old(self).wf(),
            old(self).edges_spec().len() + 1 < usize::MAX,
        ensures
            final(self).wf(),
            ids.0 == old(self).edges_spec().len(),
            ids.1 == ids.0 + 1,
            final(self).edges_spec() == old(self).edges_spec().push(Edge { from, to, weight, rev: Some(ids.1) })
                .push(Edge { from: to, to: from, weight, rev: Some(ids.0) }),
            final(self).adjacency() == ({
                let a = old(self).adjacency();
                let a1 = a.insert(from, if a.contains_key(from) { a[from].push(ids.0) } else { seq![ids.0] });
                a1.insert(to, if a1.contains_key(to) { a1[to].push(ids.1) } else { seq![ids.1] })
            }),
    {
        let id = self.edges.len();
        self.edges.push(Edge { from, to, weight, rev: Some(id + 1) });
        self.edges.push(Edge { from: to, to: from, weight, rev: Some(id) });
        self.attach(from, id);
        let ghost mid = self.adjacency();
        proof {
            let a = old(self).adjacency();
            assert forall|v: u64, i: int| mid.contains_key(v) && 0 <= i < mid[v].len()
                implies #[trigger] mid[v][i] < self.edges_spec().len() by {
                if v == from && a.contains_key(from) && i < a[from].len() {
                    assert(mid[v][i] == a[from][i]);
                } else if v != from {
                    assert(mid[v] == a[v]);
                }
            }
        }
        self.attach(to, id + 1);
        proof {
            assert forall|v: u64, i: int| self.adjacency().contains_key(v) && 0 <= i < self.adjacency()[v].len()
                implies #[trigger] self.adjacency()[v][i] < self.edges_spec().len() by {
                if v == to && mid.contains_key(to) && i < mid[to].len() {
                    assert(self.adjacency()[v][i] == mid[to][i]);
                } else if v != to {
                    assert(self.adjacency()[v] == mid[v]);
                }
            }
        }
        (id, id + 1)
    }
}

impl DicGraph {
    /// An edge of the graph leads from `u` to `v`.
    pub open spec fn arc(&self, u: u64, v: u64) -> bool {
        self.adjacency().contains_key(u) && exists|k: int| 0 <= k < self.adjacency()[u].len()
            && #[trigger] self.target(u, k) == v
    }

    /// The head of the `k`-th edge leaving `u`.
    pub open spec fn target(&self, u: u64, k: int) -> u64 {
        self.edges_spec()[self.adjacency()[u][k] as int].to
    }

    /// `v` is one step further than some vertex of `d` with an edge to it.
    pub open spec fn has_parent(&self, d: Map<u64, u64>, v: u64) -> bool {
        exists|u: u64| d.contains_key(u) && self.arc(u, v) && #[trigger] d[u] + 1 == d[v]
    }

    /// Every vertex of `d` but `from` lies one step after a vertex of `d`,
    /// and `from` lies at `0`.
    pub open spec fn bfs_sound(&self, d: Map<u64, u64>, from: u64) -> bool {
        &&& d.contains_key(from)
        &&& d[from] == 0
        &&& forall|v: u64| #[trigger] d.contains_key(v) && v != from ==> d[v] >= 1 && self.has_parent(d, v)
    }

    /// The first `upto` edges leaving `u` lead into `d`, at most one step
    /// further than `u`.
    pub open spec fn closed_at(&self, d: Map<u64, u64>, u: u64, upto: int) -> bool {
        forall|k: int| 0 <= k < upto ==> d.contains_key(#[trigger] self.target(u, k))
            && d[self.target(u, k)] <= d[u] + 1
    }

    /// Every edge leaving a vertex of `d` leads into `d`, at most one step
    /// further.
    pub open spec fn bfs_closed(&self, d: Map<u64, u64>) -> bool {
        forall|u: u64| #[trigger] d.contains_key(u) && self.adjacency().contains_key(u)
            ==> self.closed_at(d, u, self.adjacency()[u].len() as int)
    }

    /// Every vertex reached from `from`: `from` itself and the heads of the
    /// edges.
    spec fn heads(&self, from: u64) -> Set<u64> {
        set_int_range(0, self.edges_spec().len() as int + 1).map(
            |e: int| if e < self.edges_spec().len() { self.edges_spec()[e].to } else { from },
        )
    }

    proof fn lemma_heads_bound(&self, from: u64)
        ensures
            self.heads(from).finite(),
            self.heads(from).len() <= self.edges_spec().len() + 1,
            self.heads(from).contains(from),
            forall|e: int| 0 <= e < self.edges_spec().len() ==> self.heads(from).contains(#[trigger] self.edges_spec()[e].to),
    {
        let m = self.edges_spec().len() as int;
        let f = |e: int| if e < self.edges_spec().len() { self.edges_spec()[e].to } else { from };
        vstd::set_lib::lemma_int_range(0, m + 1);
        vstd::set_lib::lemma_map_size_bound(set_int_range(0, m + 1), self.heads(from), f);
        assert(set_int_range(0, m + 1).contains(m));
        assert(f(m) == from);
        assert forall|e: int| 0 <= e < self.edges_spec().len() implies self.heads(from).contains(#[trigger] self.edges_spec()[e].to) by {
            assert(set_int_range(0, m + 1).contains(e));
            assert(f(e) == self.edges_spec()[e].to);
        }
    }

    proof fn lemma_sound_insert(&self, d: Map<u64, u64>, from: u64, u: u64, v: u64, val: u64)
        requires
            self.bfs_sound(d, from),
            !d.contains_key(v),
            d.contains_key(u),
            self.arc(u, v),
            val == d[u] + 1,
        ensures
            self.bfs_sound(d.insert(v, val), from),
    {
        let d2 = d.insert(v, val);
        assert forall|w: u64| #[trigger] d2.contains_key(w) && w != from implies d2[w] >= 1 && self.has_parent(d2, w) by {
            if w == v {
                assert(d2.contains_key(u) && self.arc(u, w) && d2[u] + 1 == d2[w]);
            } else {
                assert(d.contains_key(w));
                assert(self.has_parent(d, w));
                let p = choose|p: u64| d.contains_key(p) && self.arc(p, w) && #[trigger] d[p] + 1 == d[w];
                assert(d2.contains_key(p) && self.arc(p, w) && d2[p] + 1 == d2[w]);
            }
        }
    }

    /// The breadth-first queue `q` lists the vertices of `d`, each once in
    /// order of distance, no more than its position, and the vertices before
    /// `head` have all their edges closed.
    pub open spec fn queue_inv(&self, d: Map<u64, u64>, q: Seq<u64>, head: int) -> bool {
        &&& 0 <= head <= q.len()
        &&& forall|j: int| 0 <= j < q.len() ==> #[trigger] d.contains_key(q[j])
        &&& forall|v: u64| #[trigger] d.contains_key(v) ==> q.contains(v)
        &&& forall|i: int, j: int| 0 <= i <= j < q.len() ==> d[#[trigger] q[i]] <= d[#[trigger] q[j]]
        &&& forall|j: int| 0 <= j < q.len() ==> d[#[trigger] q[j]] <= j
        &&& forall|i: int| 0 <= i < head && self.adjacency().contains_key(#[trigger] q[i])
            ==> self.closed_at(d, q[i], self.adjacency()[q[i]].len() as int)
    }

    proof fn lemma_push_step(&self, d0: Map<u64, u64>, q0: Seq<u64>, head: int, u: u64, k: int, v: u64, from: u64)
        requires
            self.queue_inv(d0, q0, head),
            head < q0.len(),
            u == q0[head],
            self.adjacency().contains_key(u),
            0 <= k < self.adjacency()[u].len(),
            self.closed_at(d0, u, k),
            d0[q0[q0.len() - 1]] <= d0[u] + 1,
            d0[u] <= head,
            !d0.contains_key(v),
            self.target(u, k) == v,
            self.bfs_sound(d0, from),
            d0[u] + 1 <= u64::MAX,
        ensures
            self.queue_inv(d0.insert(v, (d0[u] + 1) as u64), q0.push(v), head),
            self.closed_at(d0.insert(v, (d0[u] + 1) as u64), u, k + 1),
            self.bfs_sound(d0.insert(v, (d0[u] + 1) as u64), from),
            d0.insert(v, (d0[u] + 1) as u64)[u] == d0[u],
    {
        let du = d0[u];
        let d1 = d0.insert(v, (du + 1) as u64);
        let q1 = q0.push(v);
        assert(d0.contains_key(u));
        assert(self.arc(u, v));
        self.lemma_sound_insert(d0, from, u, v, (du + 1) as u64);
        assert forall|j: int| 0 <= j < q1.len() implies #[trigger] d1.contains_key(q1[j]) by {
            if j < q0.len() {
                assert(q1[j] == q0[j]);
            }
        }
        assert forall|w: u64| #[trigger] d1.contains_key(w) implies q1.contains(w) by {
            if w == v {
                assert(q1[q0.len() as int] == v);
            } else {
                assert(q0.contains(w));
                let j = choose|j: int| 0 <= j < q0.len() && q0[j] == w;
                assert(q1[j] == w);
            }
        }
        assert forall|i: int, j: int| 0 <= i <= j < q1.len() implies d1[#[trigger] q1[i]] <= d1[#[trigger] q1[j]] by {
            if j < q0.len() {
                assert(q1[i] == q0[i] && q1[j] == q0[j]);
                assert(d0.contains_key(q0[i]) && d0.contains_key(q0[j]));
                assert(q0[i] != v && q0[j] != v);
            } else if i < q0.len() {
                assert(q1[i] == q0[i]);
                assert(d0.contains_key(q0[i]));
                assert(q0[i] != v);
                assert(d0[q0[i]] <= d0[q0[q0.len() - 1]]);
            }
        }
        assert forall|j: int| 0 <= j < q1.len() implies d1[#[trigger] q1[j]] <= j by {
            if j < q0.len() {
                assert(q1[j] == q0[j]);
                assert(d0.contains_key(q0[j]));
                assert(q0[j] != v);
            }
        }
        assert forall|i: int| 0 <= i < head && self.adjacency().contains_key(#[trigger] q1[i])
            implies self.closed_at(d1, q1[i], self.adjacency()[q1[i]].len() as int) by {
            assert(q1[i] == q0[i]);
            let w = q0[i];
            assert(self.closed_at(d0, w, self.adjacency()[w].len() as int));
            assert(d0.contains_key(w));
            assert forall|kk: int| 0 <= kk < self.adjacency()[w].len() implies d1.contains_key(#[trigger] self.target(w, kk))
                && d1[self.target(w, kk)] <= d1[w] + 1 by {
                assert(d0.contains_key(self.target(w, kk)));
            }
        }
        assert forall|kk: int| 0 <= kk < k + 1 implies d1.contains_key(#[trigger] self.target(u, kk))
            && d1[self.target(u, kk)] <= d1[u] + 1 by {
            if kk < k {
                assert(d0.contains_key(self.target(u, kk)));
            }
        }
    }

    proof fn lemma_seen_step(&self, d: Map<u64, u64>, q: Seq<u64>, head: int, u: u64, k: int)
        requires
            self.queue_inv(d, q, head),
            head < q.len(),
            u == q[head],
            self.adjacency().contains_key(u),
            0 <= k < self.adjacency()[u].len(),
            self.closed_at(d, u, k),
            d[q[q.len() - 1]] <= d[u] + 1,
            d.contains_key(self.target(u, k)),
        ensures
            self.closed_at(d, u, k + 1),
    {
        let v = self.target(u, k);
        assert(q.contains(v));
        let j = choose|j: int| 0 <= j < q.len() && q[j] == v;
        if j < head {
            assert(d[q[j]] <= d[q[head]]);
        } else {
            assert(d[q[j]] <= d[q[q.len() - 1]]);
        }
    }

    proof fn lemma_advance(&self, d: Map<u64, u64>, q: Seq<u64>, head: int)
        requires
            self.queue_inv(d, q, head),
            head < q.len(),
            self.adjacency().contains_key(q[head]) ==> self.closed_at(d, q[head], self.adjacency()[q[head]].len() as int),
            d[q[q.len() - 1]] <= d[q[head]] + 1,
        ensures
            self.queue_inv(d, q, head + 1),
            head + 1 < q.len() ==> d[q[q.len() - 1]] <= d[q[head + 1]] + 1,
    {
        if head + 1 < q.len() {
            assert(d[q[head]] <= d[q[head + 1]]);
        }
    }

    /// Breadth-first distances from `from`: `from` at `0`, every other
    /// vertex reached one step after a vertex reached, and every edge out of
    /// a reached vertex leading to a reached vertex at most one step further;
    /// so each vertex reachable from `from` is held at its distance
    /// (`lemma_bfs_shortest`).
    pub fn shortest_path_bfs(&self, from: u64) -> (dist: HashMap<u64, u64>)
        requires
            self.wf(),
        ensures
            self.bfs_sound(dist@, from),
            self.bfs_closed(dist@),
    {
        let m = self.edges.len();
        let mut dist: HashMap<u64, u64> = HashMap::new();
        dist.insert(from, 0);
        let mut queue: Vec<u64> = Vec::new();
        queue.push(from);
        let mut head: usize = 0;
        proof {
            self.lemma_heads_bound(from);
            assert(queue@[0] == from);
            assert(dist@.dom() =~= Set::empty().insert(from));
            assert(self.bfs_sound(dist@, from));
            assert(self.queue_inv(dist@, queue@, 0));
        }
        while head < queue.len()
            invariant
                self.wf(),
                m == self.edges_spec().len(),
                dist@.dom().finite(),
                dist@.dom().len() == queue@.len(),
                dist@.dom().subset_of(self.heads(from)),
                self.heads(from).finite(),
                self.heads(from).len() <= m + 1,
                forall|e: int| 0 <= e < m ==> self.heads(from).contains(#[trigger] self.edges_spec()[e].to),
                self.queue_inv(dist@, queue@, head as int),
                head < queue@.len() ==> dist@[queue@[queue@.len() - 1]] <= dist@[queue@[head as int]] + 1,
                self.bfs_sound(dist@, from),
            decreases m + 1 - head,
        {
            proof {
                vstd::set_lib::lemma_len_subset(dist@.dom(), self.heads(from));
                assert(dist@.contains_key(queue@[head as int]));
                assert(dist@[queue@[head as int]] <= head);
            }
            let u = queue[head];
            let du: u64 = *dist.get(&u).unwrap();
            if self.vertices.contains_key(&u) {
                let es = self.edges_from(u);
                let mut k: usize = 0;
                while k < es.len()
                    invariant
                        self.wf(),
                        m == self.edges_spec().len(),
                        es@ == self.adjacency()[u],
                        self.adjacency().contains_key(u),
                        dist@.dom().finite(),
                        dist@.dom().len() == queue@.len(),
                        dist@.dom().subset_of(self.heads(from)),
                        self.heads(from).finite(),
                        self.heads(from).len() <= m + 1,
                        forall|e: int| 0 <= e < m ==> self.heads(from).contains(#[trigger] self.edges_spec()[e].to),
                        self.queue_inv(dist@, queue@, head as int),
                        head < queue@.len(),
                        u == queue@[head as int],
                        du == dist@[u],
                        du <= head,
                        k <= es@.len(),
                        dist@[queue@[queue@.len() - 1]] <= du + 1,
                        self.closed_at(dist@, u, k as int),
                        self.bfs_sound(dist@, from),
                    decreases es@.len() - k,
                {
                    let e = es[k];
                    proof {
                        assert(self.adjacency()[u][k as int] == e);
                        assert(e < m);
                    }
                    let v = self.edges[e].to;
                    proof {
                        assert(self.target(u, k as int) == v);
                    }
                    if !dist.contains_key(&v) {
                        let ghost d0 = dist@;
                        let ghost q0 = queue@;
                        proof {
                            vstd::set_lib::lemma_len_subset(d0.dom(), self.heads(from));
                            assert(self.heads(from).contains(v));
                            assert(d0.dom().insert(v).subset_of(self.heads(from)));
                            vstd::set_lib::lemma_len_subset(d0.dom().insert(v), self.heads(from));
                            assert(head < u64::MAX);
                            self.lemma_push_step(d0, q0, head as int, u, k as int, v, from);
                        }
                        dist.insert(v, du + 1);
                        queue.push(v);
                        proof {
                            assert(dist@ == d0.insert(v, (du + 1) as u64));
                            assert(dist@.dom() =~= d0.dom().insert(v));
                            assert(queue@[queue@.len() - 1] == v);
                        }
                    } else {
                        proof {
                            self.lemma_seen_step(dist@, queue@, head as int, u, k as int);
                        }
                    }
                    k += 1;
                }
            }
            proof {
                self.lemma_advance(dist@, queue@, head as int);
                vstd::set_lib::lemma_len_subset(dist@.dom(), self.heads(from));
            }
            head += 1;
        }
        proof {
            assert forall|w: u64| #[trigger] dist@.contains_key(w) && self.adjacency().contains_key(w)
                implies self.closed_at(dist@, w, self.adjacency()[w].len() as int) by {
                assert(queue@.contains(w));
                let i = choose|i: int| 0 <= i < queue@.len() && queue@[i] == w;
            }
        }
        dist
    }
}

impl DicGraph {
    /// Some walk of exactly `n` edges leads from `from` to `v`.
    pub open spec fn walk_of(&self, from: u64, v: u64, n: nat) -> bool
        decreases n,
    {
        if n == 0 {
            v == from
        } else {
            exists|u: u64| #[trigger] self.arc(u, v) && self.walk_of(from, u, (n - 1) as nat)
        }
    }

    proof fn lemma_sound_walks(&self, d: Map<u64, u64>, from: u64, v: u64, n: nat)
        requires
            self.bfs_sound(d, from),
            d.contains_key(v),
            d[v] == n,
        ensures
            self.walk_of(from, v, n),
        decreases n,
    {
        if v != from {
            assert(self.has_parent(d, v));
            let u = choose|u: u64| d.contains_key(u) && self.arc(u, v) && #[trigger] d[u] + 1 == d[v];
            self.lemma_sound_walks(d, from, u, (n - 1) as nat);
            assert(n > 0);
            assert(self.arc(u, v) && self.walk_of(from, u, (n - 1) as nat));
        } else {
            assert(n == 0);
        }
    }

    proof fn lemma_closed_walks(&self, d: Map<u64, u64>, from: u64, v: u64, n: nat)
        requires
            self.bfs_sound(d, from),
            self.bfs_closed(d),
            self.walk_of(from, v, n),
        ensures
            d.contains_key(v),
            d[v] <= n,
        decreases n,
    {
        if n > 0 {
            let u = choose|u: u64| #[trigger] self.arc(u, v) && self.walk_of(from, u, (n - 1) as nat);
            self.lemma_closed_walks(d, from, u, (n - 1) as nat);
            let k = choose|k: int| 0 <= k < self.adjacency()[u].len() && #[trigger] self.target(u, k) == v;
            assert(self.closed_at(d, u, self.adjacency()[u].len() as int));
            assert(d.contains_key(self.target(u, k)));
        } else {
            assert(v == from);
        }
    }

    /// Law: a map that meets the contract of `shortest_path_bfs` holds the
    /// vertices reachable from `from`, each at the least number of edges of
    /// a walk to it.
    pub proof fn lemma_bfs_shortest(&self, d: Map<u64, u64>, from: u64)
        requires
            self.bfs_sound(d, from),
            self.bfs_closed(d),
        ensures
            forall|v: u64| #[trigger] d.contains_key(v) ==> self.walk_of(from, v, d[v] as nat),
            forall|v: u64, n: nat| #[trigger] self.walk_of(from, v, n) ==> d.contains_key(v) && d[v] <= n,
    {
        assert forall|v: u64| #[trigger] d.contains_key(v) implies self.walk_of(from, v, d[v] as nat) by {
            self.lemma_sound_walks(d, from, v, d[v] as nat);
        }
        assert forall|v: u64, n: nat| #[trigger] self.walk_of(from, v, n) implies d.contains_key(v) && d[v] <= n by {
            self.lemma_closed_walks(d, from, v, n);
        }
    }
}

} // verus!
