//! The abstract model shared by the union-find structures.
//!
//! A union-find over `n` vertices is seen as the sequence `rt` that maps
//! every vertex to the representative (root) of its class.  The concrete
//! structures keep parent pointers `par`; a ghost rank that strictly grows
//! along parent pointers makes every path to a root finite.
use vstd::prelude::*;

verus! {

/// Parent pointers `par`, roots `rt` and ranks form a well-founded forest
/// whose roots are exactly the representatives in `rt`.
#[verifier::opaque]
pub open spec fn forest_wf(par: Seq<int>, rt: Seq<int>, rank: Seq<nat>, bound: nat) -> bool {
    &&& par.len() == rt.len()
    &&& rank.len() == rt.len()
    &&& forall|i: int|
        #![trigger par[i]]
        #![trigger rt[i]]
        0 <= i < rt.len() ==> {
            &&& 0 <= par[i] < rt.len()
            &&& 0 <= rt[i] < rt.len()
            &&& rt[rt[i]] == rt[i]
            &&& rt[par[i]] == rt[i]
            &&& (par[i] == i <==> rt[i] == i)
            &&& (par[i] != i ==> rank[par[i]] > rank[i])
            &&& rank[i] <= bound
        }
}

/// The facts `forest_wf` states about one vertex.
pub proof fn lemma_forest_at(par: Seq<int>, rt: Seq<int>, rank: Seq<nat>, bound: nat, i: int)
    requires
        forest_wf(par, rt, rank, bound),
        0 <= i < rt.len(),
    ensures
        par.len() == rt.len(),
        rank.len() == rt.len(),
        0 <= par[i] < rt.len(),
        0 <= rt[i] < rt.len(),
        rt[rt[i]] == rt[i],
        rt[par[i]] == rt[i],
        par[i] == i <==> rt[i] == i,
        par[i] != i ==> rank[par[i]] > rank[i],
        rank[i] <= bound,
{
    reveal(forest_wf);
}

/// The lengths `forest_wf` fixes.
pub proof fn lemma_forest_len(par: Seq<int>, rt: Seq<int>, rank: Seq<nat>, bound: nat)
    requires
        forest_wf(par, rt, rank, bound),
    ensures
        par.len() == rt.len(),
        rank.len() == rt.len(),
{
    reveal(forest_wf);
}

/// Every vertex is its own class.
pub open spec fn identity_seq(n: nat) -> Seq<int> {
    Seq::new(n, |i: int| i)
}

/// The classes after joining the class of `rj` into the class of `ri`.
pub open spec fn join_roots(rt: Seq<int>, ri: int, rj: int) -> Seq<int> {
    Seq::new(rt.len(), |k: int| if rt[k] == rj { ri } else { rt[k] })
}

/// Number of vertices `t < k` whose representative is `r`.
pub open spec fn count_in(rt: Seq<int>, r: int, k: int) -> nat
    decreases k,
{
    if k <= 0 {
        0
    } else {
        count_in(rt, r, k - 1) + if rt[k - 1] == r { 1nat } else { 0nat }
    }
}

/// Number of vertices in the class whose representative is `r`.
pub open spec fn class_size(rt: Seq<int>, r: int) -> nat {
    count_in(rt, r, rt.len() as int)
}

/// Number of representatives among the vertices `t < k`.
pub open spec fn count_roots(rt: Seq<int>, k: int) -> nat
    decreases k,
{
    if k <= 0 {
        0
    } else {
        count_roots(rt, k - 1) + if rt[k - 1] == k - 1 { 1nat } else { 0nat }
    }
}

/// Number of classes.
pub open spec fn num_classes(rt: Seq<int>) -> nat {
    count_roots(rt, rt.len() as int)
}

/// The vertices `t < k` of the class `r`, in increasing order.
pub open spec fn members(rt: Seq<int>, r: int, k: int) -> Seq<usize>
    decreases k,
{
    if k <= 0 {
        Seq::empty()
    } else if rt[k - 1] == r {
        members(rt, r, k - 1).push((k - 1) as usize)
    } else {
        members(rt, r, k - 1)
    }
}

/// The non-empty rows among `rows[0 .. k]`, in order.
pub open spec fn nonempty_rows(rows: Seq<Seq<usize>>, k: int) -> Seq<Seq<usize>>
    decreases k,
{
    if k <= 0 {
        Seq::empty()
    } else if rows[k - 1].len() > 0 {
        nonempty_rows(rows, k - 1).push(rows[k - 1])
    } else {
        nonempty_rows(rows, k - 1)
    }
}

/// All classes, each as the increasing list of its vertices, ordered by
/// their representatives.
pub open spec fn groups_of(rt: Seq<int>) -> Seq<Seq<usize>> {
    nonempty_rows(
        Seq::new(rt.len(), |r: int| members(rt, r, rt.len() as int)),
        rt.len() as int,
    )
}

// ---------------------------------------------------------------------------
// Forest lemmas
// ---------------------------------------------------------------------------

pub proof fn lemma_identity_wf(n: nat)
    ensures
        forest_wf(identity_seq(n), identity_seq(n), Seq::new(n, |i: int| 0nat), 0),
{
    reveal(forest_wf);
}

/// The root of a non-root vertex has a strictly larger rank.
pub proof fn lemma_rank_root(par: Seq<int>, rt: Seq<int>, rank: Seq<nat>, bound: nat, i: int)
    requires
        forest_wf(par, rt, rank, bound),
        0 <= i < rt.len(),
        rt[i] != i,
    ensures
        rank[rt[i]] > rank[i],
    decreases bound - rank[i],
{
    reveal(forest_wf);
    let p = par[i];
    assert(rank[p] > rank[i]);
    if p != rt[i] {
        assert(rt[p] == rt[i]);
        lemma_rank_root(par, rt, rank, bound, p);
    }
}

/// Pointing a vertex straight at its root keeps the forest well formed.
pub proof fn lemma_compress(par: Seq<int>, rt: Seq<int>, rank: Seq<nat>, bound: nat, i: int)
    requires
        forest_wf(par, rt, rank, bound),
        0 <= i < rt.len(),
    ensures
        forest_wf(par.update(i, rt[i]), rt, rank, bound),
{
    reveal(forest_wf);
    if rt[i] != i {
        lemma_rank_root(par, rt, rank, bound, i);
    }
    let p2 = par.update(i, rt[i]);
    assert forall|k: int| 0 <= k < rt.len() implies (#[trigger] p2[k] == k <==> rt[k] == k) by {
        if k == i {
            assert(rt[rt[i]] == rt[i]);
        }
    }
}

/// Hanging the root `rj` below the root `ri` keeps the forest well formed.
pub proof fn lemma_join_wf(
    par: Seq<int>,
    rt: Seq<int>,
    rank: Seq<nat>,
    bound: nat,
    ri: int,
    rj: int,
)
    requires
        forest_wf(par, rt, rank, bound),
        0 <= ri < rt.len(),
        0 <= rj < rt.len(),
        rt[ri] == ri,
        rt[rj] == rj,
        ri != rj,
    ensures
        forest_wf(
            par.update(rj, ri),
            join_roots(rt, ri, rj),
            rank.update(ri, if rank[ri] > rank[rj] { rank[ri] } else { rank[rj] + 1 }),
            bound + 1,
        ),
{
    reveal(forest_wf);
    let par2 = par.update(rj, ri);
    let rt2 = join_roots(rt, ri, rj);
    let rank2 = rank.update(ri, if rank[ri] > rank[rj] { rank[ri] } else { rank[rj] + 1 });
    assert forall|i: int| 0 <= i < rt2.len() implies {
        &&& 0 <= #[trigger] par2[i] < rt2.len()
        &&& 0 <= rt2[i] < rt2.len()
        &&& rt2[rt2[i]] == rt2[i]
        &&& rt2[par2[i]] == rt2[i]
        &&& (par2[i] == i <==> rt2[i] == i)
        &&& (par2[i] != i ==> rank2[par2[i]] > rank2[i])
        &&& rank2[i] <= bound + 1
    } by {
        assert(rt[par[i]] == rt[i]);
        assert(rt[rt[i]] == rt[i]);
        if par[i] != i {
            assert(rank[par[i]] > rank[i]);
        }
    }
}

// ---------------------------------------------------------------------------
// Counting lemmas
// ---------------------------------------------------------------------------

pub proof fn lemma_count_le(rt: Seq<int>, r: int, k: int)
    ensures
        count_in(rt, r, k) <= if k < 0 { 0 } else { k },
    decreases k,
{
    if k > 0 {
        lemma_count_le(rt, r, k - 1);
    }
}

pub proof fn lemma_count_two_le(rt: Seq<int>, a: int, b: int, k: int)
    requires
        a != b,
    ensures
        count_in(rt, a, k) + count_in(rt, b, k) <= if k < 0 { 0 } else { k },
    decreases k,
{
    if k > 0 {
        lemma_count_two_le(rt, a, b, k - 1);
    }
}

pub proof fn lemma_count_self_pos(rt: Seq<int>, r: int, k: int)
    requires
        0 <= r < k,
        k <= rt.len(),
        rt[r] == r,
    ensures
        count_in(rt, r, k) >= 1,
    decreases k,
{
    if k - 1 > r {
        lemma_count_self_pos(rt, r, k - 1);
    }
}

pub proof fn lemma_count_join(rt: Seq<int>, ri: int, rj: int, r: int, k: int)
    requires
        ri != rj,
        0 <= k <= rt.len(),
    ensures
        count_in(join_roots(rt, ri, rj), r, k) == if r == ri {
            count_in(rt, ri, k) + count_in(rt, rj, k)
        } else if r == rj {
            0
        } else {
            count_in(rt, r, k)
        },
    decreases k,
{
    if k > 0 {
        lemma_count_join(rt, ri, rj, r, k - 1);
    }
}

pub proof fn lemma_count_roots_join(rt: Seq<int>, ri: int, rj: int, k: int)
    requires
        ri != rj,
        0 <= k <= rt.len(),
        0 <= ri < rt.len(),
        rt[ri] == ri,
        rt[rj] == rj,
    ensures
        count_roots(join_roots(rt, ri, rj), k) == count_roots(rt, k) - if 0 <= rj < k {
            1int
        } else {
            0int
        },
    decreases k,
{
    if k > 0 {
        lemma_count_roots_join(rt, ri, rj, k - 1);
    }
}

pub proof fn lemma_count_roots_le(rt: Seq<int>, k: int)
    ensures
        count_roots(rt, k) <= if k < 0 { 0 } else { k },
    decreases k,
{
    if k > 0 {
        lemma_count_roots_le(rt, k - 1);
    }
}

pub proof fn lemma_count_roots_identity(n: nat, k: int)
    requires
        0 <= k <= n,
    ensures
        count_roots(identity_seq(n), k) == k,
    decreases k,
{
    if k > 0 {
        lemma_count_roots_identity(n, k - 1);
    }
}

pub proof fn lemma_count_identity(n: nat, r: int, k: int)
    requires
        0 <= k <= n,
    ensures
        count_in(identity_seq(n), r, k) == if 0 <= r < k { 1nat } else { 0nat },
    decreases k,
{
    if k > 0 {
        lemma_count_identity(n, r, k - 1);
    }
}

/// `members` lists exactly `count_in` vertices.
pub proof fn lemma_members_len(rt: Seq<int>, r: int, k: int)
    ensures
        members(rt, r, k).len() == count_in(rt, r, k),
    decreases k,
{
    if k > 0 {
        lemma_members_len(rt, r, k - 1);
    }
}

/// Law: joining two different classes leaves one class fewer.
pub proof fn lemma_join_drops_one_class(rt: Seq<int>, ri: int, rj: int)
    requires
        0 <= ri < rt.len(),
        0 <= rj < rt.len(),
        rt[ri] == ri,
        rt[rj] == rj,
        ri != rj,
    ensures
        num_classes(join_roots(rt, ri, rj)) == num_classes(rt) - 1,
{
    lemma_count_roots_join(rt, ri, rj, rt.len() as int);
}

/// Sum of the sizes of the classes whose representative is a vertex `r < m`.
pub open spec fn sizes_below(rt: Seq<int>, m: int) -> nat
    decreases m,
{
    if m <= 0 {
        0
    } else {
        sizes_below(rt, m - 1) + if rt[m - 1] == m - 1 { class_size(rt, m - 1) } else { 0nat }
    }
}

/// Number of vertices `t < k` whose representative lies in `0..m`.
spec fn count_rep_below(rt: Seq<int>, m: int, k: int) -> nat
    decreases k,
{
    if k <= 0 {
        0
    } else {
        count_rep_below(rt, m, k - 1) + if 0 <= rt[k - 1] < m { 1nat } else { 0nat }
    }
}

proof fn lemma_count_rep_below_step(rt: Seq<int>, m: int, k: int)
    requires
        m >= 0,
    ensures
        count_rep_below(rt, m + 1, k) == count_rep_below(rt, m, k) + count_in(rt, m, k),
    decreases k,
{
    if k > 0 {
        lemma_count_rep_below_step(rt, m, k - 1);
    }
}

proof fn lemma_count_non_root(rt: Seq<int>, r: int, k: int)
    requires
        k <= rt.len(),
        forall|i: int| 0 <= i < rt.len() ==> 0 <= #[trigger] rt[i] < rt.len() && rt[rt[i]] == rt[i],
        0 <= r < rt.len(),
        rt[r] != r,
    ensures
        count_in(rt, r, k) == 0,
    decreases k,
{
    if k > 0 {
        lemma_count_non_root(rt, r, k - 1);
        assert(rt[k - 1] != r) by {
            if rt[k - 1] == r {
                assert(rt[rt[k - 1]] == rt[k - 1]);
            }
        }
    }
}

proof fn lemma_sizes_below_count(rt: Seq<int>, m: int)
    requires
        0 <= m <= rt.len(),
        forall|i: int| 0 <= i < rt.len() ==> 0 <= #[trigger] rt[i] < rt.len() && rt[rt[i]] == rt[i],
    ensures
        sizes_below(rt, m) == count_rep_below(rt, m, rt.len() as int),
    decreases m,
{
    if m == 0 {
        lemma_count_rep_below_zero(rt, rt.len() as int);
    } else {
        lemma_sizes_below_count(rt, m - 1);
        lemma_count_rep_below_step(rt, m - 1, rt.len() as int);
        if rt[m - 1] != m - 1 {
            lemma_count_non_root(rt, m - 1, rt.len() as int);
        }
    }
}

proof fn lemma_count_rep_below_zero(rt: Seq<int>, k: int)
    ensures
        count_rep_below(rt, 0, k) == 0,
    decreases k,
{
    if k > 0 {
        lemma_count_rep_below_zero(rt, k - 1);
    }
}

proof fn lemma_count_rep_below_all(rt: Seq<int>, k: int)
    requires
        0 <= k <= rt.len(),
        forall|i: int| 0 <= i < rt.len() ==> 0 <= #[trigger] rt[i] < rt.len() && rt[rt[i]] == rt[i],
    ensures
        count_rep_below(rt, rt.len() as int, k) == k,
    decreases k,
{
    if k > 0 {
        lemma_count_rep_below_all(rt, k - 1);
        assert(0 <= rt[k - 1] < rt.len());
    }
}

/// Law: when every vertex's representative is a vertex that represents
/// itself, the sizes of the classes, one per representative, add up to the
/// number of vertices.
pub proof fn lemma_class_sizes_sum(rt: Seq<int>)
    requires
        forall|i: int| 0 <= i < rt.len() ==> 0 <= #[trigger] rt[i] < rt.len() && rt[rt[i]] == rt[i],
    ensures
        sizes_below(rt, rt.len() as int) == rt.len(),
{
    lemma_sizes_below_count(rt, rt.len() as int);
    lemma_count_rep_below_all(rt, rt.len() as int);
}

/// Some group holds `v`.
pub open spec fn in_some_group(g: Seq<Seq<usize>>, v: usize) -> bool {
    exists|i: int| 0 <= i < g.len() && #[trigger] g[i].contains(v)
}

/// Every vertex's representative is a vertex that represents itself.
pub open spec fn rep_closed(rt: Seq<int>) -> bool {
    forall|i: int| 0 <= i < rt.len() ==> 0 <= #[trigger] rt[i] < rt.len() && rt[rt[i]] == rt[i]
}

proof fn lemma_members_facts(rt: Seq<int>, r: int, k: int)
    requires
        0 <= k <= rt.len(),
        rt.len() <= usize::MAX,
    ensures
        forall|u: usize| #[trigger] members(rt, r, k).contains(u) <==> (u < k && rt[u as int] == r),
        forall|a: int, b: int| 0 <= a < b < members(rt, r, k).len() ==> members(rt, r, k)[a] < members(rt, r, k)[b],
        forall|a: int| 0 <= a < members(rt, r, k).len() ==> #[trigger] members(rt, r, k)[a] < k,
    decreases k,
{
    if k > 0 {
        lemma_members_facts(rt, r, k - 1);
        let prev = members(rt, r, k - 1);
        if rt[k - 1] == r {
            let cur = prev.push((k - 1) as usize);
            assert forall|u: usize| #[trigger] cur.contains(u) <==> (u < k && rt[u as int] == r) by {
                if cur.contains(u) {
                    let w = choose|w: int| 0 <= w < cur.len() && cur[w] == u;
                    if w < prev.len() {
                        assert(prev[w] == u);
                        assert(prev.contains(u));
                    }
                }
                if u < k && rt[u as int] == r {
                    if u < k - 1 {
                        assert(prev.contains(u));
                        let w = choose|w: int| 0 <= w < prev.len() && prev[w] == u;
                        assert(cur[w] == u);
                    } else {
                        assert(cur[prev.len() as int] == u);
                    }
                }
            }
        } else {
            assert forall|u: usize| #[trigger] prev.contains(u) <==> (u < k && rt[u as int] == r) by {
                if u == k - 1 && prev.contains(u) {
                    let w = choose|w: int| 0 <= w < prev.len() && prev[w] == u;
                    assert(prev[w] < k - 1);
                }
            }
        }
    }
}

/// `x` is a non-empty row among `rows[0 .. k]`.
spec fn row_among(rows: Seq<Seq<usize>>, k: int, x: Seq<usize>) -> bool {
    exists|j: int| 0 <= j < k && #[trigger] rows[j] == x && x.len() > 0
}

proof fn lemma_rows_from(rows: Seq<Seq<usize>>, k: int)
    requires
        0 <= k <= rows.len(),
    ensures
        forall|i: int| 0 <= i < nonempty_rows(rows, k).len() ==> row_among(rows, k, #[trigger] nonempty_rows(rows, k)[i]),
        forall|j: int| 0 <= j < k && rows[j].len() > 0 ==> nonempty_rows(rows, k).contains(#[trigger] rows[j]),
    decreases k,
{
    if k > 0 {
        lemma_rows_from(rows, k - 1);
        let prev = nonempty_rows(rows, k - 1);
        let cur = nonempty_rows(rows, k);
        assert forall|x: Seq<usize>| row_among(rows, k - 1, x) implies row_among(rows, k, x) by {
            let j = choose|j: int| 0 <= j < k - 1 && #[trigger] rows[j] == x && x.len() > 0;
            assert(rows[j] == x);
        }
        if rows[k - 1].len() > 0 {
            assert(cur == prev.push(rows[k - 1]));
            assert forall|i: int| 0 <= i < cur.len() implies row_among(rows, k, #[trigger] cur[i]) by {
                if i < prev.len() {
                    assert(cur[i] == prev[i]);
                    assert(row_among(rows, k - 1, prev[i]));
                } else {
                    assert(cur[i] == rows[k - 1]);
                }
            }
            assert forall|j: int| 0 <= j < k && rows[j].len() > 0 implies cur.contains(#[trigger] rows[j]) by {
                if j < k - 1 {
                    assert(prev.contains(rows[j]));
                    let w = choose|w: int| 0 <= w < prev.len() && prev[w] == rows[j];
                    assert(cur[w] == rows[j]);
                } else {
                    assert(cur[prev.len() as int] == rows[j]);
                }
            }
        } else {
            assert(cur == prev);
            assert forall|i: int| 0 <= i < cur.len() implies row_among(rows, k, #[trigger] cur[i]) by {
                assert(row_among(rows, k - 1, prev[i]));
            }
        }
    }
}

proof fn lemma_rows_distinct(rows: Seq<Seq<usize>>, k: int)
    requires
        0 <= k <= rows.len(),
        forall|a: int, b: int| 0 <= a < b < rows.len() && rows[a].len() > 0 && rows[b].len() > 0 ==> #[trigger] rows[a] != #[trigger] rows[b],
    ensures
        nonempty_rows(rows, k).no_duplicates(),
    decreases k,
{
    if k > 0 {
        lemma_rows_distinct(rows, k - 1);
        lemma_rows_from(rows, k - 1);
        let prev = nonempty_rows(rows, k - 1);
        if rows[k - 1].len() > 0 {
            let cur = prev.push(rows[k - 1]);
            assert forall|a: int, b: int| 0 <= a < b < cur.len() implies cur[a] != cur[b] by {
                if b == prev.len() {
                    assert(row_among(rows, k - 1, prev[a]));
                    let j = choose|j: int| 0 <= j < k - 1 && #[trigger] rows[j] == prev[a] && prev[a].len() > 0;
                    assert(rows[j] != rows[k - 1]);
                } else {
                    assert(cur[a] == prev[a] && cur[b] == prev[b]);
                }
            }
        }
    }
}

proof fn lemma_rows_count(rt: Seq<int>, rows: Seq<Seq<usize>>, k: int)
    requires
        0 <= k <= rows.len(),
        rows.len() == rt.len(),
        forall|j: int| 0 <= j < rows.len() ==> (#[trigger] rows[j].len() > 0 <==> rt[j] == j),
    ensures
        nonempty_rows(rows, k).len() == count_roots(rt, k),
    decreases k,
{
    if k > 0 {
        lemma_rows_count(rt, rows, k - 1);
    }
}

proof fn lemma_row_facts(rt: Seq<int>, r: int)
    requires
        rep_closed(rt),
        rt.len() <= usize::MAX,
        0 <= r < rt.len(),
    ensures
        forall|u: usize| #[trigger] members(rt, r, rt.len() as int).contains(u) <==> (u < rt.len() && rt[u as int] == r),
        forall|a: int, b: int| 0 <= a < b < members(rt, r, rt.len() as int).len()
            ==> members(rt, r, rt.len() as int)[a] < members(rt, r, rt.len() as int)[b],
        members(rt, r, rt.len() as int).len() > 0 <==> rt[r] == r,
{
    let n = rt.len() as int;
    let m = members(rt, r, n);
    lemma_members_facts(rt, r, n);
    if rt[r] == r {
        assert(m.contains(r as usize));
    }
    if m.len() > 0 {
        assert(m.contains(m[0]));
        let u = m[0];
        assert(rt[u as int] == r);
    }
}

/// Law: for representatives that are vertices representing themselves,
/// the groups are as many as the classes, each is non-empty and increasing,
/// a group holds exactly the vertices of the class of its first vertex, and
/// every vertex lies in exactly one group.
pub proof fn lemma_groups_partition(rt: Seq<int>)
    requires
        rep_closed(rt),
        rt.len() <= usize::MAX,
    ensures
        groups_of(rt).len() == num_classes(rt),
        forall|i: int| 0 <= i < groups_of(rt).len() ==> #[trigger] groups_of(rt)[i].len() > 0,
        forall|i: int, a: int, b: int| 0 <= i < groups_of(rt).len() && 0 <= a < b < groups_of(rt)[i].len()
            ==> #[trigger] groups_of(rt)[i][a] < #[trigger] groups_of(rt)[i][b],
        forall|i: int, u: usize| 0 <= i < groups_of(rt).len() && u < rt.len() ==>
            (#[trigger] groups_of(rt)[i].contains(u) <==> rt[u as int] == rt[groups_of(rt)[i][0] as int]),
        forall|v: usize| v < rt.len() ==> #[trigger] in_some_group(groups_of(rt), v),
        forall|i: int, j: int, v: usize| 0 <= i < groups_of(rt).len() && 0 <= j < groups_of(rt).len()
            && #[trigger] groups_of(rt)[i].contains(v) && #[trigger] groups_of(rt)[j].contains(v) ==> i == j,
{
    let n = rt.len() as int;
    let rows = Seq::new(rt.len(), |r: int| members(rt, r, n));
    let g = groups_of(rt);
    assert(g == nonempty_rows(rows, n));
    assert forall|j: int| 0 <= j < rows.len() implies (#[trigger] rows[j].len() > 0 <==> rt[j] == j) by {
        lemma_row_facts(rt, j);
    }
    lemma_rows_from(rows, n);
    lemma_rows_count(rt, rows, n);
    assert forall|a: int, b: int| 0 <= a < b < rows.len() && rows[a].len() > 0 && rows[b].len() > 0 implies #[trigger] rows[a] != #[trigger] rows[b] by {
        lemma_row_facts(rt, a);
        lemma_row_facts(rt, b);
        assert(rows[a].contains(a as usize));
        if rows[a] == rows[b] {
            assert(rows[b].contains(a as usize));
        }
    }
    lemma_rows_distinct(rows, n);
    assert forall|i: int| 0 <= i < g.len() implies #[trigger] g[i].len() > 0 by {
        assert(row_among(rows, n, g[i]));
        let j = choose|j: int| 0 <= j < n && #[trigger] rows[j] == g[i] && g[i].len() > 0;
    }
    assert forall|i: int, a: int, b: int| 0 <= i < g.len() && 0 <= a < b < g[i].len()
        implies #[trigger] g[i][a] < #[trigger] g[i][b] by {
        assert(row_among(rows, n, g[i]));
        let j = choose|j: int| 0 <= j < n && #[trigger] rows[j] == g[i] && g[i].len() > 0;
        lemma_row_facts(rt, j);
    }
    assert forall|i: int, u: usize| 0 <= i < g.len() && u < rt.len() implies
        (#[trigger] g[i].contains(u) <==> rt[u as int] == rt[g[i][0] as int]) by {
        assert(row_among(rows, n, g[i]));
        let j = choose|j: int| 0 <= j < n && #[trigger] rows[j] == g[i] && g[i].len() > 0;
        lemma_row_facts(rt, j);
        assert(rows[j].contains(g[i][0]));
    }
    assert forall|v: usize| v < rt.len() implies #[trigger] in_some_group(g, v) by {
        let r = rt[v as int];
        lemma_row_facts(rt, r);
        assert(rows[r].contains(v));
        assert(g.contains(rows[r]));
        let i = choose|i: int| 0 <= i < g.len() && g[i] == rows[r];
        assert(g[i].contains(v));
    }
    assert forall|i: int, j: int, v: usize| 0 <= i < g.len() && 0 <= j < g.len()
        && #[trigger] g[i].contains(v) && #[trigger] g[j].contains(v) implies i == j by {
        assert(row_among(rows, n, g[i]));
        assert(row_among(rows, n, g[j]));
        let a = choose|a: int| 0 <= a < n && #[trigger] rows[a] == g[i] && g[i].len() > 0;
        let b = choose|b: int| 0 <= b < n && #[trigger] rows[b] == g[j] && g[j].len() > 0;
        lemma_row_facts(rt, a);
        lemma_row_facts(rt, b);
        assert(rows[a].contains(v));
        assert(rows[b].contains(v));
        assert(a == b);
        if i != j {
            assert(g[i] == g[j]);
        }
    }
}

/// The pair `p` joins `w` and `v`, in either order.
pub open spec fn joins_pair(p: (int, int), w: int, v: int) -> bool {
    (p.0 == w && p.1 == v) || (p.1 == w && p.0 == v)
}

/// A chain of at most `k` pairs of `ps` leads from `u` to `v`.
pub open spec fn link_steps(ps: Seq<(int, int)>, u: int, v: int, k: nat) -> bool
    decreases k,
{
    if k == 0 {
        u == v
    } else {
        link_steps(ps, u, v, (k - 1) as nat) || exists|w: int, i: int|
            0 <= i < ps.len() && link_steps(ps, u, w, (k - 1) as nat) && #[trigger] joins_pair(ps[i], w, v)
    }
}

/// A chain of pairs of `ps` leads from `u` to `v`: `u` and `v` are related
/// by the least equivalence that holds every pair of `ps`.
pub open spec fn linked(ps: Seq<(int, int)>, u: int, v: int) -> bool {
    exists|k: nat| #[trigger] link_steps(ps, u, v, k)
}

/// The classes of `rt` are exactly the vertices linked by `ps`.
pub open spec fn classes_are_links(rt: Seq<int>, ps: Seq<(int, int)>) -> bool {
    &&& forall|i: int| 0 <= i < ps.len() ==> 0 <= #[trigger] ps[i].0 < rt.len() && 0 <= ps[i].1 < rt.len()
    &&& forall|u: int, v: int| 0 <= u < rt.len() && 0 <= v < rt.len() ==> (#[trigger] rt[u] == #[trigger] rt[v] <==> linked(ps, u, v))
}

proof fn lemma_steps_grow(ps: Seq<(int, int)>, q: (int, int), u: int, v: int, k: nat)
    requires
        link_steps(ps, u, v, k),
    ensures
        link_steps(ps.push(q), u, v, k),
    decreases k,
{
    if k > 0 {
        let qs = ps.push(q);
        if link_steps(ps, u, v, (k - 1) as nat) {
            lemma_steps_grow(ps, q, u, v, (k - 1) as nat);
        } else {
            let (w, i) = choose|w: int, i: int|
                0 <= i < ps.len() && link_steps(ps, u, w, (k - 1) as nat) && #[trigger] joins_pair(ps[i], w, v);
            lemma_steps_grow(ps, q, u, w, (k - 1) as nat);
            assert(qs[i] == ps[i]);
            assert(link_steps(qs, u, w, (k - 1) as nat) && joins_pair(qs[i], w, v));
        }
    }
}

proof fn lemma_steps_more(ps: Seq<(int, int)>, u: int, v: int, k: nat, k2: nat)
    requires
        link_steps(ps, u, v, k),
        k <= k2,
    ensures
        link_steps(ps, u, v, k2),
    decreases k2,
{
    if k2 > k {
        lemma_steps_more(ps, u, v, k, (k2 - 1) as nat);
    }
}

/// Chains concatenate.
proof fn lemma_steps_concat(ps: Seq<(int, int)>, u: int, w: int, v: int, k1: nat, k2: nat)
    requires
        link_steps(ps, u, w, k1),
        link_steps(ps, w, v, k2),
    ensures
        link_steps(ps, u, v, k1 + k2),
    decreases k2,
{
    if k2 == 0 {
    } else if link_steps(ps, w, v, (k2 - 1) as nat) {
        lemma_steps_concat(ps, u, w, v, k1, (k2 - 1) as nat);
        lemma_steps_more(ps, u, v, (k1 + k2 - 1) as nat, k1 + k2);
    } else {
        let (x, i) = choose|x: int, i: int|
            0 <= i < ps.len() && link_steps(ps, w, x, (k2 - 1) as nat) && #[trigger] joins_pair(ps[i], x, v);
        lemma_steps_concat(ps, u, w, x, k1, (k2 - 1) as nat);
        assert(link_steps(ps, u, x, (k1 + k2 - 1) as nat) && joins_pair(ps[i], x, v));
    }
}

/// A chain ends in the class it starts in, when every pair lies in a class.
proof fn lemma_steps_same_class(rt: Seq<int>, ps: Seq<(int, int)>, u: int, v: int, k: nat)
    requires
        forall|i: int| 0 <= i < ps.len() ==> rt[#[trigger] ps[i].0] == rt[ps[i].1],
        link_steps(ps, u, v, k),
    ensures
        rt[u] == rt[v],
    decreases k,
{
    if k > 0 {
        if link_steps(ps, u, v, (k - 1) as nat) {
            lemma_steps_same_class(rt, ps, u, v, (k - 1) as nat);
        } else {
            let (w, i) = choose|w: int, i: int|
                0 <= i < ps.len() && link_steps(ps, u, w, (k - 1) as nat) && #[trigger] joins_pair(ps[i], w, v);
            lemma_steps_same_class(rt, ps, u, w, (k - 1) as nat);
            assert(rt[ps[i].0] == rt[ps[i].1]);
        }
    }
}

/// At the start every vertex is its own class and no pair is held.
pub proof fn lemma_links_identity(n: nat)
    ensures
        classes_are_links(identity_seq(n), Seq::empty()),
{
    let rt = identity_seq(n);
    let ps = Seq::<(int, int)>::empty();
    assert forall|u: int, v: int| 0 <= u < rt.len() && 0 <= v < rt.len() implies (#[trigger] rt[u] == #[trigger] rt[v] <==> linked(ps, u, v)) by {
        if u == v {
            assert(link_steps(ps, u, v, 0));
        }
        if linked(ps, u, v) {
            let k = choose|k: nat| #[trigger] link_steps(ps, u, v, k);
            lemma_steps_same_class(rt, ps, u, v, k);
        }
    }
}

/// A pair already within a class keeps the classes the linked vertices.
pub proof fn lemma_links_same(rt: Seq<int>, ps: Seq<(int, int)>, i: int, j: int)
    requires
        classes_are_links(rt, ps),
        0 <= i < rt.len(),
        0 <= j < rt.len(),
        rt[i] == rt[j],
    ensures
        classes_are_links(rt, ps.push((i, j))),
{
    let qs = ps.push((i, j));
    assert forall|a: int| 0 <= a < qs.len() implies 0 <= #[trigger] qs[a].0 < rt.len() && 0 <= qs[a].1 < rt.len() by {
        if a < ps.len() {
            assert(qs[a] == ps[a]);
        }
    }
    assert forall|a: int| 0 <= a < qs.len() implies rt[#[trigger] qs[a].0] == rt[qs[a].1] by {
        if a < ps.len() {
            assert(qs[a] == ps[a]);
            lemma_pair_in_class(rt, ps, a);
        }
    }
    assert forall|u: int, v: int| 0 <= u < rt.len() && 0 <= v < rt.len() implies (#[trigger] rt[u] == #[trigger] rt[v] <==> linked(qs, u, v)) by {
        if rt[u] == rt[v] {
            assert(linked(ps, u, v));
            let k = choose|k: nat| #[trigger] link_steps(ps, u, v, k);
            lemma_steps_grow(ps, (i, j), u, v, k);
        }
        if linked(qs, u, v) {
            let k = choose|k: nat| #[trigger] link_steps(qs, u, v, k);
            lemma_steps_same_class(rt, qs, u, v, k);
        }
    }
}

proof fn lemma_pair_in_class(rt: Seq<int>, ps: Seq<(int, int)>, a: int)
    requires
        classes_are_links(rt, ps),
        0 <= a < ps.len(),
    ensures
        rt[ps[a].0] == rt[ps[a].1],
{
    let (x, y) = ps[a];
    assert(0 <= x < rt.len() && 0 <= y < rt.len());
    assert(link_steps(ps, x, x, 0));
    assert(link_steps(ps, x, y, 1)) by {
        assert(link_steps(ps, x, x, 0) && joins_pair(ps[a], x, y));
    }
    assert(linked(ps, x, y));
}

/// Joining the classes of `i` and `j` keeps the classes the linked
/// vertices once the pair `(i, j)` is held.
pub proof fn lemma_links_join(rt: Seq<int>, ps: Seq<(int, int)>, i: int, j: int, big: int, small: int)
    requires
        classes_are_links(rt, ps),
        0 <= i < rt.len(),
        0 <= j < rt.len(),
        (big == rt[i] && small == rt[j]) || (big == rt[j] && small == rt[i]),
        big != small,
    ensures
        classes_are_links(join_roots(rt, big, small), ps.push((i, j))),
{
    let qs = ps.push((i, j));
    let rt2 = join_roots(rt, big, small);
    assert forall|a: int| 0 <= a < qs.len() implies 0 <= #[trigger] qs[a].0 < rt2.len() && 0 <= qs[a].1 < rt2.len() by {
        if a < ps.len() {
            assert(qs[a] == ps[a]);
        }
    }
    assert forall|a: int| 0 <= a < qs.len() implies rt2[#[trigger] qs[a].0] == rt2[qs[a].1] by {
        if a < ps.len() {
            assert(qs[a] == ps[a]);
            lemma_pair_in_class(rt, ps, a);
        }
    }
    assert forall|u: int, v: int| 0 <= u < rt2.len() && 0 <= v < rt2.len() implies (#[trigger] rt2[u] == #[trigger] rt2[v] <==> linked(qs, u, v)) by {
        if linked(qs, u, v) {
            let k = choose|k: nat| #[trigger] link_steps(qs, u, v, k);
            lemma_steps_same_class(rt2, qs, u, v, k);
        }
        if rt2[u] == rt2[v] {
            if rt[u] == rt[v] {
                assert(linked(ps, u, v));
                let k = choose|k: nat| #[trigger] link_steps(ps, u, v, k);
                lemma_steps_grow(ps, (i, j), u, v, k);
            } else {
                // one of u, v lies in the class of i and the other in that of j
                let (x, y) = if rt[u] == rt[i] { (i, j) } else { (j, i) };
                assert(rt[u] == rt[x] && rt[v] == rt[y]);
                assert(linked(ps, u, x));
                assert(linked(ps, y, v));
                let k1 = choose|k: nat| #[trigger] link_steps(ps, u, x, k);
                let k2 = choose|k: nat| #[trigger] link_steps(ps, y, v, k);
                lemma_steps_grow(ps, (i, j), u, x, k1);
                lemma_steps_grow(ps, (i, j), y, v, k2);
                assert(link_steps(qs, x, x, 0));
                assert(joins_pair(qs[ps.len() as int], x, y));
                assert(link_steps(qs, x, y, 1));
                lemma_steps_concat(qs, u, x, y, k1, 1);
                lemma_steps_concat(qs, u, y, v, k1 + 1, k2);
            }
        }
    }
}

/// The number of pairs among `ps[0 .. k]` whose first vertex has the
/// representative `r`.
pub open spec fn pair_count(rt: Seq<int>, ps: Seq<(int, int)>, r: int, k: int) -> nat
    decreases k,
{
    if k <= 0 {
        0
    } else {
        pair_count(rt, ps, r, k - 1) + if rt[ps[k - 1].0] == r { 1nat } else { 0nat }
    }
}

proof fn lemma_pair_count_prefix(rt: Seq<int>, ps: Seq<(int, int)>, p: (int, int), r: int, k: int)
    requires
        0 <= k <= ps.len(),
    ensures
        pair_count(rt, ps.push(p), r, k) == pair_count(rt, ps, r, k),
    decreases k,
{
    if k > 0 {
        lemma_pair_count_prefix(rt, ps, p, r, k - 1);
        assert(ps.push(p)[k - 1] == ps[k - 1]);
    }
}

pub proof fn lemma_pair_count_push(rt: Seq<int>, ps: Seq<(int, int)>, p: (int, int), r: int)
    ensures
        pair_count(rt, ps.push(p), r, ps.len() as int + 1) == pair_count(rt, ps, r, ps.len() as int)
            + if rt[p.0] == r { 1nat } else { 0nat },
{
    lemma_pair_count_prefix(rt, ps, p, r, ps.len() as int);
    assert(ps.push(p)[ps.len() as int] == p);
}

pub proof fn lemma_pair_count_join(rt: Seq<int>, ps: Seq<(int, int)>, big: int, small: int, r: int, k: int)
    requires
        big != small,
        0 <= k <= ps.len(),
        forall|i: int| 0 <= i < ps.len() ==> 0 <= #[trigger] ps[i].0 < rt.len() && 0 <= ps[i].1 < rt.len(),
    ensures
        pair_count(join_roots(rt, big, small), ps, r, k) == if r == big {
            pair_count(rt, ps, big, k) + pair_count(rt, ps, small, k)
        } else if r == small {
            0
        } else {
            pair_count(rt, ps, r, k)
        },
    decreases k,
{
    if k > 0 {
        lemma_pair_count_join(rt, ps, big, small, r, k - 1);
        assert(0 <= ps[k - 1].0 < rt.len());
    }
}

} // verus!
