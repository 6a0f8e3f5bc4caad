//! Coordinate compression: numbers the distinct values seen so far in
//! increasing order.
use vstd::prelude::*;
use crate::sorted_seq::{sorted, strictly_sorted, lower_index};

verus! {

/// The number of elements of `s` below `v`.
pub open spec fn count_below(s: Seq<i64>, v: i64) -> nat
    decreases s.len(),
{
    if s.len() == 0 {
        0
    } else {
        count_below(s.drop_last(), v) + if s.last() < v { 1nat } else { 0nat }
    }
}

proof fn lemma_count_below_all(s: Seq<i64>, v: i64)
    requires
        forall|i: int| 0 <= i < s.len() ==> s[i] < v,
    ensures
        count_below(s, v) == s.len(),
    decreases s.len(),
{
    if s.len() > 0 {
        let d = s.drop_last();
        assert forall|i: int| 0 <= i < d.len() implies d[i] < v by {
            assert(d[i] == s[i]);
        }
        lemma_count_below_all(d, v);
    }
}

/// Law: in a strictly increasing sequence, the position of an element is
/// the number of elements below it.
pub proof fn lemma_position_counts_below(s: Seq<i64>, k: int)
    requires
        strictly_sorted(s),
        0 <= k < s.len(),
    ensures
        count_below(s, s[k]) == k,
    decreases s.len(),
{
    let d = s.drop_last();
    assert(strictly_sorted(d)) by {
        assert forall|a: int, b: int| 0 <= a < b < d.len() implies d[a] < d[b] by {
            assert(d[a] == s[a] && d[b] == s[b]);
        }
    }
    if k == s.len() - 1 {
        assert forall|i: int| 0 <= i < d.len() implies d[i] < s[k] by {
            assert(d[i] == s[i]);
        }
        lemma_count_below_all(d, s[k]);
    } else {
        lemma_position_counts_below(d, k);
        assert(d[k] == s[k]);
        assert(s[k] < s[s.len() - 1]);
    }
}

/// The distinct values added so far, kept in increasing order.
pub struct ValueCompression {
    coords: Vec<i64>,
}

impl View for ValueCompression {
    type V = Seq<i64>;

    /// The distinct values in increasing order; a value's position is its number.
    closed spec fn view(&self) -> Seq<i64> {
        self.coords@
    }
}

proof fn lemma_strict_is_sorted(s: Seq<i64>)
    requires
        strictly_sorted(s),
    ensures
        sorted(s),
{
}

proof fn lemma_insert_strict(s: Seq<i64>, x: i64, i: int)
    requires
        strictly_sorted(s),
        0 <= i <= s.len(),
        forall|k: int| 0 <= k < i ==> s[k] < x,
        forall|k: int| i <= k < s.len() ==> s[k] > x,
    ensures
        strictly_sorted(s.insert(i, x)),
        forall|y: i64| #[trigger] s.insert(i, x).contains(y) <==> (s.contains(y) || y == x),
{
    let u = s.insert(i, x);
    assert forall|a: int, b: int| 0 <= a < b < u.len() implies u[a] < u[b] by {
        if a < i && b < i {
        } else if a < i && b == i {
        } else if a < i {
            assert(u[b] == s[b - 1]);
        } else if a == i {
            assert(u[b] == s[b - 1]);
        } else {
            assert(u[a] == s[a - 1] && u[b] == s[b - 1]);
        }
    }
    assert forall|y: i64| u.contains(y) <==> (s.contains(y) || y == x) by {
        if u.contains(y) {
            let k = choose|k: int| 0 <= k < u.len() && u[k] == y;
            if k < i {
                assert(s[k] == y);
            } else if k > i {
                assert(s[k - 1] == y);
            }
        }
        if s.contains(y) {
            let k = choose|k: int| 0 <= k < s.len() && s[k] == y;
            if k < i {
                assert(u[k] == y);
            } else {
                assert(u[k + 1] == y);
            }
        }
        if y == x {
            assert(u[i] == y);
        }
    }
}

impl ValueCompression {
    /// The values are strictly increasing.
    pub closed spec fn wf(&self) -> bool {
        strictly_sorted(self.coords@)
    }

    pub proof fn lemma_wf(&self)
        requires
            self.wf(),
        ensures
            strictly_sorted(self@),
    {
    }

    /// The number of distinct values.
    pub fn len(&self) -> (n: usize)
        ensures
            n == self@.len(),
    {
        self.coords.len()
    }

    /// No values yet.
    pub fn new() -> (c: Self)
        ensures
            c.wf(),
            c@ == Seq::<i64>::empty(),
    {
        ValueCompression { coords: Vec::new() }
    }

    /// Adds `x`.
    #[verifier::spinoff_prover]
    pub fn add(&mut self, x: i64)
        requires
            old(self).wf(),
        ensures
            final(self).wf(),
            strictly_sorted(final(self)@),
            forall|y: i64| final(self)@.contains(y) <==> (old(self)@.contains(y) || y == x),
    {
        proof {
            lemma_strict_is_sorted(self.coords@);
        }
        let i = lower_index(&self.coords, x);
        if i < self.coords.len() && self.coords[i] == x {
            proof {
                assert(old(self)@.contains(x));
                assert(self@ == old(self)@);
                assert(self.coords@ == old(self).coords@);
                assert forall|y: i64| self@.contains(y) <==> (old(self)@.contains(y) || y == x) by {}
            }
        } else {
            proof {
                assert forall|k: int| i <= k < self.coords@.len() implies self.coords@[k] > x by {
                    if k > i {
                        assert(self.coords@[i as int] < self.coords@[k]);
                    }
                }
                lemma_insert_strict(self.coords@, x, i as int);
            }
            self.coords.insert(i, x);
            proof {
                assert(self.coords@ == old(self).coords@.insert(i as int, x));
                assert forall|y: i64| self@.contains(y) <==> (old(self)@.contains(y) || y == x) by {}
            }
        }
    }

    /// Binary search: `Ok(i)` when `x` is the `i`-th value, otherwise
    /// `Err(i)` with `i` the number of values below `x`.
    pub fn search(&self, x: &i64) -> (r: Result<usize, usize>)
        requires
            self.wf(),
        ensures
            match r {
                Ok(i) => i < self@.len() && self@[i as int] == *x,
                Err(i) => i <= self@.len() && !self@.contains(*x) && (forall|k: int|
                    0 <= k < i ==> self@[k] < *x) && (forall|k: int|
                    i <= k < self@.len() ==> self@[k] > *x),
            },
    {
        proof {
            lemma_strict_is_sorted(self.coords@);
        }
        let i = lower_index(&self.coords, *x);
        if i < self.coords.len() && self.coords[i] == *x {
            Ok(i)
        } else {
            proof {
                assert forall|k: int| i <= k < self.coords@.len() implies self.coords@[k] > *x by {
                    if k > i {
                        assert(self.coords@[i as int] < self.coords@[k]);
                    }
                }
                if self.coords@.contains(*x) {
                    let k = choose|k: int| 0 <= k < self.coords@.len() && self.coords@[k] == *x;
                }
            }
            Err(i)
        }
    }

    /// The number of values below `x` (the number of `x` when `x` is present).
    pub fn rank(&self, x: &i64) -> (r: usize)
        requires
            self.wf(),
        ensures
            r <= self@.len(),
            forall|k: int| 0 <= k < r ==> self@[k] < *x,
            forall|k: int| r <= k < self@.len() ==> self@[k] >= *x,
    {
        let res = self.search(x);
        match res {
            Ok(i) => {
                proof {
                    assert forall|k: int| 0 <= k < i implies self@[k] < *x by {
                        assert(self.coords@[k] < self.coords@[i as int]);
                    }
                    assert forall|k: int| i <= k < self@.len() implies self@[k] >= *x by {
                        if k > i {
                            assert(self.coords@[i as int] < self.coords@[k]);
                        }
                    }
                }
                i
            },
            Err(i) => i,
        }
    }

    /// The value numbered `idx`.
    pub fn get(&self, idx: usize) -> (v: i64)
        requires
            idx < self@.len(),
        ensures
            v == self@[idx as int],
    {
        self.coords[idx]
    }

    /// Adds every value of `a`, then replaces each by its number.
    #[verifier::spinoff_prover]
    pub fn convert(&mut self, a: &[i64]) -> (b: Vec<usize>)
        requires
            old(self).wf(),
        ensures
            final(self).wf(),
            forall|y: i64| final(self)@.contains(y) <==> (old(self)@.contains(y) || a@.contains(y)),
            b@.len() == a@.len(),
            forall|k: int|
                0 <= k < a@.len() ==> #[trigger] b@[k] < final(self)@.len() && final(self)@[b@[k] as int]
                    == a@[k],
            forall|k: int| 0 <= k < a@.len() ==> #[trigger] b@[k] == count_below(final(self)@, a@[k]),
    {
        let mut k: usize = 0;
        while k < a.len()
            invariant
                k <= a@.len(),
                self.wf(),
                forall|y: i64|
                    self@.contains(y) <==> (old(self)@.contains(y) || a@.subrange(0, k as int).contains(y)),
            decreases a@.len() - k,
        {
            let ghost before = self@;
            self.add(a[k]);
            proof {
                assert forall|y: i64|
                    self@.contains(y) <==> (old(self)@.contains(y) || a@.subrange(0, k + 1).contains(y)) by {
                    let p = a@.subrange(0, k as int);
                    let q = a@.subrange(0, k + 1);
                    if p.contains(y) {
                        let w = choose|w: int| 0 <= w < p.len() && p[w] == y;
                        assert(q[w] == y);
                    }
                    if q.contains(y) {
                        let w = choose|w: int| 0 <= w < q.len() && q[w] == y;
                        if w < k {
                            assert(p[w] == y);
                        }
                    }
                    assert(q[k as int] == a@[k as int]);
                }
            }
            k += 1;
        }
        proof {
            assert(a@.subrange(0, a@.len() as int) =~= a@);
        }
        let ghost view = self@;
        let mut b: Vec<usize> = Vec::new();
        let mut j: usize = 0;
        while j < a.len()
            invariant
                j <= a@.len(),
                self.wf(),
                self@ == view,
                forall|y: i64| view.contains(y) <==> (old(self)@.contains(y) || a@.contains(y)),
                b@.len() == j,
                forall|t: int| #![trigger b@[t]] 0 <= t < j ==> b@[t] < view.len() && view[b@[t] as int] == a@[t],
            decreases a@.len() - j,
        {
            let r = self.rank(&a[j]);
            proof {
                assert(a@.contains(a@[j as int]));
                assert(view.contains(a@[j as int]));
                let w = choose|w: int| 0 <= w < view.len() && view[w] == a@[j as int];
                assert(self@[w] == a@[j as int]);
                assert(w >= r);
                if w > r {
                    assert(self.coords@[r as int] < self.coords@[w]);
                }
                assert(w == r);
            }
            let ghost b0 = b@;
            b.push(r);
            proof {
                assert forall|t: int| 0 <= t < j + 1 implies #[trigger] b@[t] < view.len() && view[b@[t] as int] == a@[t] by {
                    if t < j {
                        assert(b@[t] == b0[t]);
                    } else {
                        assert(b@[t] == r);
                    }
                }
            }
            j += 1;
        }
        proof {
            assert forall|k: int| 0 <= k < a@.len() implies #[trigger] b@[k] == count_below(self@, a@[k]) by {
                assert(b@[k] < view.len() && view[b@[k] as int] == a@[k]);
                lemma_position_counts_below(view, b@[k] as int);
            }
        }
        b
    }
}

} // verus!
