//! Dial's bucket queue: pairs `(key, value)` with keys in a window of
//! `max + 1` values from the last key taken out, kept in bucket
//! `key mod (max + 1)` and taken out least key first.
use vstd::prelude::*;
use vstd::multiset::Multiset;

verus! {

/// All pairs held in the buckets.
pub open spec fn total<T>(d: Seq<Vec<(usize, T)>>) -> Multiset<(usize, T)>
    decreases d.len(),
{
    if d.len() == 0 {
        Multiset::empty()
    } else {
        total(d.drop_last()).add(d.last()@.to_multiset())
    }
}

proof fn lemma_total_update<T>(d: Seq<Vec<(usize, T)>>, i: int, b: Vec<(usize, T)>)
    requires
        0 <= i < d.len(),
    ensures
        total(d.update(i, b)).add(d[i]@.to_multiset()) == total(d).add(b@.to_multiset()),
    decreases d.len(),
{
    broadcast use vstd::multiset::group_multiset_axioms;
    let e = d.update(i, b);
    let mi = d[i]@.to_multiset();
    let mb = b@.to_multiset();
    assert(total(e) == total(e.drop_last()).add(e.last()@.to_multiset()));
    assert(total(d) == total(d.drop_last()).add(d.last()@.to_multiset()));
    if i == d.len() - 1 {
        assert(e.drop_last() =~= d.drop_last());
        assert(e.last() == b);
        assert(d.last() == d[i]);
        assert(total(e).add(mi) =~= total(d).add(mb));
    } else {
        lemma_total_update(d.drop_last(), i, b);
        assert(e.drop_last() =~= d.drop_last().update(i, b));
        assert(e.last() == d.last());
        assert(d.drop_last()[i] == d[i]);
        let ml = d.last()@.to_multiset();
        assert(total(d.drop_last().update(i, b)).add(mi) == total(d.drop_last()).add(mb));
        assert forall|v: (usize, T)| #[trigger] total(e).add(mi).count(v) == total(d).add(mb).count(v) by {
            assert(total(d.drop_last().update(i, b)).add(mi).count(v) == total(d.drop_last()).add(mb).count(v));
        }
        assert(total(e).add(mi) =~= total(d).add(mb));
    }
}

proof fn lemma_total_nonempty<T>(d: Seq<Vec<(usize, T)>>) -> (i: int)
    requires
        total(d).len() > 0,
    ensures
        0 <= i < d.len(),
        d[i]@.len() > 0,
    decreases d.len(),
{
    broadcast use vstd::multiset::group_multiset_axioms;
    if d.len() == 0 {
        assert(total(d).len() == 0);
        0
    } else if d.last()@.len() > 0 {
        d.len() - 1
    } else {
        assert(d.last()@.to_multiset().len() == 0) by {
            d.last()@.to_multiset_ensures();
        }
        lemma_total_nonempty(d.drop_last())
    }
}

/// Every pair in bucket `i` has a key congruent to `i` modulo `limit`,
/// between `lo` and `hi`.
pub open spec fn in_window<T>(d: Seq<Vec<(usize, T)>>, limit: nat, lo: int, hi: int) -> bool {
    forall|i: int, j: int| 0 <= i < d.len() && 0 <= j < d[i]@.len() ==>
        ((#[trigger] d[i]@[j]).0 as nat) % limit == i && lo <= d[i]@[j].0 <= hi
}

/// A pair counted in `total(d)` stands in some bucket.
proof fn lemma_total_member<T>(d: Seq<Vec<(usize, T)>>, q: (usize, T)) -> (ij: (int, int))
    requires
        total(d).count(q) > 0,
    ensures
        0 <= ij.0 < d.len(),
        0 <= ij.1 < d[ij.0]@.len(),
        d[ij.0]@[ij.1] == q,
    decreases d.len(),
{
    broadcast use vstd::multiset::group_multiset_axioms;
    broadcast use vstd::seq_lib::group_to_multiset_ensures;
    if d.len() == 0 {
        assert(total(d).count(q) == 0);
        (0, 0)
    } else if total(d.drop_last()).count(q) > 0 {
        let ij = lemma_total_member(d.drop_last(), q);
        assert(d.drop_last()[ij.0] == d[ij.0]);
        ij
    } else {
        assert(d.last()@.to_multiset().count(q) > 0);
        assert(d.last()@.contains(q));
        let j = choose|j: int| 0 <= j < d.last()@.len() && d.last()@[j] == q;
        (d.len() - 1, j)
    }
}

pub struct DialHeap<T> {
    dial: Vec<Vec<(usize, T)>>,
    limit: usize,
    current: usize,
    size: usize,
}

impl<T> View for DialHeap<T> {
    type V = Multiset<(usize, T)>;

    /// The pairs held.
    closed spec fn view(&self) -> Multiset<(usize, T)> {
        total(self.dial@)
    }
}

impl<T> DialHeap<T> {
    /// The key of the last pair taken out (`0` before any): keys pushed
    /// must lie in `current ..= current + max`.
    pub closed spec fn current_spec(&self) -> usize {
        self.current
    }

    /// The width of the key window less one.
    pub closed spec fn max_spec(&self) -> nat {
        (self.limit - 1) as nat
    }

    pub closed spec fn wf(&self) -> bool {
        &&& self.dial@.len() == self.limit
        &&& self.limit >= 1
        &&& self.size == total(self.dial@).len()
        &&& in_window(self.dial@, self.limit as nat, self.current as int, self.current + self.limit - 1)
    }

    /// An empty queue for keys spread over at most `max + 1` values.
    pub fn new(max: usize) -> (h: Self)
        requires
            max < usize::MAX,
        ensures
            h.wf(),
            h@ == Multiset::<(usize, T)>::empty(),
            h.current_spec() == 0,
            h.max_spec() == max,
    {
        broadcast use vstd::multiset::group_multiset_axioms;
        let mut dial: Vec<Vec<(usize, T)>> = Vec::new();
        let mut i: usize = 0;
        while i <= max
            invariant
                i <= max + 1,
                max < usize::MAX,
                dial@.len() == i,
                total(dial@) == Multiset::<(usize, T)>::empty(),
                forall|k: int| 0 <= k < dial@.len() ==> (#[trigger] dial@[k])@.len() == 0,
            decreases max + 1 - i,
        {
            let ghost old_d = dial@;
            dial.push(Vec::new());
            proof {
                assert(dial@.drop_last() =~= old_d);
                let v: Vec<(usize, T)> = dial@.last();
                assert(v@ =~= Seq::<(usize, T)>::empty());
                v@.to_multiset_ensures();
                assert(v@.to_multiset() =~= Multiset::<(usize, T)>::empty());
                assert(total(dial@) =~= Multiset::<(usize, T)>::empty());
            }
            i += 1;
        }
        DialHeap { dial, current: 0, limit: max + 1, size: 0 }
    }

    /// Adds `pair`; its key must lie between the key `x` of the last pair
    /// taken out and `x + max`.
    pub fn push(&mut self, pair: (usize, T))
        requires
            old(self).wf(),
            old(self).current_spec() <= pair.0 <= old(self).current_spec() + old(self).max_spec(),
            old(self)@.len() < usize::MAX,
        ensures
            final(self).wf(),
            final(self)@ == old(self)@.insert(pair),
            final(self).current_spec() == old(self).current_spec(),
            final(self).max_spec() == old(self).max_spec(),
    {
        broadcast use vstd::multiset::group_multiset_axioms;
        self.size += 1;
        let idx = pair.0 % self.limit;
        let ghost d0 = self.dial@;
        let ghost p = pair;
        self.dial[idx].push(pair);
        proof {
            let b = self.dial@[idx as int];
            assert(self.dial@ == d0.update(idx as int, b));
            lemma_total_update(d0, idx as int, b);
            assert(b@ == d0[idx as int]@.push(p));
            vstd::seq_lib::to_multiset_build(d0[idx as int]@, p);
            let a = total(self.dial@);
            let m0 = d0[idx as int]@.to_multiset();
            let m1 = b@.to_multiset();
            assert(a.add(m0) == total(d0).add(m1));
            assert(m1 == m0.insert(p));
            assert forall|v: (usize, T)| #[trigger] a.count(v) == total(d0).insert(p).count(v) by {
                assert(a.add(m0).count(v) == total(d0).add(m1).count(v));
            }
            assert(total(self.dial@) =~= total(d0).insert(p));
            let lim = self.limit as nat;
            assert forall|i: int, j: int| 0 <= i < self.dial@.len() && 0 <= j < self.dial@[i]@.len() implies
                ((#[trigger] self.dial@[i]@[j]).0 as nat) % lim == i && self.current <= self.dial@[i]@[j].0 <= self.current + self.limit - 1 by {
                if i == idx as int && j == d0[i]@.len() {
                } else {
                    assert(self.dial@[i]@[j] == d0[i]@[j]);
                }
            }
        }
    }

    /// Removes and returns a pair with the least key, which becomes the
    /// start of the key window; `None` when empty.
    pub fn pop(&mut self) -> (r: Option<(usize, T)>)
        requires
            old(self).wf(),
        ensures
            final(self).wf(),
            final(self).max_spec() == old(self).max_spec(),
            old(self)@.len() == 0 ==> r is None && final(self)@ == old(self)@
                && final(self).current_spec() == old(self).current_spec(),
            old(self)@.len() > 0 ==> (r matches Some(p) && old(self)@.contains(p)
                && (forall|q: (usize, T)| #[trigger] old(self)@.contains(q) ==> p.0 <= q.0)
                && final(self)@ == old(self)@.remove(p)
                && final(self).current_spec() == p.0),
    {
        broadcast use vstd::multiset::group_multiset_axioms;
        if self.size == 0 {
            return None;
        }
        self.size -= 1;
        let ghost t = lemma_total_nonempty(self.dial@);
        let ghost c0 = self.current as int;
        let ghost lim = self.limit as nat;
        loop
            invariant
                self.dial@ == old(self).dial@,
                self.limit == old(self).limit,
                self.dial@.len() == self.limit,
                self.limit >= 1,
                lim == self.limit,
                c0 == old(self).current,
                c0 <= self.current,
                self.size + 1 == total(self.dial@).len(),
                0 <= t < self.limit,
                self.dial@[t]@.len() > 0,
                in_window(self.dial@, lim, self.current as int, c0 + self.limit - 1),
            decreases c0 + self.limit - 1 - self.current,
        {
            let c = self.current % self.limit;
            if self.dial[c].len() > 0 {
                let ghost d0 = self.dial@;
                let ghost cur = self.current;
                let r = self.dial[c].pop();
                proof {
                    let b = self.dial@[c as int];
                    assert(self.dial@ == d0.update(c as int, b));
                    lemma_total_update(d0, c as int, b);
                    let p = r.unwrap();
                    assert(d0[c as int]@ =~= b@.push(p));
                    vstd::seq_lib::to_multiset_build(b@, p);
                    let a = total(self.dial@);
                    let m0 = d0[c as int]@.to_multiset();
                    let m1 = b@.to_multiset();
                    assert(a.add(m0) == total(d0).add(m1));
                    assert(m0 == m1.insert(p));
                    assert forall|v: (usize, T)| #[trigger] total(d0).count(v) == a.insert(p).count(v) by {
                        assert(a.add(m0).count(v) == total(d0).add(m1).count(v));
                    }
                    assert(total(d0) =~= a.insert(p));
                    assert(a =~= total(d0).remove(p));
                    // the popped key is the current one
                    let jp = d0[c as int]@.len() - 1;
                    assert(d0[c as int]@[jp] == p);
                    assert((p.0 as nat) % lim == c);
                    assert(cur <= p.0 <= c0 + self.limit - 1);
                    assert(p.0 == cur) by {
                        let k = p.0 as int;
                        let u = cur as int;
                        let l = lim as int;
                        vstd::arithmetic::div_mod::lemma_fundamental_div_mod(k, l);
                        vstd::arithmetic::div_mod::lemma_fundamental_div_mod(u, l);
                        assert(k - u == l * (k / l - u / l)) by (nonlinear_arith)
                            requires
                                k == l * (k / l) + k % l,
                                u == l * (u / l) + u % l,
                                k % l == u % l,
                        ;
                        assert(k - u == 0) by (nonlinear_arith)
                            requires
                                k - u == l * (k / l - u / l),
                                0 <= k - u < l,
                                l >= 1,
                        ;
                    }
                    // every pair held had a key at least the current one
                    assert forall|q: (usize, T)| #[trigger] total(d0).contains(q) implies p.0 <= q.0 by {
                        let ij = lemma_total_member(d0, q);
                        assert(d0[ij.0]@[ij.1] == q);
                    }
                }
                let key = match &r {
                    Some(q) => q.0,
                    None => self.current,
                };
                self.current = key;
                proof {
                    assert(self.current == cur);
                    assert forall|i: int, j: int| 0 <= i < self.dial@.len() && 0 <= j < self.dial@[i]@.len() implies
                        ((#[trigger] self.dial@[i]@[j]).0 as nat) % lim == i && self.current <= self.dial@[i]@[j].0 <= self.current + self.limit - 1 by {
                        assert(self.dial@[i]@[j] == d0[i]@[j]);
                    }
                }
                return r;
            }
            proof {
                let cur = self.current;
                assert forall|i: int, j: int| 0 <= i < self.dial@.len() && 0 <= j < self.dial@[i]@.len() implies
                    ((#[trigger] self.dial@[i]@[j]).0 as nat) % lim == i && cur + 1 <= self.dial@[i]@[j].0 <= c0 + self.limit - 1 by {
                    let k = self.dial@[i]@[j].0;
                    if k == cur {
                        assert(i == c as int);
                    }
                }
                let k = self.dial@[t]@[0].0;
                assert(cur + 1 <= k);
            }
            self.current = self.current + 1;
        }
    }

    pub fn is_empty(&self) -> (b: bool)
        requires
            self.wf(),
        ensures
            b == (self@.len() == 0),
    {
        self.size == 0
    }
}

} // verus!
