//! Sorted `i64` sequences: binary search and the multiset facts that the
//! ordered containers rely on.
use vstd::prelude::*;
use vstd::seq_lib::{to_multiset_build, to_multiset_contains};
use vstd::multiset::Multiset;

verus! {

/// Non-decreasing.
pub open spec fn sorted(s: Seq<i64>) -> bool {
    forall|a: int, b: int| 0 <= a < b < s.len() ==> s[a] <= s[b]
}

/// Strictly increasing.
pub open spec fn strictly_sorted(s: Seq<i64>) -> bool {
    forall|a: int, b: int| 0 <= a < b < s.len() ==> s[a] < s[b]
}

/// The index of the first element `>= x` (the number of elements `< x`).
pub fn lower_index(v: &Vec<i64>, x: i64) -> (i: usize)
    requires
        sorted(v@),
    ensures
        i <= v@.len(),
        forall|k: int| 0 <= k < i ==> v@[k] < x,
        forall|k: int| i <= k < v@.len() ==> v@[k] >= x,
{
    let mut lo: usize = 0;
    let mut hi: usize = v.len();
    while lo < hi
        invariant
            lo <= hi <= v@.len(),
            sorted(v@),
            forall|k: int| 0 <= k < lo ==> v@[k] < x,
            forall|k: int| hi <= k < v@.len() ==> v@[k] >= x,
        decreases hi - lo,
    {
        let mid = lo + (hi - lo) / 2;
        if v[mid] < x {
            lo = mid + 1;
        } else {
            hi = mid;
        }
    }
    lo
}

/// The index of the first element `> x` (the number of elements `<= x`).
pub fn upper_index(v: &Vec<i64>, x: i64) -> (i: usize)
    requires
        sorted(v@),
    ensures
        i <= v@.len(),
        forall|k: int| 0 <= k < i ==> v@[k] <= x,
        forall|k: int| i <= k < v@.len() ==> v@[k] > x,
{
    let mut lo: usize = 0;
    let mut hi: usize = v.len();
    while lo < hi
        invariant
            lo <= hi <= v@.len(),
            sorted(v@),
            forall|k: int| 0 <= k < lo ==> v@[k] <= x,
            forall|k: int| hi <= k < v@.len() ==> v@[k] > x,
        decreases hi - lo,
    {
        let mid = lo + (hi - lo) / 2;
        if v[mid] <= x {
            lo = mid + 1;
        } else {
            hi = mid;
        }
    }
    lo
}

/// If exactly the positions `lo .. hi` hold `x`, then `x` occurs `hi - lo` times.
pub proof fn lemma_count_interval(s: Seq<i64>, x: i64, lo: int, hi: int)
    requires
        0 <= lo <= hi <= s.len(),
        forall|k: int| 0 <= k < s.len() ==> (s[k] == x <==> lo <= k < hi),
    ensures
        s.to_multiset().count(x) == hi - lo,
    decreases s.len(),
{
    broadcast use vstd::multiset::group_multiset_axioms;
    if s.len() == 0 {
        assert(s.to_multiset() =~= Multiset::<i64>::empty()) by {
            broadcast use vstd::seq_lib::group_to_multiset_ensures;
        }
    } else {
        let t = s.drop_last();
        let l = s.last();
        assert(s =~= t.push(l));
        to_multiset_build(t, l);
        let nhi = if hi > t.len() { t.len() as int } else { hi };
        let nlo = if lo > nhi { nhi } else { lo };
        assert forall|k: int| 0 <= k < t.len() implies (t[k] == x <==> nlo <= k < nhi) by {
            assert(t[k] == s[k]);
        }
        lemma_count_interval(t, x, nlo, nhi);
    }
}

/// In a sorted sequence an element occurs iff it is at its lower index.
pub proof fn lemma_contains_at_lower(s: Seq<i64>, x: i64, i: int)
    requires
        sorted(s),
        0 <= i <= s.len(),
        forall|k: int| 0 <= k < i ==> s[k] < x,
        forall|k: int| i <= k < s.len() ==> s[k] >= x,
    ensures
        s.contains(x) <==> (i < s.len() && s[i] == x),
{
    if s.contains(x) {
        let k = choose|k: int| 0 <= k < s.len() && s[k] == x;
        assert(k >= i);
        assert(s[i] <= s[k]);
    }
    if i < s.len() && s[i] == x {
        assert(s[i] == x);
    }
}

/// Inserting at the lower index keeps a sequence sorted.
pub proof fn lemma_insert_sorted(s: Seq<i64>, x: i64, i: int)
    requires
        sorted(s),
        0 <= i <= s.len(),
        forall|k: int| 0 <= k < i ==> s[k] < x,
        forall|k: int| i <= k < s.len() ==> s[k] >= x,
    ensures
        sorted(s.insert(i, x)),
{
    let u = s.insert(i, x);
    assert forall|a: int, b: int| 0 <= a < b < u.len() implies u[a] <= u[b] by {
        if a < i && b < i {
        } else if a < i && b == i {
        } else if a < i {
            assert(u[b] == s[b - 1]);
        } else if a == i {
            assert(u[b] == s[b - 1]);
        } else {
            assert(u[a] == s[a - 1] && u[b] == s[b - 1]);
        }
    }
}

/// Removing an element keeps a sequence sorted.
pub proof fn lemma_remove_sorted(s: Seq<i64>, i: int)
    requires
        sorted(s),
        0 <= i < s.len(),
    ensures
        sorted(s.remove(i)),
{
    let u = s.remove(i);
    assert forall|a: int, b: int| 0 <= a < b < u.len() implies u[a] <= u[b] by {
        if b < i {
        } else if a < i {
            assert(u[b] == s[b + 1]);
        } else {
            assert(u[a] == s[a + 1] && u[b] == s[b + 1]);
        }
    }
}

/// Membership in a sequence agrees with its multiset.
pub proof fn lemma_contains_count(s: Seq<i64>, x: i64)
    ensures
        s.contains(x) <==> s.to_multiset().count(x) > 0,
{
    to_multiset_contains(s, x);
}

} // verus!
