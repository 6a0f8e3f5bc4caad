//! Counting how often each value occurs.
use vstd::prelude::*;
use std::collections::HashMap;

verus! {

broadcast use vstd::std_specs::hash::group_hash_axioms;

/// How many elements of `s` equal `k`.
pub open spec fn occurrences(s: Seq<u64>, k: u64) -> nat
    decreases s.len(),
{
    if s.len() == 0 {
        0
    } else {
        occurrences(s.drop_last(), k) + if s.last() == k { 1nat } else { 0 }
    }
}

/// The number of occurrences of each value of `xs`; values that do not
/// occur are absent.
pub fn tally(xs: &[u64]) -> (counts: HashMap<u64, usize>)
    ensures
        forall|k: u64| #[trigger] counts@.contains_key(k) <==> occurrences(xs@, k) > 0,
        forall|k: u64| #[trigger] counts@.contains_key(k) ==> counts@[k] == occurrences(xs@, k),
{
    let mut counts: HashMap<u64, usize> = HashMap::new();
    let mut i: usize = 0;
    while i < xs.len()
        invariant
            i <= xs@.len(),
            forall|k: u64| #[trigger] counts@.contains_key(k) <==> occurrences(xs@.subrange(0, i as int), k) > 0,
            forall|k: u64| #[trigger] counts@.contains_key(k) ==> counts@[k] == occurrences(xs@.subrange(0, i as int), k),
            forall|k: u64| #[trigger] occurrences(xs@.subrange(0, i as int), k) <= i,
        decreases xs@.len() - i,
    {
        let x = xs[i];
        let c = match counts.get(&x) {
            Some(c) => *c,
            None => 0,
        };
        proof {
            assert(xs@.subrange(0, i + 1).drop_last() =~= xs@.subrange(0, i as int));
            assert(xs@.subrange(0, i + 1).last() == x);
            assert(c == occurrences(xs@.subrange(0, i as int), x));
        }
        counts.insert(x, c + 1);
        proof {
            assert forall|k: u64| #[trigger] occurrences(xs@.subrange(0, i + 1), k) <= i + 1 by {
                assert(occurrences(xs@.subrange(0, i as int), k) <= i);
            }
        }
        i += 1;
    }
    proof {
        assert(xs@.subrange(0, xs@.len() as int) =~= xs@);
    }
    counts
}

} // verus!
