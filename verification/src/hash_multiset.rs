//! A multiset of `u64` values kept as a hash map from value to count.
use vstd::prelude::*;
use std::collections::HashMap;

verus! {

broadcast use vstd::std_specs::hash::group_hash_axioms;

#[derive(Debug)]
pub struct HashMultiset(HashMap<u64, usize>);

impl View for HashMultiset {
    type V = Map<u64, usize>;

    /// The count of each value present.
    closed spec fn view(&self) -> Map<u64, usize> {
        self.0@
    }
}

/// The counts after adding one copy of `x`.
pub open spec fn inserted(m: Map<u64, usize>, x: u64) -> Map<u64, usize> {
    m.insert(x, (count_of(m, x) + 1) as usize)
}

/// The counts after taking one copy of `x` away.
pub open spec fn removed(m: Map<u64, usize>, x: u64) -> Map<u64, usize> {
    if count_of(m, x) <= 1 {
        m.remove(x)
    } else {
        m.insert(x, (count_of(m, x) - 1) as usize)
    }
}

/// How many copies of `x` the counts `m` hold.
pub open spec fn count_of(m: Map<u64, usize>, x: u64) -> nat {
    if m.contains_key(x) {
        m[x] as nat
    } else {
        0
    }
}

/// Law: taking away a copy just added restores the counts.
pub proof fn lemma_insert_then_remove(m: Map<u64, usize>, x: u64)
    requires
        count_of(m, x) < usize::MAX,
        forall|k: u64| #[trigger] m.contains_key(k) ==> m[k] >= 1,
    ensures
        removed(inserted(m, x), x) == m,
{
    if count_of(m, x) == 0 {
        assert(removed(inserted(m, x), x) =~= m);
    } else {
        assert(removed(inserted(m, x), x) =~= m);
    }
}

impl HashMultiset {
    /// Only values with a positive count are kept.
    pub closed spec fn wf(&self) -> bool {
        forall|k: u64| #[trigger] self.0@.contains_key(k) ==> self.0@[k] >= 1
    }

    /// How many times `x` is present.
    pub open spec fn count_spec(&self, x: u64) -> nat {
        count_of(self@, x)
    }

    pub fn new() -> (s: Self)
        ensures
            s.wf(),
            s@ == Map::<u64, usize>::empty(),
    {
        HashMultiset(HashMap::new())
    }

    pub fn contains(&self, item: &u64) -> (b: bool)
        ensures
            b == self@.contains_key(*item),
    {
        self.0.contains_key(item)
    }

    pub fn count(&self, item: &u64) -> (c: usize)
        ensures
            c == self.count_spec(*item),
    {
        match self.0.get(item) {
            Some(c) => *c,
            None => 0,
        }
    }

    /// Some value present, taken from the end of the map's key order
    /// (which depends on the hash); `None` when empty.
    pub fn last(&self) -> (r: Option<u64>)
        ensures
            r is None <==> self@.dom().len() == 0,
            r matches Some(k) ==> self@.contains_key(k),
    {
        let mut last: Option<u64> = None;
        let ghost keys = self.0@.dom();
        let ghost mut seen: nat = 0;
        for k in it: self.0.keys()
            invariant
                keys == self.0@.dom(),
                seen == it.index(),
                last is None <==> it.index() == 0,
                last matches Some(v) ==> keys.contains(v),
                it.seq().unref().to_set() == keys,
                it.seq().len() == keys.len(),
        {
            proof {
                assert(it.seq().unref().to_set().contains(*k)) by {
                    assert(it.seq().unref()[it.index() as int] == *k);
                    assert(it.seq().unref().contains(*k));
                }
            }
            last = Some(*k);
            proof {
                seen = seen + 1;
            }
        }
        proof {
            assert(seen == keys.len());
        }
        last
    }

    /// Adds one copy of `item`.
    pub fn insert(&mut self, item: u64)
        requires
            old(self).wf(),
            old(self).count_spec(item) < usize::MAX,
        ensures
            final(self).wf(),
            final(self)@ == inserted(old(self)@, item),
    {
        let c = match self.0.get(&item) {
            Some(c) => *c,
            None => 0,
        };
        self.0.insert(item, c + 1);
    }

    /// Removes one copy of `item`, if there is one.
    pub fn remove(&mut self, item: &u64)
        requires
            old(self).wf(),
        ensures
            final(self).wf(),
            final(self)@ == removed(old(self)@, *item),
    {
        match self.0.get(item) {
            Some(c) => {
                let c = *c;
                if c <= 1 {
                    self.0.remove(item);
                } else {
                    self.0.insert(*item, c - 1);
                }
            },
            None => {
                proof {
                    assert(old(self)@.remove(*item) =~= old(self)@);
                }
            },
        }
    }
}

} // verus!
