//! A value tagged with an optional index; equality and order look at the
//! value only.
use vstd::prelude::*;

verus! {

#[derive(Clone, Copy, Debug)]
pub struct IndexedOrd<T> {
    value: T,
    index: Option<usize>,
}

impl<T: Copy> IndexedOrd<T> {
    pub closed spec fn value_spec(self) -> T {
        self.value
    }

    pub closed spec fn index_spec(self) -> Option<usize> {
        self.index
    }

    pub fn new(value: T, index: Option<usize>) -> (r: Self)
        ensures
            r.value_spec() == value,
            r.index_spec() == index,
    {
        IndexedOrd { value, index }
    }

    pub fn with_index(value: T, index: usize) -> (r: Self)
        ensures
            r.value_spec() == value,
            r.index_spec() == Some(index),
    {
        IndexedOrd { value, index: Some(index) }
    }

    pub fn without_index(value: T) -> (r: Self)
        ensures
            r.value_spec() == value,
            r.index_spec() == None::<usize>,
    {
        IndexedOrd { value, index: None }
    }

    pub fn value(self) -> (v: T)
        ensures
            v == self.value_spec(),
    {
        self.value
    }

    pub fn index(&self) -> (i: Option<usize>)
        ensures
            i == self.index_spec(),
    {
        self.index
    }
}

impl Default for IndexedOrd<i64> {
    fn default() -> (r: Self)
        ensures
            r.value_spec() == 0,
            r.index_spec() == None::<usize>,
    {
        IndexedOrd { value: 0, index: None }
    }
}

impl PartialEq for IndexedOrd<i64> {
    fn eq(&self, other: &Self) -> (r: bool) {
        self.value == other.value
    }
}

impl vstd::std_specs::cmp::PartialEqSpecImpl for IndexedOrd<i64> {
    open spec fn obeys_eq_spec() -> bool {
        true
    }

    open spec fn eq_spec(&self, other: &Self) -> bool {
        self.value_spec() == other.value_spec()
    }
}

impl Eq for IndexedOrd<i64> {}

impl IndexedOrd<i64> {
    /// Orders by value only.
    pub fn partial_cmp(&self, other: &Self) -> (o: Option<std::cmp::Ordering>)
        ensures
            o == Some(if self.value_spec() < other.value_spec() {
                std::cmp::Ordering::Less
            } else if self.value_spec() == other.value_spec() {
                std::cmp::Ordering::Equal
            } else {
                std::cmp::Ordering::Greater
            }),
    {
        if self.value < other.value {
            Some(std::cmp::Ordering::Less)
        } else if self.value == other.value {
            Some(std::cmp::Ordering::Equal)
        } else {
            Some(std::cmp::Ordering::Greater)
        }
    }
}

} // verus!
