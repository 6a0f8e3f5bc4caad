use kyopro::heap::{BinaryHeapReversed, Heap};
use kyopro::cumulated::Cumulated;
use kyopro::hash_multiset::HashMultiset;
use kyopro::indexed_ord::IndexedOrd;
use kyopro::ranges::{Bound, Ranges};
use std::cmp::Ordering;

#[test]
fn hash_multiset_counts() {
    let mut s = HashMultiset::new();
    assert!(!s.contains(&3));
    assert_eq!(s.last(), None);
    s.insert(3);
    s.insert(3);
    s.insert(8);
    assert!(s.contains(&3));
    assert_eq!(s.count(&3), 2);
    assert_eq!(s.count(&8), 1);
    assert_eq!(s.count(&9), 0);
    let l = s.last().unwrap();
    assert!(l == 3 || l == 8);
    s.remove(&3);
    assert_eq!(s.count(&3), 1);
    s.remove(&3);
    assert!(!s.contains(&3));
    s.remove(&3);
    assert_eq!(s.count(&3), 0);
    assert_eq!(s.last(), Some(8));
}

#[test]
fn indexed_ord_compares_values_only() {
    let a = IndexedOrd::with_index(5i64, 0);
    let b = IndexedOrd::with_index(5i64, 7);
    let c = IndexedOrd::without_index(2i64);
    assert!(a == b);
    assert!(a != c);
    assert_eq!(a.index(), Some(0));
    assert_eq!(c.index(), None);
    assert_eq!(b.value(), 5);
    assert_eq!(c.partial_cmp(&a), Some(Ordering::Less));
    assert_eq!(a.partial_cmp(&b), Some(Ordering::Equal));
    let d: IndexedOrd<i64> = Default::default();
    assert_eq!(d.value(), 0);
    assert_eq!(IndexedOrd::new(1i64, Some(4)).index(), Some(4));
}

#[test]
fn cumulated_range_sums() {
    let c = Cumulated::new(vec![3i64, 1, 4, 1, 5], 0, |a: i64, b: i64| a + b, |a: i64| -a);
    let whole = Ranges { start: Bound::Unbounded, end: Bound::Unbounded };
    assert_eq!(c.fold(whole), 14);
    // the start is taken as an exclusive index: `1..3` folds elements 0, 1, 2
    assert_eq!(c.fold(Ranges { start: Bound::Included(1), end: Bound::Excluded(3) }), 8);
    assert_eq!(c.fold(Ranges { start: Bound::Excluded(1), end: Bound::Included(3) }), 6);
    assert_eq!(c.fold(Ranges { start: Bound::Unbounded, end: Bound::Excluded(2) }), 4);
}

#[test]
fn binary_heap_reversed_pops_least_first() {
    let mut h = BinaryHeapReversed::new();
    assert!(h.is_empty());
    for x in [5, -2, 9, 0, -2] {
        h.push(x);
    }
    assert!(!h.is_empty());
    let mut out = vec![];
    while let Some(x) = h.pop() {
        out.push(x);
    }
    assert_eq!(out, vec![-2, -2, 0, 5, 9]);
    assert_eq!(h.pop(), None);
}

#[test]
fn dial_heap_pops_least_key() {
    let mut h = kyopro::dial_heap::DialHeap::new(10);
    assert!(h.is_empty());
    h.push((3, "a"));
    h.push((1, "b"));
    h.push((3, "c"));
    assert!(!h.is_empty());
    assert_eq!(h.pop(), Some((1, "b")));
    assert_eq!(h.pop(), Some((3, "c")));
    h.push((5, "d"));
    assert_eq!(h.pop(), Some((3, "a")));
    assert_eq!(h.pop(), Some((5, "d")));
    assert_eq!(h.pop(), None);
    assert!(h.is_empty());
    let mut g = kyopro::dial_heap::DialHeap::new(3);
    g.push((0, 'x'));
    g.push((2, 'y'));
    g.push((3, 'z'));
    assert_eq!(g.pop(), Some((0, 'x')));
    assert_eq!(g.pop(), Some((2, 'y')));
    g.push((5, 'w'));
    assert_eq!(g.pop(), Some((3, 'z')));
    assert_eq!(g.pop(), Some((5, 'w')));
    assert_eq!(g.pop(), None);
}

#[test]
fn compress_coords_index_of_and_get() {
    let mut c = kyopro::compress_coords::CompressCoords::new();
    c.add(30);
    c.add(10);
    c.add(20);
    c.add(10);
    assert_eq!(c.index_of(&10), Ok(0));
    assert_eq!(c.index_of(&30), Ok(2));
    assert_eq!(c.index_of(&15), Err(1));
    assert_eq!(c.index_of(&99), Err(3));
    assert_eq!(c.get(&20), 1);
    assert_eq!(c.get(&25), 2);
    assert_eq!(c.get(&-5), 0);
}
