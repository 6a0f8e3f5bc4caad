use kyopro::median::Median;
use kyopro::multiset::{BTreeMultiset, Iter};
use kyopro::value_compression::ValueCompression;

#[test]
fn median() {
    let mut m = Median::new();
    let a = vec![1, 5, 6, 5, 3, 6, 7, 8, 3, 8, 1, 3, 5, 2, 5, 8, 3, 4, 1, 5];
    let medians1 = vec![1, 5, 5, 5, 5, 5, 5, 6, 5, 6, 5, 5, 5, 5, 5, 5, 5, 5, 5, 5];
    let mut medians2 = vec![];

    for &x in &a {
        m.insert(x);
        medians2.push(m.median_high().unwrap());
    }

    assert_eq!(medians1, medians2);
}

#[test]
fn median_low_high_and_remove() {
    let mut m = Median::new();
    assert!(m.is_empty());
    assert_eq!(m.median_low(), None);
    for x in [4, 1, 3, 2] {
        m.insert(x);
    }
    assert_eq!(m.len(), 4);
    assert_eq!(m.median_low(), Some(2));
    assert_eq!(m.median_high(), Some(3));
    assert!(m.remove(&3));
    assert!(!m.remove(&10));
    assert_eq!(m.median_high(), Some(2));
    let mut it = m.iter();
    assert_eq!(it.collect_rest(), vec![1, 2, 4]);
    let mut n = Median::new();
    for x in [1, 2, 3] {
        n.insert(x);
    }
    assert!(n.remove(&1));
    assert_eq!(n.median_low(), Some(2));
    assert_eq!(n.median_high(), Some(3));
}

#[test]
fn btree_multiset_queries() {
    let mut s = BTreeMultiset::new();
    for x in [5, 1, 5, 3, 9] {
        s.insert(x);
    }
    assert_eq!(s.len(), 5);
    assert_eq!(s.count(&5), 2);
    assert_eq!(s.count(&4), 0);
    assert!(s.contains(&3));
    assert_eq!(s.min(), Some(1));
    assert_eq!(s.max(), Some(9));
    assert_eq!(s.lower_bound(&5), Some(5));
    assert_eq!(s.upper_bound(&5), Some(9));
    assert_eq!(s.greater_min(&9), None);
    assert_eq!(s.less_max(&5), Some(3));
    assert_eq!(s.less_max(&1), None);
    assert!(s.remove(&5));
    assert_eq!(s.count(&5), 1);
    assert!(!s.remove(&4));
    assert_eq!(s.pop_min(), Some(1));
    assert_eq!(s.pop_max(), Some(9));
    let mut it = s.iter();
    assert_eq!(it.next(), Some(3));
    assert_eq!(it.next(), Some(5));
    assert_eq!(it.next(), None);
    let mut it2 = Iter::new(&[7, 8]);
    assert_eq!(it2.collect_rest(), vec![7, 8]);
}

#[test]
fn value_compression_numbers_values() {
    let mut c = ValueCompression::new();
    let b = c.convert(&[30, 10, 20, 10]);
    assert_eq!(b, vec![2, 0, 1, 0]);
    assert_eq!(c.len(), 3);
    assert_eq!(c.search(&20), Ok(1));
    assert_eq!(c.search(&15), Err(1));
    assert_eq!(c.rank(&25), 2);
    c.add(5);
    assert_eq!(c.get(0), 5);
    assert_eq!(c.rank(&10), 1);
}
