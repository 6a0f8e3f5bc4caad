use kyopro::unionfind::{UnionFind, UnionFindComponent};
use kyopro::unionfind_compact::UnionFind as CompactUnionFind;
use kyopro::unionfind_with_value::UnionFindWithValue;

#[test]
fn with_str() {
    let strs = vec!["a", "b", "c", "d", "e"].into_iter().map(|s| s.to_string()).collect();
    let mut uf = UnionFindWithValue::new(strs, |mut s: String, mut t: String| {
        if s.len() < t.len() {
            std::mem::swap(&mut s, &mut t);
        }
        s.push_str(t.as_str());
        s
    });

    assert_eq!(uf.num_of_groups(), 5);
    assert_eq!(uf.leader(0), 0);
    assert_eq!(uf.leader(1), 1);

    uf.merge(1, 2);
    assert_eq!(uf.num_of_groups(), 4);
    let s = uf.get(1).clone();
    assert!(s == "bc" || s == "cb");

    uf.merge(0, 2);
    assert_eq!(uf.num_of_groups(), 3);
    let t = uf.get(2).clone();
    assert!(t == "a".to_string() + s.as_str() || t == s + "a");
}

#[test]
fn with_value_sizes_and_groups() {
    let mut uf = UnionFindWithValue::new(vec![1i64, 2, 3, 4], |x: i64, y: i64| x + y);
    assert!(uf.merge(0, 1));
    assert!(!uf.merge(1, 0));
    assert!(uf.merge(3, 2));
    assert_eq!(uf.size(0), 2);
    assert_eq!(*uf.get(1), 3);
    assert_eq!(uf.tap(2, |v: &i64| *v * 10), 70);
    *uf.get_mut(3) += 100;
    assert_eq!(*uf.get(2), 107);
    assert!(uf.is_same(2, 3));
    assert!(!uf.is_same(0, 3));
    assert_eq!(uf.len(), 4);
    assert_eq!(uf.groups(), vec![vec![0, 1], vec![2, 3]]);
}

#[test]
fn compact_union_find() {
    let mut uf = CompactUnionFind::new(6);
    assert!(uf.merge(0, 1));
    assert!(uf.merge(2, 3));
    assert!(uf.merge(1, 3));
    assert!(!uf.merge(0, 2));
    assert!(uf.same(0, 3));
    assert!(!uf.same(0, 4));
    assert_eq!(uf.size(2), 4);
    assert_eq!(uf.size(5), 1);
    assert_eq!(uf.groups(), vec![vec![0, 1, 2, 3], vec![4], vec![5]]);
}

#[test]
fn graph_union_find_counts_edges() {
    let mut uf = UnionFind::new(5);
    assert_eq!(uf.len(), 5);
    assert!(uf.merge(0, 1));
    assert!(uf.merge(1, 2));
    assert!(!uf.merge(2, 0));
    assert!(uf.merge(3, 4));
    assert_eq!(uf.len(), 2);
    assert_eq!(uf.vertex_count(2), 3);
    assert_eq!(uf.edge_count(0), 3);
    assert_eq!(uf.edge_count(4), 1);
    assert!(uf.is_same(0, 2));
    assert!(!uf.is_same(0, 3));
    let c = uf.component(1);
    assert_eq!(c.vertices(), 3);
    assert_eq!(c.edges(), 3);
    assert_eq!(uf.groups(), vec![vec![0, 1, 2], vec![3, 4]]);
    let cs = uf.each_component();
    assert_eq!(cs.len(), 2);
    assert_eq!((cs[0].vertices(), cs[0].edges()), (3, 3));
    assert_eq!((cs[1].vertices(), cs[1].edges()), (2, 1));
    let single = UnionFindComponent::new(7);
    assert_eq!((single.root(), single.vertices(), single.edges()), (7, 1, 0));
}

#[test]
fn with_value_class_sizes_add_up() {
    let mut uf = UnionFindWithValue::new(vec![0u8; 7], |x: u8, _y: u8| x);
    uf.merge(0, 4);
    uf.merge(4, 6);
    uf.merge(1, 2);
    let mut total = 0;
    for i in 0..uf.len() {
        if uf.leader(i) == i {
            total += uf.size(i);
        }
    }
    assert_eq!(total, 7);
    assert_eq!(uf.num_of_groups(), 4);
}

#[test]
fn len_drops_once_per_join() {
    let mut uf = UnionFind::new(6);
    let mut joins = 0;
    for &(a, b) in &[(0usize, 1usize), (1, 0), (2, 3), (0, 3), (4, 4), (1, 2)] {
        if uf.merge(a, b) {
            joins += 1;
        }
    }
    assert_eq!(joins, 3);
    assert_eq!(uf.len(), 6 - joins);
    let gs = uf.groups();
    assert_eq!(gs, vec![vec![0, 1, 2, 3], vec![4], vec![5]]);
}
