use kyopro::treap::Treap;
use std::rc::Rc;

fn plus(a: i64, b: i64) -> i64 {
    a + b
}

fn build(values: &[i64]) -> Treap<u32, fn(i64, i64) -> i64> {
    let op: Rc<fn(i64, i64) -> i64> = Rc::new(plus);
    let mut t = Treap::NIL;
    for (i, &v) in values.iter().enumerate() {
        let prio = (i * 7919 + 13) % 101;
        t = t.merge(Treap::new(i as u32, v, op.clone(), prio));
    }
    t
}

#[test]
fn treap_merge_keeps_order_and_sums() {
    let t = build(&[5, 1, 4, 2, 3]);
    assert_eq!(t.len(), 5);
    assert_eq!(t.sum(), 15);
    assert!(t.is_node());
    let (a, b) = t.split(2);
    assert_eq!(a.len(), 2);
    assert_eq!(a.sum(), 6);
    assert_eq!(b.len(), 3);
    assert_eq!(b.sum(), 9);
    let (c, d) = b.split(1);
    assert_eq!(c.value(), 4);
    assert_eq!(d.sum(), 5);
    let back = a.merge(c).merge(d);
    assert_eq!(back.len(), 5);
    assert_eq!(back.sum(), 15);
}

#[test]
fn treap_empty_and_single() {
    let e: Treap<u32, fn(i64, i64) -> i64> = Treap::default();
    assert!(!e.is_node());
    assert_eq!(e.len(), 0);
    assert_eq!(e.sum(), 0);
    assert_eq!(e.value(), 0);
    assert_eq!(e.priority(), 0);
    let op: Rc<fn(i64, i64) -> i64> = Rc::new(plus);
    let one = Treap::new(1u32, 42, op, 7);
    assert_eq!(one.priority(), 7);
    assert_eq!(one.sum(), 42);
    let (x, y) = one.split(5);
    assert_eq!(x.len(), 1);
    assert_eq!(y.len(), 0);
    let t = x.update();
    assert_eq!(t.sum(), 42);
    let m = t.map_child(0, |c| c);
    assert_eq!(m.len(), 1);
}
