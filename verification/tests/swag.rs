use kyopro::swag::SWAG;

#[test]
fn slide_min() {
    let mut swag = SWAG::new(|x: i32, y: i32| x.min(y));
    swag.push(1);
    swag.push(7);
    swag.push(7);
    assert_eq!(swag.fold(), Some(1));
    swag.push(4);
    swag.pop();
    assert_eq!(swag.fold(), Some(4));
    swag.pop();
    swag.push(8);
    assert_eq!(swag.fold(), Some(4));
    swag.push(1);
    swag.pop();
    assert_eq!(swag.fold(), Some(1));
    swag.pop();
    swag.push(6);
    assert_eq!(swag.fold(), Some(1));
}

#[test]
fn swag_queue_order_and_sum() {
    let mut swag = SWAG::new(|x: i64, y: i64| x + y);
    assert_eq!(swag.fold(), None);
    assert_eq!(swag.pop(), None);
    for x in 1..=4 {
        swag.push(x);
    }
    assert_eq!(swag.fold(), Some(10));
    assert_eq!(swag.pop().map(|p| p.0), Some(1));
    assert_eq!(swag.fold(), Some(9));
    swag.push(10);
    assert_eq!(swag.fold(), Some(19));
    assert_eq!(swag.pop().map(|p| p.0), Some(2));
    assert_eq!(swag.pop().map(|p| p.0), Some(3));
    assert_eq!(swag.pop().map(|p| p.0), Some(4));
    assert_eq!(swag.fold(), Some(10));
    assert_eq!(swag.pop().map(|p| p.0), Some(10));
    assert_eq!(swag.pop(), None);
    assert_eq!(swag.fold(), None);
}

#[test]
fn fold_after_push_with_a_non_commutative_op() {
    // keeping the left argument is associative but not commutative
    let mut w = SWAG::new(|a: u64, _b: u64| a);
    w.push(5);
    assert_eq!(w.fold(), Some(5));
    w.push(7);
    assert_eq!(w.fold(), Some(5));
    w.push(9);
    assert_eq!(w.fold(), Some(5));
}
