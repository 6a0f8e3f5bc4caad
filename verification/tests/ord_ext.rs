use kyopro::ord_ext::{chmax, chmin, set_max, set_min};

#[test]
fn ch_max_min() {
    let mut x = 5;
    assert!(chmax(&mut x, 7));
    assert_eq!(x, 7);
    assert!(!chmax(&mut x, 7));
    assert!(!chmax(&mut x, 3));
    assert_eq!(x, 7);
    assert!(chmin(&mut x, 2));
    assert_eq!(x, 2);
    assert!(!chmin(&mut x, 2));
    assert_eq!(x, 2);
}

#[test]
fn set_max_min_on_options() {
    let mut o: Option<i64> = None;
    assert!(set_max(&mut o, 4));
    assert_eq!(o, Some(4));
    assert!(!set_max(&mut o, 4));
    assert!(set_max(&mut o, 9));
    assert_eq!(o, Some(9));
    let mut p: Option<i64> = None;
    assert!(set_min(&mut p, 4));
    assert!(!set_min(&mut p, 6));
    assert!(set_min(&mut p, -1));
    assert_eq!(p, Some(-1));
}
