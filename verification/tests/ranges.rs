use kyopro::ranges::{Bound, Ranges};
use std::cmp::Ordering;

fn r(start: Bound, end: Bound) -> Ranges {
    Ranges { start, end }
}

#[test]
fn ranges_bounds_and_emptiness() {
    let a = r(Bound::Excluded(3), Bound::Included(7));
    assert_eq!(a.start_close(), Some(4));
    assert_eq!(a.start_open(), Some(3));
    assert_eq!(a.end_close(), Some(7));
    assert_eq!(a.end_open(), Some(8));
    let u = r(Bound::Unbounded, Bound::Unbounded);
    assert_eq!(u.start_close_or(-5), -5);
    assert_eq!(u.end_open_or(9), 9);
    assert!(r(Bound::Excluded(2), Bound::Excluded(2)).is_empty());
    assert!(!r(Bound::Included(2), Bound::Included(2)).is_empty());
}

#[test]
fn ranges_overlays() {
    let a = r(Bound::Included(1), Bound::Included(5));
    let b = r(Bound::Included(5), Bound::Excluded(9));
    let c = r(Bound::Excluded(5), Bound::Unbounded);
    assert!(a.overlays(&b));
    assert!(b.overlays(&a));
    assert!(!a.overlays(&c));
    assert!(b.overlays(&c));
    assert!(r(Bound::Unbounded, Bound::Unbounded).overlays(&a));
    assert!(!a.overlays(&r(Bound::Excluded(7), Bound::Excluded(7))));
    assert!(r(Bound::Excluded(0), Bound::Included(2)).overlays(&r(Bound::Excluded(0), Bound::Included(3))));
    assert!(r(Bound::Excluded(1), Bound::Included(5)).overlays(&r(Bound::Excluded(1), Bound::Included(3))));
    assert!(!r(Bound::Included(5), Bound::Included(3)).overlays(&r(Bound::Unbounded, Bound::Unbounded)));
    assert!(!r(Bound::Unbounded, Bound::Excluded(3)).overlays(&r(Bound::Included(3), Bound::Unbounded)));
}

#[test]
fn ranges_includes() {
    let a = r(Bound::Included(0), Bound::Included(10));
    let b = r(Bound::Included(2), Bound::Excluded(5));
    assert!(a.includes(&b));
    assert!(!b.includes(&a));
    // starts are compared in the order of end bounds, where `Unbounded` is last
    assert!(!r(Bound::Unbounded, Bound::Unbounded).includes(&a));
    assert!(r(Bound::Included(0), Bound::Unbounded).includes(&a));
}

#[test]
fn bound_order() {
    assert_eq!(Bound::Included(3).cmp(&Bound::Excluded(3)), Ordering::Greater);
    assert_eq!(Bound::Excluded(3).cmp(&Bound::Included(3)), Ordering::Less);
    assert_eq!(Bound::Unbounded.cmp(&Bound::Included(100)), Ordering::Greater);
    assert_eq!(Bound::Included(2).cmp(&Bound::Included(2)), Ordering::Equal);
    assert_eq!(Bound::Unbounded.cmp_start_start(&Bound::Included(0)), Ordering::Greater);
    assert_eq!(Bound::Included(1).cmp_start_start(&Bound::Excluded(1)), Ordering::Greater);
    assert_eq!(Bound::Included(4).min(Bound::Excluded(4)), Bound::Excluded(4));
    assert_eq!(Bound::Included(4).max(Bound::Excluded(4)), Bound::Included(4));
    assert_eq!(Bound::Included(1).minmax(Bound::Included(1)), (Bound::Included(1), Bound::Included(1)));
}

#[test]
fn ranges_lower_and_upper_bound() {
    let a = r(Bound::Included(0), Bound::Excluded(100));
    assert_eq!(a.lower_bound(|x| x * x >= 50), Some(8));
    assert_eq!(a.lower_bound(|x| x >= 1000), None);
    assert_eq!(a.lower_bound(|x| x >= -5), Some(0));
    assert_eq!(a.upper_bound(|x| x * x <= 50), Some(7));
    assert_eq!(a.upper_bound(|x| x < 0), None);
    assert_eq!(a.upper_bound(|x| x < 1000), Some(99));
    let b = r(Bound::Excluded(-10), Bound::Included(10));
    assert_eq!(b.lower_bound(|x| x > 3), Some(4));
    assert_eq!(b.upper_bound(|x| x < -3), Some(-4));
}

#[test]
fn ranges_searches_with_one_open_side() {
    let up = r(Bound::Included(0), Bound::Unbounded);
    assert_eq!(up.lower_bound(|x| x * x >= 50), Some(8));
    assert_eq!(up.lower_bound(|x| x >= -5), Some(0));
    assert_eq!(up.lower_bound(|x| x >= 1_000_000), Some(1_000_000));
    assert_eq!(up.upper_bound(|x| x * x <= 50), Some(7));
    assert_eq!(up.upper_bound(|x| x < 0), None);
    assert_eq!(up.upper_bound(|x| x <= 123_456), Some(123_456));
    let down = r(Bound::Unbounded, Bound::Included(100));
    assert_eq!(down.lower_bound(|x| x >= -20), Some(-20));
    assert_eq!(down.lower_bound(|x| x >= 1000), None);
    let down_open = r(Bound::Unbounded, Bound::Excluded(100));
    assert_eq!(down_open.upper_bound(|x| x <= -20), Some(-20));
    assert_eq!(down_open.upper_bound(|x| x <= 500), Some(99));
}
