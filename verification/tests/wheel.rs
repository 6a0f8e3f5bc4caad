use kyopro::wheel::Wheel;
use kyopro::wheel::Wheel::{Finite, NaN, NegativeInfinity, PositiveInfinity};

#[test]
fn test_ops() {
    assert_eq!(Finite(1) + Finite(2), Finite(3));
}

#[test]
fn wheel_nan_absorbs_and_is_not_equal() {
    let n: Wheel<i64> = NaN;
    assert!(n != n);
    assert!(n.is_nan());
    assert!((n + Finite(1)).is_nan());
    assert!((PositiveInfinity + NegativeInfinity).is_nan());
    assert_eq!(n.not_nan(), None);
    assert_eq!(Finite(4i64).not_nan(), Some(Finite(4)));
}

#[test]
fn wheel_infinities() {
    assert_eq!(PositiveInfinity + Finite(5), PositiveInfinity);
    assert_eq!(Finite(5) - PositiveInfinity, NegativeInfinity);
    assert_eq!(PositiveInfinity * Finite(-2), NegativeInfinity);
    assert!((NegativeInfinity * Finite(0)).is_nan());
    assert_eq!(Finite(7) / PositiveInfinity, Finite(0));
    assert_eq!(Finite(-3) / Finite(0), NegativeInfinity);
    assert!((Finite(0i64) / Finite(0)).is_nan());
    assert_eq!(-PositiveInfinity, NegativeInfinity);
}

#[test]
fn wheel_finite_arithmetic_truncates_like_rust() {
    assert_eq!(Finite(-7) / Finite(2), Finite(-3));
    assert_eq!(Finite(-7) % Finite(2), Finite(-1));
    assert_eq!(Finite(7) % Finite(-2), Finite(1));
    assert_eq!(Finite(7) % PositiveInfinity, Finite(7));
    assert!((Finite(7i64) % Finite(0)).is_nan());
    assert_eq!(Finite(i64::MIN) / Finite(-1), Finite(i64::MIN));
    assert_eq!(Finite(6) * Finite(-7), Finite(-42));
}

#[test]
fn wheel_accessors() {
    let w: Wheel<i64> = Finite(9);
    assert!(w.is_finite());
    assert_eq!(w.finite(), Some(9));
    assert_eq!(w.unwrap(), 9);
    assert_eq!(w.map(|x| x * 2), Finite(18));
    let p: Wheel<i64> = PositiveInfinity;
    assert_eq!(p.finite(), None);
}
