use kyopro::static_modint::{ModInt as StaticModInt, ModInt1000000007, ModInt998244353};
use kyopro::modint::ModInt;

#[test]
fn modint_construction_and_powers() {
    let a = ModInt::with_mod(-3, 7);
    assert_eq!(a.value(), 4);
    assert_eq!(a.modulus(), 7);
    assert_eq!(ModInt::with_mod(10, 7).value(), 3);
    assert_eq!(ModInt::with_mod(3, 7).pow(4).value(), 4);
    assert_eq!(ModInt::with_mod(3, 7).pow(0).value(), 1);
    assert_eq!(ModInt::with_mod(2, 1_000_000_007).pow(30).value(), 73_741_817);
    // the Euclidean coefficient, not reduced
    assert_eq!(ModInt::with_mod(3, 7).inv().value(), -2);
    assert_eq!(ModInt::with_mod(2, 7).inv().value(), -3);
}

#[test]
fn modint_operators() {
    let a = ModInt::with_mod(5, 7);
    let b = ModInt::with_mod(4, 7);
    assert_eq!((a + b).value(), 2);
    // a sum equal to the modulus is kept as it is
    assert_eq!((a + 2i64).value(), 7);
    assert_eq!((b - a).value(), 6);
    assert_eq!((a - 1i64).value(), 4);
    assert_eq!((a * b).value(), 6);
    assert_eq!((a * 3i64).value(), 1);
    assert_eq!((ModInt::with_mod(6, 7) / 3i64).value(), 2);
    assert_eq!((ModInt::with_mod(6, 7) / ModInt::with_mod(3, 7)).value(), 2);
    let r = ModInt::with_mod(10, 100) % ModInt::with_mod(3, 100);
    assert_eq!((r.value(), r.modulus()), (1, 3));
    assert_eq!((-ModInt::with_mod(3, 7)).value(), 4);
    assert_eq!((-ModInt::with_mod(0, 7)).value(), 0);
}

#[test]
fn static_modulus_residues() {
    let a = ModInt1000000007::new(-1);
    assert_eq!(a.value(), 1_000_000_006);
    assert_eq!(a.modulus(), 1_000_000_007);
    assert_eq!(ModInt1000000007::new(3).inv().value(), 333_333_336);
    assert_eq!(ModInt998244353::new(998_244_354).value(), 1);
    let x = StaticModInt::<7>::new(5);
    let y = StaticModInt::<7>::new(4);
    assert_eq!((x + y).value(), 2);
    assert_eq!((x + StaticModInt::<7>::new(2)).value(), 7);
    // the operators as defined: subtraction adds, products are not reduced
    assert_eq!((StaticModInt::<7>::new(2) - x).value(), 14);
    assert_eq!((x - StaticModInt::<7>::new(2)).value(), 7);
    assert_eq!((x * y).value(), 20);
    assert_eq!((StaticModInt::<7>::new(6) / StaticModInt::<7>::new(3)).value(), 30);
    assert_eq!((-StaticModInt::<7>::new(3)).value(), 4);
    assert_eq!((-StaticModInt::<7>::new(0)).value(), 7);
}
