use kyopro::lagrange::lagrange_polynomial;
use kyopro::factorial::{factorial, factorials, FactorialInvMod, FactorialMod};
use kyopro::inverse::InverseMod;

#[test]
fn test_factorial() {
    assert_eq!(factorial(0), 1);
    assert_eq!(factorial(1), 1);
    assert_eq!(factorial(2), 2);
    assert_eq!(factorial(6), 720);
}

#[test]
fn test_factorial_mod() {
    let f = FactorialMod::new(10, 17);
    for i in 0..=10usize {
        assert_eq!(f.index(i), factorial(i as u64) % 17);
    }
}

#[test]
fn test_factorial_inv_mod() {
    let f = FactorialInvMod::new(10, 17);
    for i in 0..=10usize {
        assert_eq!(factorial(i as u64) % 17, f.fact(i));
        assert_eq!(factorial(i as u64) % 17 * f.fact_inv(i) % 17, 1);
        assert_eq!(f.fact_inv(i) * f.fact(i) % 17, 1);
    }
}

#[test]
fn factorials_list_with_unit_one() {
    assert_eq!(factorials(1, 5), vec![1, 1, 2, 6, 24, 120]);
    assert_eq!(factorials(1, 0), vec![1]);
}

#[test]
fn factorials_list_with_other_unit() {
    // items: 2, 2*2, 2*2*4
    assert_eq!(factorials(2, 5), vec![2, 4, 16]);
}

#[test]
fn factorial_twenty_fits_u64() {
    assert_eq!(factorial(20), 2_432_902_008_176_640_000);
}

#[test]
fn inverse_table_prime_modulus() {
    let t = InverseMod::new(12, 13);
    assert_eq!(t.len(), 13);
    for i in 1..13usize {
        assert_eq!(i as u64 * t.index(i) % 13, 1);
    }
    assert_eq!(t.index(0), 0);
    assert_eq!(t.index(2), 7);
    assert_eq!(t.modulus(), 13);
}

#[test]
fn inverse_table_grows_and_keeps_prefix() {
    let mut t = InverseMod::empty(7);
    assert_eq!(t.len(), 2);
    t.ensure(1);
    assert_eq!(t.len(), 2);
    t.ensure(6);
    assert_eq!(t.len(), 7);
    let expect = [0u64, 1, 4, 5, 2, 3, 6];
    for i in 0..7usize {
        assert_eq!(t.index(i), expect[i]);
    }
}

#[test]
fn factorial_mod_small_modulus_and_growth() {
    let mut f = FactorialMod::empty(5);
    assert_eq!(f.len(), 1);
    assert_eq!(f.index(0), 1);
    f.ensure(6);
    assert_eq!(f.len(), 7);
    assert_eq!(f.index(3), 1);
    assert_eq!(f.index(4), 4);
    assert_eq!(f.index(5), 0);
    assert_eq!(f.modulus(), 5);
}

#[test]
fn factorial_inv_mod_tables() {
    let mut f = FactorialInvMod::empty(11);
    assert_eq!(f.len(), 1);
    f.ensure(4);
    assert_eq!(f.len(), 5);
    assert_eq!(f.inv(3), 4);
    assert_eq!(f.fact(4), 2);
    assert_eq!(f.index(4), 6);
    assert_eq!(f.modulus(), 11);
}

#[test]
fn test_polynomial() {
    let m = 1_000_000_007u64;
    // at a sample point the value is the sample itself
    assert_eq!(lagrange_polynomial(&[1, 3, 7], 1, m), 3);
    assert_eq!(lagrange_polynomial(&[5], 0, m), 5);
    // beyond the samples: the polynomial x^2 + x + 1 through (0,1), (1,3), (2,7)
    assert_eq!(lagrange_polynomial(&[1, 3, 7], 3, m), 13);
    assert_eq!(lagrange_polynomial(&[1, 3, 7], 5, m), 31);
    assert_eq!(lagrange_polynomial(&[4], 9, m), 4);
    // x^3 at 0..=3, evaluated at 10
    assert_eq!(lagrange_polynomial(&[0, 1, 8, 27], 10, m), 1000);
}
