use kyopro::totient::{euler_phi, tetration_mod};
use kyopro::primitive_root::primitive_root;
use kyopro::number::{divisors, gcd, is_prime, lcm, pow_mod, prime_division};

#[test]
fn gcd_and_lcm_values() {
    assert_eq!(gcd(12, 18), 6);
    assert_eq!(gcd(18, 12), 6);
    assert_eq!(gcd(0, 7), 7);
    assert_eq!(gcd(0, 0), 0);
    assert_eq!(gcd(17, 5), 1);
    assert_eq!(lcm(4, 6), 12);
    assert_eq!(lcm(0, 6), 0);
}

#[test]
fn pow_mod_values() {
    assert_eq!(pow_mod(2, 10, 1000), 24);
    assert_eq!(pow_mod(3, 0, 7), 1);
    assert_eq!(pow_mod(5, 3, 1), 0);
    assert_eq!(pow_mod(5, 0, 1), 1);
    assert_eq!(pow_mod(10, 9, 998244353), 1_000_000_000 % 998244353);
}

#[test]
fn is_prime_below_two_to_sixteen() {
    for n in [2u64, 3, 5, 7, 11, 13, 97, 65521] {
        assert!(is_prime(n), "{}", n);
    }
    for n in [0u64, 1, 4, 6, 9, 15, 25, 100, 65535] {
        assert!(!is_prime(n), "{}", n);
    }
    assert!(!is_prime(49));
    assert!(!is_prime(77));
    assert!(!is_prime(80581));
    assert!(!is_prime(2047));
}

#[test]
fn is_prime_large_values() {
    assert!(is_prime(65537));
    assert!(is_prime(1_000_003));
    assert!(is_prime(998244353));
    assert!(is_prime(4_294_967_291));
    assert!(!is_prime(65537 * 3));
    assert!(!is_prime(1_000_003 * 7));
    assert!(!is_prime(65539 * 65521));
    assert!(!is_prime(4_294_967_296));
    assert!(is_prime(4_294_967_311));
    assert!(is_prime(1_000_000_000_039));
    assert!(!is_prime(u64::MAX));
    assert!(!is_prime(u64::MAX - 1));
    assert!(!is_prime(65_537 * 4_294_967_291));
}

#[test]
fn prime_division_values() {
    assert_eq!(prime_division(360), vec![2, 2, 2, 3, 3, 5]);
    assert_eq!(prime_division(1), Vec::<u64>::new());
    assert_eq!(prime_division(0), vec![0]);
    assert_eq!(prime_division(97), vec![97]);
    assert_eq!(prime_division(1_000_000_007 * 2), vec![2, 1_000_000_007]);
}

#[test]
fn divisors_values() {
    assert_eq!(divisors(12), vec![1, 2, 3, 4, 6, 12]);
    assert_eq!(divisors(36), vec![1, 2, 3, 4, 6, 9, 12, 18, 36]);
    assert_eq!(divisors(1), vec![1]);
    assert_eq!(divisors(0), Vec::<u64>::new());
    assert_eq!(divisors(13), vec![1, 13]);
}

#[test]
fn inv_gcd_values() {
    use_inv_gcd();
}

fn use_inv_gcd() {
    assert_eq!(kyopro::inv_gcd::inv_gcd(3, 7), (1, 5));
    assert_eq!(kyopro::inv_gcd::inv_gcd(4, 6), (2, 2));
    assert_eq!(kyopro::inv_gcd::inv_gcd(0, 5), (5, 0));
    assert_eq!(kyopro::inv_gcd::inv_gcd(10, 5), (5, 0));
    assert_eq!(kyopro::inv_gcd::inv_mod(3, 7), 5);
    let m = 998244353;
    for a in [2i64, 3, 12345, 998244352] {
        let x = kyopro::inv_gcd::inv_mod(a, m);
        assert_eq!((a as i128 * x as i128 % m as i128) as i64, 1);
    }
}

#[test]
fn primitive_roots() {
    assert_eq!(primitive_root(2), Some(1));
    assert_eq!(primitive_root(3), Some(2));
    assert_eq!(primitive_root(7), Some(3));
    assert_eq!(primitive_root(11), Some(2));
    assert_eq!(primitive_root(17), Some(3));
    assert_eq!(primitive_root(998_244_353), Some(3));
    assert_eq!(primitive_root(754_974_721), Some(11));
    assert_eq!(primitive_root(1_000_000_007), Some(5));
    // not prime: the first number that passes the test
    assert_eq!(primitive_root(9), Some(2));
}

#[test]
fn totient_by_trial_division() {
    assert_eq!(euler_phi(0), 0);
    assert_eq!(euler_phi(1), 1);
    assert_eq!(euler_phi(36), 12);
    assert_eq!(euler_phi(9), 6);
    assert_eq!(euler_phi(100), 40);
    assert_eq!(euler_phi(1000), 400);
    assert_eq!(euler_phi(5), 4);
    assert_eq!(euler_phi(6), 2);
    assert_eq!(euler_phi(12), 4);
    assert_eq!(euler_phi(7), 6);
    assert_eq!(euler_phi(998_244_353), 998_244_352);
    assert_eq!(euler_phi(2 * 3 * 5 * 7 * 11 * 13), 1 * 2 * 4 * 6 * 10 * 12);
}

fn gcd_u64(a: u64, b: u64) -> u64 {
    if b == 0 { a } else { gcd_u64(b, a % b) }
}

#[test]
fn totient_counts_coprimes() {
    for n in 1..300u64 {
        let count = (1..=n).filter(|&k| gcd_u64(k, n) == 1).count() as u64;
        assert_eq!(euler_phi(n), count, "n = {}", n);
    }
}

#[test]
fn towers_of_powers() {
    assert_eq!(tetration_mod(2, 3, 1000), 16);
    assert_eq!(tetration_mod(3, 3, 100), 87);
    assert_eq!(tetration_mod(0, 2, 10), 1);
    assert_eq!(tetration_mod(0, 3, 10), 0);
    assert_eq!(tetration_mod(5, 1, 3), 2);
    assert_eq!(tetration_mod(7, 0, 1), 0);
    assert_eq!(tetration_mod(3, 3, 5), 2);
    assert_eq!(tetration_mod(2, 4, 100_000), 65536);
}

#[test]
fn decimal_digits_and_ceiling() {
    assert_eq!(kyopro::int_ops::digits(0), vec![0]);
    assert_eq!(kyopro::int_ops::digits(-15), vec![0]);
    assert_eq!(kyopro::int_ops::digits(7), vec![7]);
    assert_eq!(kyopro::int_ops::digits(1203), vec![1, 2, 0, 3]);
    assert_eq!(kyopro::int_ops::digits(i64::MAX).len(), 19);
    assert_eq!(kyopro::int_ops::div_ceil(7, 2), 4);
    assert_eq!(kyopro::int_ops::div_ceil(8, 2), 4);
    assert_eq!(kyopro::int_ops::div_ceil(0, 5), 0);
}

#[test]
fn powers_with_signed_exponents() {
    assert_eq!(kyopro::int_ops::pow_mod(3, -1, 7), 5);
    assert_eq!(kyopro::int_ops::pow_mod(3, -2, 7), 4);
    assert_eq!(kyopro::int_ops::pow_mod(10, -1, 7), 5);
    assert_eq!(kyopro::int_ops::pow_mod(2, 10, 1000), 24);
    assert_eq!(kyopro::int_ops::pow_mod(5, 0, 7), 1);
}

#[test]
fn primitive_roots_have_full_order() {
    for &p in &[3u64, 5, 7, 11, 13, 17, 19, 23, 29, 31, 37, 41, 43, 97, 101, 257] {
        let g = primitive_root(p).unwrap();
        let mut x = 1u64;
        for d in 1..p {
            x = x * g % p;
            if d < p - 1 {
                assert_ne!(x, 1, "p = {}, g = {}, d = {}", p, g, d);
            } else {
                assert_eq!(x, 1);
            }
        }
    }
}
