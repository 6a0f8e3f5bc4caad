use kyopro::primes::{self, LinearSieve};

#[test]
fn linear_sieve_tables() {
    let s = LinearSieve::new(30);
    assert_eq!(s.primes(), vec![2, 3, 5, 7, 11, 13, 17, 19, 23, 29]);
    assert!(s.is_prime(29));
    assert!(s.is_prime(2));
    assert!(!s.is_prime(1));
    assert!(!s.is_prime(0));
    assert!(!s.is_prime(27));
    assert_eq!(s.least_prime_factor(15), 3);
    assert_eq!(s.least_prime_factor(16), 2);
    assert_eq!(s.least_prime_factor(29), 29);
    assert_eq!(s.least_prime_factor(0), 0);
    assert_eq!(s.least_prime_factor(1), 0);
}

#[test]
fn linear_sieve_prime_division() {
    let s = LinearSieve::new(400);
    assert_eq!(s.prime_division(12), vec![(2, 2), (3, 1)]);
    assert_eq!(s.prime_division(360), vec![(2, 3), (3, 2), (5, 1)]);
    assert_eq!(s.prime_division(397), vec![(397, 1)]);
    assert_eq!(s.prime_division(1), vec![]);
    assert_eq!(s.prime_division(0), vec![]);
}

#[test]
fn trial_prime_division() {
    assert_eq!(primes::prime_division(12), vec![2, 2, 3]);
    assert_eq!(primes::prime_division(360), vec![2, 2, 2, 3, 3, 5]);
    assert_eq!(primes::prime_division(8), vec![2, 2, 2]);
    assert_eq!(primes::prime_division(97), vec![97]);
    assert_eq!(primes::prime_division(1), vec![]);
    assert_eq!(primes::prime_division(0), vec![]);
    // the largest prime taken exactly twice stays as its square
    assert_eq!(primes::prime_division(4), vec![4]);
    assert_eq!(primes::prime_division(18), vec![2, 9]);
    assert_eq!(primes::prime_division(50), vec![2, 25]);
}

#[test]
fn miller_rabin_bases_2_7_61() {
    for p in [2u64, 3, 5, 7, 11, 61, 97, 1_000_000_007, 999_999_937] {
        assert!(primes::is_prime(p), "{}", p);
    }
    for c in [0u64, 1, 4, 9, 15, 561, 1_000_000_008, 999_999_938, 25_326_001] {
        assert!(!primes::is_prime(c), "{}", c);
    }
}

#[test]
fn modular_inverses() {
    assert_eq!(primes::pow_mod(3, 4, 5), 1);
    assert_eq!(primes::pow_mod(2, 10, 1000), 24);
    assert_eq!(primes::pow_mod(5, 0, 1), 1);
    assert_eq!(primes::inv_mod(3, 7), 5);
    assert_eq!(primes::ext_gcd(4, 6), (2, 2));
    assert_eq!(primes::ext_gcd(0, 5), (5, 0));
    assert_eq!(primes::ext_gcd(10, 5), (5, 0));
    assert_eq!(primes::inv_gcd(3, 7), Some(5));
    assert_eq!(primes::inv_gcd(4, 6), None);
}

#[test]
fn least_prime_factor_table() {
    let s = kyopro::linear_sieve::LinearSieve::new(20);
    assert_eq!(
        s.primes(),
        &[1, 1, 2, 3, 2, 5, 2, 7, 2, 3, 2, 11, 2, 13, 2, 3, 2, 17, 2, 19, 2][..]
    );
    assert!(!s.is_prime(0));
    assert!(!s.is_prime(1));
    assert!(s.is_prime(19));
    assert!(!s.is_prime(20));
    assert_eq!(s.lpf(0), 1);
    assert_eq!(s.lpf(15), 3);
    assert_eq!(s.prime_division(12), vec![2, 2, 3]);
    assert_eq!(s.prime_division(17), vec![17]);
    assert_eq!(s.prime_division(1), vec![]);
    assert_eq!(s.prime_division(0), vec![]);
}
