use kyopro::quadratic::sqrt_mod;

#[test]
fn test_sqrt_mod() {
    assert_eq!(Some(0), sqrt_mod(0, 5));
    assert_eq!(Some(1), sqrt_mod(1, 5));
    assert_eq!(None, sqrt_mod(2, 5));
    assert_eq!(None, sqrt_mod(3, 5));
    assert_eq!(Some(2), sqrt_mod(4, 5));
}

#[test]
fn sqrt_mod_agrees_with_search_for_small_primes() {
    for &p in &[2u64, 3, 5, 7, 13, 17, 41, 97, 193, 257] {
        for a in 0..p {
            let exists = (0..p).any(|x| x * x % p == a);
            match sqrt_mod(a, p) {
                Some(x) => {
                    assert!(x < p);
                    assert_eq!(x * x % p, a, "p = {}, a = {}", p, a);
                }
                None => assert!(!exists, "p = {}, a = {}", p, a),
            }
        }
    }
}

#[test]
fn sqrt_mod_large_prime() {
    let p = 998_244_353u64;
    let a = 123_456_789u64 * 123_456_789 % p;
    let x = sqrt_mod(a, p).unwrap();
    assert_eq!(x * x % p, a);
    assert_eq!(sqrt_mod(3, p), None);
    let q = 4_294_967_291u64;
    let b = 77_777u64 * 77_777 % q;
    let y = sqrt_mod(b, q).unwrap();
    assert_eq!(y * y % q, b);
}
