use kyopro::base_conv::{from_base, from_base_digits, to_base, to_base_digits};

#[test]
fn writing_in_a_radix() {
    let bin = ['0', '1'];
    let dec: Vec<char> = "0123456789".chars().collect();
    let hex: Vec<char> = "0123456789abcdef".chars().collect();
    // least significant digit first
    assert_eq!(to_base(10, &bin), "0101");
    assert_eq!(to_base(-5, &dec), "-5");
    assert_eq!(to_base(0, &dec), "0");
    assert_eq!(to_base(255, &hex), "ff");
    assert_eq!(to_base(26, &hex), "a1");
    assert_eq!(to_base_digits(10, &['a', 'b']), "abab");
    assert_eq!(to_base_digits(0, &['x', 'y']), "x");
    assert_eq!(to_base_digits(-6, &['0', '1', '2']), "-02");
}

#[test]
fn reading_from_a_radix() {
    assert_eq!(from_base_digits(&['1', '0', '1'], &['0', '1']), 5);
    assert_eq!(from_base_digits(&['b', 'a'], &['a', 'b', 'c']), 3);
    assert_eq!(from_base_digits(&[], &['0', '1']), 0);
    // characters outside the radix are skipped
    assert_eq!(from_base_digits(&['1', '-', '1'], &['0', '1']), 3);
    // every position holding the character counts
    assert_eq!(from_base_digits(&['x'], &['x', 'x']), 1);
}

fn chars(s: &str) -> Vec<char> {
    s.chars().collect()
}

#[test]
fn reading_a_signed_number_in_a_base() {
    assert_eq!(from_base(&chars("ff"), 16), 255);
    assert_eq!(from_base(&chars("FF"), 16), 255);
    assert_eq!(from_base(&chars("-101"), 2), -5);
    assert_eq!(from_base(&chars("+z"), 36), 35);
    assert_eq!(from_base(&chars("0"), 10), 0);
    assert_eq!(from_base(&chars("-8000000000000000"), 16), i64::MIN);
    assert_eq!(from_base(&chars("7fffffffffffffff"), 16), i64::MAX);
    assert_eq!(from_base(&chars("12345"), 10), 12345);
}
