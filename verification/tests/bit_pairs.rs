use kyopro::bit_pairs::{sum_pair_and_u64, sum_pair_or_u64, sum_pair_xor_u64};

const UINT_SEQS: [&[u64]; 6] = [
    &[],
    &[0],
    &[1, 2, 3, 4, 5],
    &[1, 2, 4, 8, 16],
    &[5, 4, 3, 2, 1],
    &[4, 90, 11, 87, 1101, 303, 0, 39],
];

fn pairs<T: Copy>(xs: &[T]) -> Vec<(T, T)> {
    (0..xs.len()).flat_map(|i| (i + 1..xs.len()).map(move |j| (xs[i], xs[j]))).collect()
}

#[test]
fn test_sum_and() {
    for xs in &UINT_SEQS {
        let a = pairs(xs).into_iter().map(|(x, y)| x & y).sum::<u64>();
        let b = sum_pair_and_u64(xs);
        assert_eq!(a, b, "{:?}", xs);
    }
}

#[test]
fn test_sum_or() {
    for xs in &UINT_SEQS {
        let a = pairs(xs).into_iter().map(|(x, y)| x | y).sum::<u64>();
        let b = sum_pair_or_u64(xs);
        assert_eq!(a, b, "{:?}", xs);
    }
}

#[test]
fn test_sum_xor() {
    for xs in &UINT_SEQS {
        let a = pairs(xs).into_iter().map(|(x, y)| x ^ y).sum::<u64>();
        let b = sum_pair_xor_u64(xs);
        assert_eq!(a, b, "{:?}", xs);
    }
}

#[test]
fn bitwise_pair_sums_small_values() {
    assert_eq!(sum_pair_xor_u64(&[1, 2, 3]), 3 + 2 + 1);
    assert_eq!(sum_pair_or_u64(&[1, 2, 3]), 3 + 3 + 3);
    assert_eq!(sum_pair_and_u64(&[1, 2, 3]), 0 + 1 + 2);
}

#[test]
fn bitwise_pair_sums_wrap_modulo_word() {
    let xs = [u64::MAX, u64::MAX, u64::MAX];
    // three pairs of u64::MAX, summed modulo 2^64
    assert_eq!(sum_pair_or_u64(&xs), u64::MAX.wrapping_mul(3));
    assert_eq!(sum_pair_and_u64(&xs), u64::MAX.wrapping_mul(3));
    assert_eq!(sum_pair_xor_u64(&xs), 0);
}
