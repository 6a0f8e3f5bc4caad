use kyopro::pairs::{
    sum_of_pair_mul, sum_pair_abs_diff, sum_pair_diff, sum_pair_first, sum_pair_max,
    sum_pair_affine, sum_pair_min, sum_pair_mul, sum_pair_second, sum_pair_sum,
};

const INT_SEQS: [&[i64]; 6] = [&[1, 2, 3, 4, 5], &[1, 0, -4, 1, 2], &[], &[0], &[1], &[-1]];

fn pairs<T: Copy>(xs: &[T]) -> Vec<(T, T)> {
    (0..xs.len()).flat_map(|i| (i + 1..xs.len()).map(move |j| (xs[i], xs[j]))).collect()
}

#[test]
fn test_sum_of_pair_mul() {
    for xs in &INT_SEQS {
        let a = (0..xs.len())
            .flat_map(|i| (i + 1..xs.len()).map(|j| xs[i] * xs[j]).collect::<Vec<_>>())
            .sum::<i64>();
        let b = sum_of_pair_mul(xs);
        assert_eq!(a, b);
    }
}

#[test]
fn test_sum_first() {
    for xs in &INT_SEQS {
        let a = pairs(xs).into_iter().map(|(x, _)| x).sum::<i64>();
        let b = sum_pair_first(xs);
        assert_eq!(a, b, "{:?}", xs);
    }
}

#[test]
fn test_sum_second() {
    for xs in &INT_SEQS {
        let a = pairs(xs).into_iter().map(|(_, y)| y).sum::<i64>();
        let b = sum_pair_second(xs);
        assert_eq!(a, b, "{:?}", xs);
    }
}

#[test]
fn test_sum_min() {
    for xs in &INT_SEQS {
        let a = pairs(xs).into_iter().map(|(x, y)| std::cmp::min(x, y)).sum::<i64>();
        let b = sum_pair_min(xs);
        assert_eq!(a, b, "{:?}", xs);
    }
}

#[test]
fn test_sum_max() {
    for xs in &INT_SEQS {
        let a = pairs(xs).into_iter().map(|(x, y)| std::cmp::max(x, y)).sum::<i64>();
        let b = sum_pair_max(xs);
        assert_eq!(a, b, "{:?}", xs);
    }
}

#[test]
fn test_sum_mul() {
    for xs in &INT_SEQS {
        let a = pairs(xs).into_iter().map(|(x, y)| x * y).sum::<i64>();
        let b = sum_pair_mul(xs);
        assert_eq!(a, b, "{:?}", xs);
    }
}

#[test]
fn abc186_d() {
    let testcases: Vec<(Vec<i64>, i64)> = vec![(vec![5, 1, 2], 8), (vec![31, 41, 59, 26, 53], 176)];
    for (xs, y) in testcases {
        assert_eq!(y, sum_pair_abs_diff(&xs), "{:?}", &xs);
    }
}

#[test]
fn pair_sum_and_difference_split() {
    let xs: Vec<i64> = vec![3, -1, 4, 1, -5];
    let all = pairs(&xs);
    assert_eq!(sum_pair_sum(&xs), all.iter().map(|&(x, y)| x + y).sum::<i64>());
    assert_eq!(sum_pair_diff(&xs), all.iter().map(|&(x, y)| x - y).sum::<i64>());
    assert_eq!(sum_pair_sum(&xs), sum_pair_first(&xs) + sum_pair_second(&xs));
}

#[test]
fn pair_sums_wrap_on_overflow() {
    let xs: Vec<i64> = vec![i64::MAX, i64::MAX, 2];
    let exact: i128 = (i64::MAX as i128) * (i64::MAX as i128) + 2 * 2 * (i64::MAX as i128);
    assert_eq!(sum_pair_mul(&xs), exact as i64);
}

#[test]
fn pair_sums_small_cases() {
    assert_eq!(sum_pair_first(&[]), 0);
    assert_eq!(sum_pair_min(&[7]), 0);
    assert_eq!(sum_pair_min(&[4, 2]), 2);
    assert_eq!(sum_pair_max(&[4, 2]), 4);
    assert_eq!(sum_pair_abs_diff(&[4, 2, 9]), 2 + 5 + 7);
}

#[test]
fn abc194_c() {
    let testcases: Vec<(Vec<i64>, i64)> = vec![
        (vec![2, 8, 4], 56),
        (vec![-5, 8, 9, -4, -3], 950),
    ];
    for (xs, y) in testcases {
        assert_eq!(y, sum_pair_affine(&xs, 1, 1, -2, 0, 0, 0), "{:?}", &xs);
    }
}

#[test]
fn affine_pair_sum_general_coefficients() {
    let xs: Vec<i64> = vec![3, -1, 4, 1, -5];
    let (aa, bb, ab, a, b, c) = (2i64, -3i64, 5i64, 7i64, -11i64, 13i64);
    let mut expect = 0i64;
    for i in 0..xs.len() {
        for j in i + 1..xs.len() {
            let (x, y) = (xs[i], xs[j]);
            expect += aa * x * x + bb * y * y + ab * x * y + a * x + b * y + c;
        }
    }
    assert_eq!(sum_pair_affine(&xs, aa, bb, ab, a, b, c), expect);
    assert_eq!(sum_pair_affine(&[], aa, bb, ab, a, b, c), 0);
    assert_eq!(sum_pair_affine(&[9], aa, bb, ab, a, b, c), 0);
}
