use kyopro::wavelet::WaveletMatrixUsize;
use kyopro::wavelet_compressed::WaveletMatrix;

#[test]
fn wm_usize_access() {
    let a = vec![11, 0, 15, 6, 5, 2, 7, 12, 11, 0, 12, 12, 13, 4, 6, 13, 1, 11, 6, 1, 7, 10, 2, 7, 14, 11, 1, 7, 5, 4, 14, 6];
    let wm = WaveletMatrixUsize::new(a.clone(), a.iter().copied().max().unwrap() + 1);
    let b = (0..a.len()).map(|i| wm.access(i)).collect::<Vec<_>>();
    assert_eq!(a, b);
}

#[test]
fn wavelet_rank_counts_values() {
    let a = vec![3, 1, 4, 1, 5, 9, 2, 6, 5, 3, 5];
    let wm = WaveletMatrixUsize::new(a.clone(), 10);
    assert_eq!(wm.len(), 11);
    assert_eq!(wm.sigma(), 10);
    for x in 0..10 {
        for r in 0..=a.len() {
            let expected = a[..r].iter().filter(|&&v| v == x).count();
            assert_eq!(wm.rank(x, r), expected);
        }
    }
    assert_eq!(wm.get(5), 9);
    // only the low bits count: 16 has the low four bits of 0
    let w2 = WaveletMatrixUsize::new(vec![16, 0, 3], 15);
    assert_eq!(w2.access(0), 0);
    assert_eq!(w2.rank(0, 3), 2);
}

#[test]
fn wavelet_order_statistics() {
    let a = vec![3, 1, 4, 1, 5, 9, 2, 6, 5, 3, 5];
    let wm = WaveletMatrixUsize::new(a.clone(), 10);
    // [l, r) = [2, 9): 4 1 5 9 2 6 5 -> sorted 1 2 4 5 5 6 9
    assert_eq!(wm.kth_smallest(2, 9, 0), 1);
    assert_eq!(wm.kth_smallest(2, 9, 3), 5);
    assert_eq!(wm.kth_smallest(2, 9, 4), 5);
    assert_eq!(wm.kth_smallest(2, 9, 6), 9);
    assert_eq!(wm.kth_largest(2, 9, 0), 9);
    assert_eq!(wm.kth_largest(2, 9, 2), 5);
    assert_eq!(wm.range_freq(2, 9, 5), 3);
    assert_eq!(wm.range_freq(0, 11, 4), 5);
    assert_eq!(wm.range_freq_between(2, 9, 2, 6), 4);
    assert_eq!(wm.prev_value(2, 9, 5), Some(4));
    assert_eq!(wm.prev_value(2, 9, 1), None);
    assert_eq!(wm.next_value(2, 9, 7), Some(9));
    assert_eq!(wm.next_value(2, 9, 10), None);
    // the search moves its upper end down wherever the rank is small
    assert_eq!(wm.select(5, 0), Some(0));
    assert_eq!(wm.select(5, 4), None);
    assert_eq!(wm.select(5, 1), Some(1));
    assert_eq!(wm.select(5, 2), Some(1));
    assert_eq!(wm.select(1, 1), Some(11));
}

#[test]
fn compressed_access() {
    let a = vec![3, 1, 4, 1, 5, 9, 2];
    let wm = WaveletMatrix::new(&a);
    let b = (0..a.len()).map(|i| wm.access(i)).collect::<Vec<_>>();
    assert_eq!(a, b);
}

#[test]
fn compressed_queries() {
    let a: Vec<i64> = vec![30, -10, 40, -10, 50, 90, 20, 60, 50];
    let wm = WaveletMatrix::new(&a);
    assert_eq!(wm.get(5), 90);
    assert_eq!(wm.rank(&-10, 9), 2);
    assert_eq!(wm.rank(&50, 5), 1);
    // an absent value counts the next larger one
    assert_eq!(wm.rank(&45, 9), 2);
    assert_eq!(wm.rank(&100, 9), 0);
    // [1, 8): -10 40 -10 50 90 20 60 -> sorted -10 -10 20 40 50 60 90
    assert_eq!(wm.kth_smallest(1, 8, 0), -10);
    assert_eq!(wm.kth_smallest(1, 8, 2), 20);
    assert_eq!(wm.kth_largest(1, 8, 0), 90);
    assert_eq!(wm.range_freq(1, 8, &40), 3);
    assert_eq!(wm.range_freq_between(1, 8, &0, &60), 3);
    // the result is read at the position numbered by the value found
    // (distinct values: -10 20 30 40 50 60 90)
    assert_eq!(wm.prev_value(1, 8, &40), Some(a[1]));
    assert_eq!(wm.prev_value(1, 8, &-10), None);
    assert_eq!(wm.next_value(1, 8, &45), Some(a[4]));
    assert_eq!(wm.next_value(1, 8, &100), None);
    assert_eq!(wm.select(&50, 0), Some(0));
    assert_eq!(wm.select(&50, 3), None);
}
