use kyopro::zeta::{moebius_transform, moebius_transform_inplace, zeta_transform, zeta_transform_inplace};

const CASES: [&[i64]; 1] = [&[3, 1, 4, 1, 5, 9, 2, 6]];

#[test]
fn zeta_moebius() {
    for &xs in &CASES {
        let ys = zeta_transform(&xs);
        let zs = moebius_transform(&ys);
        assert_eq!(xs, &zs[..]);
    }
}

#[test]
fn moebius_zeta() {
    for &xs in &CASES {
        let ys = moebius_transform(&xs);
        let zs = zeta_transform(&ys);
        assert_eq!(xs, &zs[..]);
    }
}

#[test]
fn zeta_is_superset_sum() {
    let xs: Vec<i64> = vec![3, 1, 4, 1, 5, 9, 2, 6];
    let ys = zeta_transform(&xs);
    for i in 0..8usize {
        let expect: i64 = (0..8usize).filter(|&k| k & i == i).map(|k| xs[k]).sum();
        assert_eq!(ys[i], expect);
    }
    let mut zs = xs.clone();
    zeta_transform_inplace(&mut zs);
    assert_eq!(zs, ys);
    moebius_transform_inplace(&mut zs);
    assert_eq!(zs, xs);
    assert_eq!(zeta_transform(&[5]), vec![5]);
}

#[test]
fn zeta_gives_sums_over_supersets() {
    let xs = [1i64, 2, 3, 4];
    assert_eq!(zeta_transform(&xs), vec![10, 6, 7, 4]);
    let wide = [i64::MAX, 1];
    assert_eq!(zeta_transform(&wide), vec![i64::MIN, 1]);
}
