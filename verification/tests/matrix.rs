use kyopro::matrix::Matrix;

#[test]
fn matrix_entries_and_maps() {
    let m = Matrix::new(vec![vec![1i64, 2, 3], vec![4, 5, 6]]);
    assert_eq!(m.at(0, 2), 3);
    assert_eq!(m.at(1, 0), 4);
    let d = m.map(|x| x * 2);
    assert_eq!(d.at(1, 2), 12);
    let mut t = d.clone();
    t.tap(|x| x - 1);
    assert_eq!(t.at(0, 0), 1);
    let s = t.map2(d, |x, y| x + y);
    assert_eq!(s.at(1, 1), 19);
    let mut u = Matrix::new(vec![vec![1i64, 1], vec![1, 1]]);
    u.tap2(Matrix::new(vec![vec![10i64, 20], vec![30, 40]]), |x, y| x * y);
    assert_eq!(u.at(1, 0), 30);
    assert_eq!(u.at(0, 1), 20);
}

#[test]
fn matrix_product_reads_both_factors_from_the_left() {
    let a = Matrix::new(vec![vec![1i64, 2], vec![3, 4]]);
    let b = Matrix::new(vec![vec![5i64, 6], vec![7, 8]]);
    let p = a.mul(&b);
    assert_eq!((p.at(0, 0), p.at(0, 1), p.at(1, 0), p.at(1, 1)), (7, 10, 15, 22));
    let c = Matrix::new(vec![vec![1i64], vec![1]]);
    let q = a.mul(&c);
    assert_eq!((q.at(0, 0), q.at(1, 0)), (7, 15));
}
