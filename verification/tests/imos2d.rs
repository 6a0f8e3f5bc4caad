use kyopro::imos2d::Imos2D;
use kyopro::ranges::{Bound, Ranges};

#[test]
fn imos2d_rectangle_sums() {
    let mat = vec![vec![1i64, 2, 3], vec![4, 5, 6], vec![7, 8, 9]];
    let t = Imos2D::new(&mat, 0, |a: i64, b: i64| a + b, |a: i64, b: i64| a - b);
    for i in 0..3 {
        for j in 0..3 {
            assert_eq!(t.at(i, j), mat[i][j]);
        }
    }
    let all = Ranges { start: Bound::Unbounded, end: Bound::Unbounded };
    assert_eq!(t.rect(all, all), 45);
    let rows = Ranges { start: Bound::Included(1), end: Bound::Included(2) };
    let cols = Ranges { start: Bound::Included(0), end: Bound::Excluded(2) };
    assert_eq!(t.rect(rows, cols), 4 + 5 + 7 + 8);
}

#[test]
fn imos2d_every_rectangle_matches_brute_force() {
    let mat: Vec<Vec<i64>> = vec![vec![1, -2, 3, 4], vec![5, 6, -7, 8], vec![9, 10, 11, -12]];
    let t = Imos2D::new(&mat, 0i64, |a: i64, b: i64| a + b, |a: i64, b: i64| a - b);
    for i1 in 0..=3usize {
        for i2 in i1..=3usize {
            for j1 in 0..=4usize {
                for j2 in j1..=4usize {
                    let mut want = 0;
                    for a in i1..i2 {
                        for b in j1..j2 {
                            want += mat[a][b];
                        }
                    }
                    let ri = Ranges { start: Bound::Included(i1 as i64), end: Bound::Excluded(i2 as i64) };
                    let rj = Ranges { start: Bound::Included(j1 as i64), end: Bound::Excluded(j2 as i64) };
                    assert_eq!(t.rect(ri, rj), want);
                }
            }
        }
    }
}
