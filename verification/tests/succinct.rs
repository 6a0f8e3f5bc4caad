use kyopro::succinct::SuccinctIndexableDictionary;

fn bit_at(x: u32, j: usize) -> bool {
    (x >> j) & 1 == 1
}

#[test]
fn lib_access() {
    let a: Vec<u32> = vec![123, 14, 515, 5124, 998, 451454, 8539584, 4123091, (1u32 << 31) - 1, u32::MAX];
    let width = SuccinctIndexableDictionary::block_size();
    let mut dic = SuccinctIndexableDictionary::new(a.len() * width);
    for i in 0..a.len() {
        for j in 0..width {
            dic.set(i * width + j, bit_at(a[i], j));
        }
    }
    for i in 0..a.len() {
        for j in 0..width {
            assert_eq!(bit_at(a[i], j), dic.access(i * width + j));
        }
    }
}

#[test]
fn rank() {
    let bits = vec![false, true, true, false, false, true];
    let mut dic = SuccinctIndexableDictionary::from_bools(bits.clone());
    for i in 0..bits.len() {
        let count = (0..i).filter(|&j| bits[j]).count();
        assert_eq!(count, dic.rank1(i));
    }
}

#[test]
fn select() {
    let bits = vec![false, true, true, false, false, true];
    let mut dic = SuccinctIndexableDictionary::from_bools(bits.clone());
    for i in 0..bits.len() {
        let idx = (0..=bits.len()).find(|&j| dic.rank1(j) == i);
        assert_eq!(idx, dic.select1(i));
    }
}

#[test]
fn succinct_ranges_and_zeros() {
    let bits = vec![true, false, true, true, false, false, false, true];
    let mut dic = SuccinctIndexableDictionary::from_bools(bits);
    assert_eq!(dic.len(), 8);
    assert_eq!(dic.rank0(8), 4);
    assert_eq!(dic.rank(true, 4), 3);
    assert_eq!(dic.rank(false, 4), 1);
    assert_eq!(dic.rank1_in(2, 8), 3);
    assert_eq!(dic.rank0_in(2, 8), 3);
    assert_eq!(dic.rank_in(false, 0, 5), 2);
    assert_eq!(dic.select0(1), Some(2));
    assert_eq!(dic.select0(4), Some(7));
    assert_eq!(dic.select0(5), None);
    assert_eq!(dic.select1(4), Some(8));
    assert_eq!(dic.select1(5), None);
    dic.set(1, true);
    assert_eq!(dic.rank1(3), 3);
    assert!(dic.get(1));
    // bits spread over several chunks
    let mut big = SuccinctIndexableDictionary::new(1000);
    for i in (0..1000).step_by(3) {
        big.set(i, true);
    }
    assert_eq!(big.rank1(999), 333);
    assert_eq!(big.rank1(300), 100);
    assert_eq!(big.select1(101), Some(301));
    let words = SuccinctIndexableDictionary::from_vec(64, vec![0b1011, 1]);
    let mut words = words;
    assert_eq!(words.rank1(40), 4);
    assert!(words.access(32));
    assert!(!words.access(2));
}
