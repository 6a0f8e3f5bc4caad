use kyopro::binary_trie::BinaryTrie;

#[test]
fn binary_trie_pops_in_order() {
    let mut t = BinaryTrie::new(4);
    t.insert(5);
    t.insert(3);
    t.insert(20);
    t.insert(3);
    t.insert(0);
    assert_eq!(t.pop_min(), 0);
    assert_eq!(t.pop_min(), 3);
    assert_eq!(t.pop_min(), 3);
    // only the low four bits of 20 are kept
    assert_eq!(t.pop_min(), 4);
    t.insert(15);
    t.insert(1);
    assert_eq!(t.pop_min(), 1);
    assert_eq!(t.pop_min(), 5);
    assert_eq!(t.pop_min(), 15);
}

#[test]
fn binary_trie_full_width() {
    let mut t = BinaryTrie::new(64);
    t.insert(u64::MAX);
    t.insert(1 << 63);
    t.insert(7);
    assert_eq!(t.pop_min(), 7);
    assert_eq!(t.pop_min(), 1 << 63);
    assert_eq!(t.pop_min(), u64::MAX);
}
