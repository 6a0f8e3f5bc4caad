use kyopro::segtree_maps::RangeIdempotentAdd;

#[test]
fn range_add_action() {
    assert_eq!(RangeIdempotentAdd::map(Some(3), Some(4), 1), Some(7));
    assert_eq!(RangeIdempotentAdd::map(Some(3), None, 5), None);
    assert_eq!(RangeIdempotentAdd::map(None, Some(4), 2), Some(4));
    assert_eq!(RangeIdempotentAdd::map_id(), None);
    assert_eq!(RangeIdempotentAdd::map_compose(Some(1), Some(2)), Some(3));
    assert_eq!(RangeIdempotentAdd::map_compose(Some(1), None), Some(1));
    assert_eq!(RangeIdempotentAdd::map_compose(None, Some(2)), Some(2));
    // a composed action acts as its parts in turn
    let (f, g, x) = (Some(5), Some(-2), Some(10));
    assert_eq!(
        RangeIdempotentAdd::map(RangeIdempotentAdd::map_compose(f, g), x, 3),
        RangeIdempotentAdd::map(f, RangeIdempotentAdd::map(g, x, 3), 3)
    );
}
