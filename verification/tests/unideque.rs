use kyopro::unideque::Unideque;

#[test]
fn unideque_keeps_values_unique() {
    let mut d = Unideque::default();
    assert!(d.is_empty());
    assert_eq!(d.front(), None);
    assert!(d.push_back(1));
    assert!(d.push_back(2));
    assert!(d.push_front(3));
    assert!(!d.push_back(1));
    assert!(!d.push_front(2));
    assert_eq!(d.len(), 3);
    assert_eq!(d.front(), Some(&3));
    assert_eq!(d.back(), Some(&2));
    assert_eq!(d.get(1), Some(&1));
    assert_eq!(d.get(3), None);
    assert!(d.contains(&1));
    assert!(!d.contains(&4));
    assert_eq!(d.pop_front(), Some(3));
    assert!(!d.contains(&3));
    assert!(d.push_back(3));
    assert_eq!(d.pop_back(), Some(3));
    assert_eq!(d.pop_back(), Some(2));
    assert_eq!(d.pop_back(), Some(1));
    assert_eq!(d.pop_back(), None);
    assert_eq!(d.pop_front(), None);
    assert!(d.is_empty());
}
