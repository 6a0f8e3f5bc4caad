use kyopro::slices::{at, max_value, min_value, replace, sorted_list, sum, MyIndex, MyList};

#[test]
fn slices_helpers() {
    let xs = [3i64, -1, 4, 1, -5, 9];
    assert_eq!(sorted_list(&xs), vec![-5, -1, 1, 3, 4, 9]);
    assert_eq!(sorted_list(&[]), Vec::<i64>::new());
    assert_eq!(sum(&xs), 11);
    assert_eq!(sum(&[i64::MAX, 1]), i64::MIN);
    assert_eq!(replace(&xs, 4, 0), vec![3, -1, 0, 1, -5, 9]);
    assert_eq!(max_value(&xs), 9);
    assert_eq!(min_value(&xs), -5);
    assert_eq!(at(&xs, 0), 3);
    assert_eq!(at(&xs, -1), 9);
    assert_eq!(at(&xs, 7), -1);
    assert_eq!(at(&xs, -6), 3);
    assert_eq!(kyopro::slices::map(&xs, |x| x * 2), vec![6, -2, 8, 2, -10, 18]);
}

#[test]
fn tally_counts_each_value() {
    let counts = kyopro::iter_ext::tally(&[3, 1, 3, 3, 7]);
    assert_eq!(counts.len(), 3);
    assert_eq!(counts[&3], 3);
    assert_eq!(counts[&1], 1);
    assert_eq!(counts[&7], 1);
    assert!(!counts.contains_key(&2));
    assert!(kyopro::iter_ext::tally(&[]).is_empty());
}

#[test]
fn list_and_index_traits() {
    let v: Vec<i64> = vec![3, -1, 4, 1, -5, 9];
    assert_eq!(MyList::sorted(&v), vec![-5, -1, 1, 3, 4, 9]);
    assert_eq!(MyList::sum(&v), 11);
    assert_eq!(MyList::replace(&v, 1, 7), vec![3, -1, 4, 7, -5, 9]);
    assert_eq!(MyList::max_value(&v), 9);
    assert_eq!(MyList::min_value(&v), -5);
    assert_eq!(v.at(-1i64), 9);
    assert_eq!(v.at(7i32), -1);
    assert_eq!(2i64.of_slice(&v), 4);
    assert_eq!(5i32.as_usize(), 5);
    assert_eq!(MyList::to_slice(&v).len(), 6);
}
