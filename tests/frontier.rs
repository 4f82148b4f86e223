use persist_sink::{consolidate, Description, Frontier};

#[test]
fn frontier_order_places_empty_last() {
    assert!(Frontier::At(3).less_equal(&Frontier::At(3)));
    assert!(!Frontier::At(3).less_than(&Frontier::At(3)));
    assert!(Frontier::At(3).less_than(&Frontier::At(4)));
    assert!(Frontier::At(u64::MAX).less_than(&Frontier::Empty));
    assert!(Frontier::Empty.less_equal(&Frontier::Empty));
    assert!(!Frontier::Empty.less_equal(&Frontier::At(0)));
    assert_eq!(Frontier::At(2).join(&Frontier::At(5)), Frontier::At(5));
    assert_eq!(Frontier::Empty.join(&Frontier::At(5)), Frontier::Empty);
    assert_eq!(Frontier::minimum(), Frontier::At(0));
}

#[test]
fn frontier_time_membership() {
    assert!(Frontier::At(2).less_equal_time(2));
    assert!(!Frontier::At(3).less_equal_time(2));
    assert!(!Frontier::Empty.less_equal_time(u64::MAX));
    let d = Description { lower: Frontier::At(0), upper: Frontier::At(2) };
    assert!(d.contains_time(0));
    assert!(d.contains_time(1));
    assert!(!d.contains_time(2));
    let open = Description { lower: Frontier::At(5), upper: Frontier::Empty };
    assert!(open.contains_time(u64::MAX));
    assert!(!open.contains_time(4));
}

#[test]
fn consolidate_sorts_sums_and_drops_zeros() {
    let mut v = vec![(2, 1, 1), (1, 5, 2), (2, 1, -1), (1, 5, 3), (0, 9, 4), (1, 4, -2)];
    consolidate(&mut v);
    assert_eq!(v, vec![(0, 9, 4), (1, 4, -2), (1, 5, 5)]);
}

#[test]
fn consolidate_of_cancelling_pair_is_empty() {
    let mut v = vec![(7, 1, 1), (7, 1, -1)];
    consolidate(&mut v);
    assert!(v.is_empty());
}

#[test]
fn frontier_meet_is_smaller() {
    assert_eq!(Frontier::At(2).meet(&Frontier::At(5)), Frontier::At(2));
    assert_eq!(Frontier::Empty.meet(&Frontier::At(5)), Frontier::At(5));
    assert_eq!(Frontier::Empty.meet(&Frontier::Empty), Frontier::Empty);
}
