use druid_graphs::range::{Range, GRID_LIMIT};

#[test]
fn new_range_keeps_its_ends() {
    let range = Range::new(-3, 8);
    assert_eq!(range.min(), -3);
    assert_eq!(range.max(), 8);
    assert_eq!(range.as_tuple(), (-3, 8));
    assert_eq!(range.size(), 11);
}

#[test]
fn range_of_one_point_has_size_zero() {
    let range = Range::new(5, 5);
    assert_eq!(range.size(), 0);
    assert_eq!(range.as_tuple(), (5, 5));
}

#[test]
fn range_over_the_whole_grid() {
    let range = Range::new(-GRID_LIMIT, GRID_LIMIT);
    assert_eq!(range.size(), 2_000_000_000_000_000);
}

#[test]
fn set_min_and_set_max_chain() {
    let mut range = Range::new(0, 10);
    range.set_min(-5).set_max(20);
    assert_eq!(range, Range::new(-5, 20));
    range.set_max(-5);
    assert_eq!(range, Range::new(-5, -5));
    range.set_min(-7);
    assert_eq!(range.as_tuple(), (-7, -5));
}

#[test]
fn extend_to_grows_the_lower_end() {
    let mut range = Range::new(0, 10);
    assert!(range.extend_to(-2));
    assert_eq!(range, Range::new(-2, 10));
}

#[test]
fn extend_to_grows_the_upper_end() {
    let mut range = Range::new(0, 10);
    assert!(range.extend_to(11));
    assert_eq!(range, Range::new(0, 11));
}

#[test]
fn extend_to_leaves_a_range_that_contains_the_value() {
    for val in vec![0, 1, 5, 10] {
        let mut range = Range::new(0, 10);
        assert!(!range.extend_to(val));
        assert_eq!(range, Range::new(0, 10));
    }
}

#[test]
fn extend_to_zero_includes_the_origin() {
    let mut above = Range::new(3, 9);
    assert!(above.extend_to(0));
    assert_eq!(above, Range::new(0, 9));
    let mut below = Range::new(-9, -3);
    assert!(below.extend_to(0));
    assert_eq!(below, Range::new(-9, 0));
}

#[test]
fn from_iter_finds_the_smallest_and_the_largest() {
    assert_eq!(Range::from_iter(&vec![1, 7, 3]), Some(Range::new(1, 7)));
    assert_eq!(Range::from_iter(&vec![4]), Some(Range::new(4, 4)));
    assert_eq!(Range::from_iter(&vec![5, -5, 5, -5]), Some(Range::new(-5, 5)));
    assert_eq!(
        Range::from_iter(&vec![GRID_LIMIT, 0, -GRID_LIMIT]),
        Some(Range::new(-GRID_LIMIT, GRID_LIMIT))
    );
}

#[test]
fn from_iter_of_nothing_is_none() {
    assert_eq!(Range::from_iter(&Vec::new()), None);
}

#[test]
fn range_into_a_pair() {
    let ends: (i64, i64) = Range::new(-3, 8).into();
    assert_eq!(ends, (-3, 8));
}
