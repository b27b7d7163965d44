use array_range_query::IndexRange::{Between, From, Full, To, ToInclusive};
use array_range_query::SegTreeSum;

#[test]
fn test_new_empty() {
    let seg_tree = SegTreeSum::<i64>::new(10).unwrap();
    assert_eq!(seg_tree.query(Full).unwrap(), 0);
}

#[test]
fn test_from_slice_with_query() {
    let values = vec![1, 2, 3];
    let seg_tree = SegTreeSum::<i64>::from_slice(&values).unwrap();

    // Comprehensively test if querying works correctly for any range
    assert_eq!(seg_tree.query(Between(0, 1)).unwrap(), 1);
    assert_eq!(seg_tree.query(Between(1, 2)).unwrap(), 2);
    assert_eq!(seg_tree.query(Between(2, 3)).unwrap(), 3);
    assert_eq!(seg_tree.query(To(2)).unwrap(), 3);
    assert_eq!(seg_tree.query(From(1)).unwrap(), 5);
    assert_eq!(seg_tree.query(Full).unwrap(), 6);
}

#[test]
fn test_from_vec_with_query() {
    let values = vec![1, 2, 3];
    let seg_tree = SegTreeSum::<i64>::from_vec(values).unwrap();

    // Comprehensively test if querying works correctly for any range
    assert_eq!(seg_tree.query(Between(0, 1)).unwrap(), 1);
    assert_eq!(seg_tree.query(Between(1, 2)).unwrap(), 2);
    assert_eq!(seg_tree.query(Between(2, 3)).unwrap(), 3);
    assert_eq!(seg_tree.query(To(2)).unwrap(), 3);
    assert_eq!(seg_tree.query(From(1)).unwrap(), 5);
    assert_eq!(seg_tree.query(Full).unwrap(), 6);
}

#[test]
fn test_query_sub_ranges() {
    let seg_tree = SegTreeSum::<i64>::from_vec(vec![1, 2, 3, 4, 5, 6, 7, 8]).unwrap();

    assert_eq!(seg_tree.query(Between(0, 3)).unwrap(), 6); // 1+2+3
    assert_eq!(seg_tree.query(Between(2, 5)).unwrap(), 12); // 3+4+5
    assert_eq!(seg_tree.query(From(4)).unwrap(), 26); // 5+6+7+8
    assert_eq!(seg_tree.query(ToInclusive(6)).unwrap(), 28); // 1+2+3+4+5+6+7
    assert_eq!(seg_tree.query(Between(7, 8)).unwrap(), 8); // just 8
}

#[test]
fn test_query_empty_range() {
    let seg_tree = SegTreeSum::<i64>::from_vec(vec![1, 2, 3]).unwrap();

    assert_eq!(seg_tree.query(Between(1, 1)).unwrap(), 0);
    assert_eq!(seg_tree.query(Between(3, 3)).unwrap(), 0);
}

#[test]
fn test_update() {
    let mut seg_tree = SegTreeSum::<i64>::from_vec(vec![1, 2, 3, 4, 5]).unwrap();

    assert_eq!(seg_tree.query(Full).unwrap(), 15);

    // Update index 2 (value 3) to 10
    seg_tree.update(2, 10).unwrap();
    assert_eq!(seg_tree.query(Full).unwrap(), 1 + 2 + 10 + 4 + 5);
    assert_eq!(seg_tree.query(Between(2, 3)).unwrap(), 10);
    assert_eq!(seg_tree.query(To(2)).unwrap(), 3);
}

#[test]
fn test_large_tree() {
    let mut seg_tree = SegTreeSum::<i64>::from_vec((1..=1000).collect()).unwrap();

    // Sum of 1 to 1000 = 1000 * 1001 / 2 = 500500
    assert_eq!(seg_tree.query(Full).unwrap(), 500500);

    // Sum of first 500 numbers = 500 * 501 / 2 = 125250
    assert_eq!(seg_tree.query(To(500)).unwrap(), 125250);

    // Update index 499 (value 500) to 1000
    seg_tree.update(499, 1000).unwrap();

    assert_eq!(seg_tree.query(Full).unwrap(), 500500 + 500);
    assert_eq!(seg_tree.query(To(500)).unwrap(), 125250 + 500);
}
