use array_range_query::IndexRange::{Between, From, Full, To};
use array_range_query::SegTreeSum;

#[test]
fn test_sum_basic_operations() {
    let values = vec![1, 2, 3, 4, 5];
    let tree = SegTreeSum::<i32>::from_slice(&values).unwrap();

    // Test initial queries
    assert_eq!(tree.query(Full).unwrap(), 15); // 1+2+3+4+5
    assert_eq!(tree.query(Between(1, 4)).unwrap(), 9); // 2+3+4
    assert_eq!(tree.query(To(1)).unwrap(), 1); // single element
    assert_eq!(tree.query(Between(4, 5)).unwrap(), 5); // last element
    assert_eq!(tree.query(Between(2, 2)).unwrap(), 0); // empty range
}

#[test]
fn test_sum_updates() {
    let values = vec![10, 20, 30, 40, 50];
    let mut tree = SegTreeSum::<i32>::from_slice(&values).unwrap();

    assert_eq!(tree.query(Full).unwrap(), 150);

    // Update middle element
    tree.update(2, 100).unwrap();
    assert_eq!(tree.query(Full).unwrap(), 220); // 10+20+100+40+50
    assert_eq!(tree.query(Between(2, 3)).unwrap(), 100); // just the updated element
    assert_eq!(tree.query(Between(1, 4)).unwrap(), 160); // 20+100+40

    // Update first element
    tree.update(0, 5).unwrap();
    assert_eq!(tree.query(Full).unwrap(), 215); // 5+20+100+40+50
    assert_eq!(tree.query(To(2)).unwrap(), 25); // 5+20
}

#[test]
fn test_sum_with_different_types() {
    // Test with i64
    let values_i64 = vec![1000000000_i64, 2000000000, 3000000000];
    let tree_i64 = SegTreeSum::<i64>::from_slice(&values_i64).unwrap();
    assert_eq!(tree_i64.query(Full).unwrap(), 6000000000);
}

#[test]
fn test_sum_edge_cases() {
    // Single element
    let single = vec![42];
    let tree_single = SegTreeSum::<i32>::from_slice(&single).unwrap();
    assert_eq!(tree_single.query(Full).unwrap(), 42);
    assert_eq!(tree_single.query(To(0)).unwrap(), 0);

    // Empty ranges in larger tree
    let values = vec![1, 2, 3, 4, 5, 6, 7, 8];
    let tree = SegTreeSum::<i32>::from_slice(&values).unwrap();
    assert_eq!(tree.query(Between(3, 3)).unwrap(), 0); // empty range
    assert_eq!(tree.query(To(0)).unwrap(), 0); // empty at start
    assert_eq!(tree.query(From(8)).unwrap(), 0); // empty at end
}

#[test]
fn test_sum_large_tree() {
    let size: i32 = 1000;
    let values: Vec<i32> = (1..=size).collect();
    let mut tree = SegTreeSum::<i32>::from_slice(&values).unwrap();

    // Sum of 1..=1000 = 1000 * 1001 / 2 = 500500
    assert_eq!(tree.query(Full).unwrap(), 500500);

    // Sum of first half (1..500)
    assert_eq!(tree.query(To(500)).unwrap(), 125250);

    // Sum of second half
    assert_eq!(tree.query(From(500)).unwrap(), 375250);

    // Test update
    tree.update(499, 0).unwrap(); // change 500 to 0
    assert_eq!(tree.query(Full).unwrap(), 500000); // 500500 - 500
    assert_eq!(tree.query(To(500)).unwrap(), 124750); // 125250 - 500
}

#[test]
fn test_sum_zero_values() {
    let values = vec![0, 0, 0, 0, 0];
    let mut tree = SegTreeSum::<i32>::from_slice(&values).unwrap();

    assert_eq!(tree.query(Full).unwrap(), 0);
    assert_eq!(tree.query(Between(1, 4)).unwrap(), 0);

    // Update with non-zero
    tree.update(2, 10).unwrap();
    assert_eq!(tree.query(Full).unwrap(), 10);
    assert_eq!(tree.query(Between(2, 3)).unwrap(), 10);
    assert_eq!(tree.query(To(2)).unwrap(), 0);
    assert_eq!(tree.query(Between(3, 5)).unwrap(), 0);
}

#[test]
fn test_sum_negative_values() {
    let values = vec![-5, -3, -1, 2, 4];
    let mut tree = SegTreeSum::<i32>::from_slice(&values).unwrap();

    assert_eq!(tree.query(Full).unwrap(), -3); // -5 + -3 + -1 + 2 + 4 = -3
    assert_eq!(tree.query(To(3)).unwrap(), -9); // -5 + -3 + -1 = -9
    assert_eq!(tree.query(Between(3, 5)).unwrap(), 6); // 2 + 4 = 6

    tree.update(0, 10).unwrap(); // change -5 to 10
    assert_eq!(tree.query(Full).unwrap(), 12); // 10 + -3 + -1 + 2 + 4 = 12
}

#[test]
fn test_sum_new_empty_tree() {
    let mut tree = SegTreeSum::<i32>::new(5).unwrap();

    // All elements should be zero initially
    assert_eq!(tree.query(Full).unwrap(), 0);
    assert_eq!(tree.query(Between(2, 4)).unwrap(), 0);

    // Update some elements
    tree.update(1, 10).unwrap();
    tree.update(3, 20).unwrap();

    assert_eq!(tree.query(Full).unwrap(), 30); // 0 + 10 + 0 + 20 + 0
    assert_eq!(tree.query(Between(1, 4)).unwrap(), 30);
    assert_eq!(tree.query(To(2)).unwrap(), 10);
}
