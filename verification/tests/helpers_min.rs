use array_range_query::IndexRange::{Between, From, Full, To};
use array_range_query::SegTreeMin;

#[test]
fn test_min_basic_operations() {
    let values = vec![5, 2, 8, 1, 9, 3];
    let tree = SegTreeMin::<i32>::from_slice(&values).unwrap();

    // Test initial queries
    assert_eq!(tree.query(Full).unwrap(), 1); // min(5,2,8,1,9,3) = 1
    assert_eq!(tree.query(Between(1, 4)).unwrap(), 1); // min(2,8,1) = 1
    assert_eq!(tree.query(To(1)).unwrap(), 5); // Single element
    assert_eq!(tree.query(Between(4, 6)).unwrap(), 3); // min(9, 3) = 3
    assert_eq!(tree.query(Between(2, 2)).unwrap(), i32::MAX); // Empty range returns ID (MAX)
}

#[test]
fn test_min_updates() {
    let values = vec![10, 20, 30, 40, 50];
    let mut tree = SegTreeMin::<i32>::from_slice(&values).unwrap();

    assert_eq!(tree.query(Full).unwrap(), 10);

    // Update first element to larger value
    tree.update(0, 100).unwrap();
    assert_eq!(tree.query(Full).unwrap(), 20); // min(100,20,30,40,50) = 20
    assert_eq!(tree.query(To(1)).unwrap(), 100); // Just the updated element
    assert_eq!(tree.query(From(1)).unwrap(), 20); // min(20,30,40,50) = 20

    // Update middle element to smallest value
    tree.update(2, 5).unwrap();
    assert_eq!(tree.query(Full).unwrap(), 5); // min(100,20,5,40,50) = 5
    assert_eq!(tree.query(Between(2, 3)).unwrap(), 5); // Just the updated element
    assert_eq!(tree.query(To(3)).unwrap(), 5); // min(100,20,5) = 5
}

#[test]
fn test_min_with_different_types() {
    // Test with i64
    let values_i64 = vec![1000000000_i64, 500000000, 2000000000];
    let tree_i64 = SegTreeMin::<i64>::from_slice(&values_i64).unwrap();
    assert_eq!(tree_i64.query(Full).unwrap(), 500000000);

    // Test with u32
    let values_u32 = vec![15u32, 25, 5, 45];
    let tree_u32 = SegTreeMin::<u32>::from_slice(&values_u32).unwrap();
    assert_eq!(tree_u32.query(Full).unwrap(), 5);
    assert_eq!(tree_u32.query(Between(1, 3)).unwrap(), 5);
}

#[test]
fn test_min_edge_cases() {
    // Single element
    let single = vec![42];
    let tree_single = SegTreeMin::<i32>::from_slice(&single).unwrap();
    assert_eq!(tree_single.query(Full).unwrap(), 42);
    assert_eq!(tree_single.query(To(0)).unwrap(), i32::MAX);

    // All same values
    let same = vec![7, 7, 7, 7, 7];
    let tree_same = SegTreeMin::<i32>::from_slice(&same).unwrap();
    assert_eq!(tree_same.query(Full).unwrap(), 7);
    assert_eq!(tree_same.query(Between(1, 4)).unwrap(), 7);
    assert_eq!(tree_same.query(Between(2, 3)).unwrap(), 7);

    // Empty ranges in larger tree
    let values = vec![1, 2, 3, 4, 5, 6, 7, 8];
    let tree = SegTreeMin::<i32>::from_slice(&values).unwrap();
    assert_eq!(tree.query(Between(3, 3)).unwrap(), i32::MAX); // Empty range
    assert_eq!(tree.query(To(0)).unwrap(), i32::MAX); // Empty range at start
    assert_eq!(tree.query(From(8)).unwrap(), i32::MAX); // Empty range at end
}

#[test]
fn test_min_large_tree() {
    let size: i32 = 1000;
    let values: Vec<i32> = (1..=size).collect();
    let mut tree = SegTreeMin::<i32>::from_slice(&values).unwrap();

    // Minimum of 1..=1000 is 1
    assert_eq!(tree.query(Full).unwrap(), 1);

    // Minimum of the first half is 1
    assert_eq!(tree.query(To(500)).unwrap(), 1);

    // Minimum of second half (501..=1000) is 501
    assert_eq!(tree.query(From(500)).unwrap(), 501);

    // Test update - change the minimum
    tree.update(0, 2000).unwrap(); // Change 1 to 2000
    assert_eq!(tree.query(Full).unwrap(), 2); // New minimum is 2
    assert_eq!(tree.query(To(500)).unwrap(), 2); // First half minimum is now 2
    assert_eq!(tree.query(To(1)).unwrap(), 2000); // Just the updated element
}

#[test]
fn test_min_negative_values() {
    let values = vec![-5, -3, -1, 2, 4];
    let mut tree = SegTreeMin::<i32>::from_slice(&values).unwrap();

    assert_eq!(tree.query(Full).unwrap(), -5); // min(-5, -3, -1, 2, 4) = -5
    assert_eq!(tree.query(To(3)).unwrap(), -5); // min(-5, -3, -1) = -5
    assert_eq!(tree.query(Between(3, 5)).unwrap(), 2); // min(2, 4) = 2
    assert_eq!(tree.query(Between(1, 4)).unwrap(), -3); // min(-3, -1, 2) = -3

    tree.update(0, -10).unwrap(); // Change -5 to -10
    assert_eq!(tree.query(Full).unwrap(), -10); // New minimum is -10
    assert_eq!(tree.query(From(1)).unwrap(), -3); // Excluding first element
}

#[test]
fn test_min_new_empty_tree() {
    let mut tree = SegTreeMin::<i32>::new(5).unwrap();

    // All elements should be MAX initially
    assert_eq!(tree.query(Full).unwrap(), i32::MAX);
    assert_eq!(tree.query(Between(2, 4)).unwrap(), i32::MAX);

    // Update some elements
    tree.update(1, 10).unwrap();
    tree.update(3, 20).unwrap();

    assert_eq!(tree.query(Full).unwrap(), 10); // min(MAX, 10, MAX, 20, MAX) = 10
    assert_eq!(tree.query(Between(1, 4)).unwrap(), 10); // min(10, MAX, 20) = 10
    assert_eq!(tree.query(Between(3, 5)).unwrap(), 20); // min(20, MAX) = 20
    assert_eq!(tree.query(To(1)).unwrap(), i32::MAX); // Still MAX when excluding updated indices
}

#[test]
fn test_min_extremes() {
    let values = vec![i32::MIN, i32::MAX, 0, -1, 1];
    let mut tree = SegTreeMin::<i32>::from_slice(&values).unwrap();

    assert_eq!(tree.query(Full).unwrap(), i32::MIN); // MIN is smallest
    assert_eq!(tree.query(From(1)).unwrap(), -1); // Excluding MIN: min(MAX, 0, -1, 1) = -1
    assert_eq!(tree.query(Between(1, 2)).unwrap(), i32::MAX); // Just MAX

    tree.update(0, 0).unwrap(); // Change MIN to 0
    assert_eq!(tree.query(Full).unwrap(), -1); // min(0, MAX, 0, -1, 1) = -1
}

#[test]
fn test_consume_vec_constructor() {
    // Demonstrate using the consuming constructor when we don't need the Vec afterwards
    let values = vec![3, 1, 4, 1, 5];
    let tree = SegTreeMin::<i32>::from_vec(values).unwrap(); // moves `values` into the tree
    assert_eq!(tree.query(Full).unwrap(), 1);
}
