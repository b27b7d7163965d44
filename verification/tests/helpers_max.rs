use array_range_query::IndexRange::{Between, From, Full, To};
use array_range_query::SegTreeMax;

#[test]
fn test_max_basic_operations() {
    let values = vec![5, 2, 8, 1, 9, 3];
    let tree = SegTreeMax::<i32>::from_vec(values).unwrap();

    // Test initial queries
    assert_eq!(tree.query(Full).unwrap(), 9); // Max of all: max(5,2,8,1,9,3) = 9
    assert_eq!(tree.query(Between(1, 4)).unwrap(), 8); // Max of middle: max(2,8,1) = 8
    assert_eq!(tree.query(To(1)).unwrap(), 5); // Single element
    assert_eq!(tree.query(Between(4, 6)).unwrap(), 9); // max(9, 3) = 9
    assert_eq!(tree.query(Between(2, 2)).unwrap(), i32::MIN); // Empty range returns MIN
}

#[test]
fn test_max_updates() {
    let values = vec![10, 20, 30, 40, 50];
    let mut tree = SegTreeMax::<i32>::from_vec(values).unwrap();

    assert_eq!(tree.query(Full).unwrap(), 50);

    // Update last element to smaller value
    tree.update(4, 5).unwrap();
    assert_eq!(tree.query(Full).unwrap(), 40); // max(10,20,30,40,5) = 40
    assert_eq!(tree.query(Between(4, 5)).unwrap(), 5); // Just the updated element
    assert_eq!(tree.query(To(4)).unwrap(), 40); // max(10,20,30,40) = 40

    // Update middle element to largest value
    tree.update(2, 100).unwrap();
    assert_eq!(tree.query(Full).unwrap(), 100); // max(10,20,100,40,5) = 100
    assert_eq!(tree.query(Between(2, 3)).unwrap(), 100); // Just the updated element
    assert_eq!(tree.query(To(3)).unwrap(), 100); // max(10,20,100) = 100
}

#[test]
fn test_max_with_different_types() {
    // Test with i64
    let values_i64 = vec![1000000000_i64, 2000000000, 500000000];
    let tree_i64 = SegTreeMax::<i64>::from_vec(values_i64).unwrap();
    assert_eq!(tree_i64.query(Full).unwrap(), 2000000000);

    // Test with u32
    let values_u32 = vec![15u32, 25, 45, 5];
    let tree_u32 = SegTreeMax::<u32>::from_vec(values_u32).unwrap();
    assert_eq!(tree_u32.query(Full).unwrap(), 45);
    assert_eq!(tree_u32.query(Between(1, 3)).unwrap(), 45);
}

#[test]
fn test_max_edge_cases() {
    // Single element
    let single = vec![42];
    let tree_single = SegTreeMax::<i32>::from_vec(single).unwrap();
    assert_eq!(tree_single.query(Full).unwrap(), 42);
    assert_eq!(tree_single.query(To(0)).unwrap(), i32::MIN);

    // All same values
    let same = vec![7, 7, 7, 7, 7];
    let tree_same = SegTreeMax::<i32>::from_vec(same).unwrap();
    assert_eq!(tree_same.query(Full).unwrap(), 7);
    assert_eq!(tree_same.query(Between(1, 4)).unwrap(), 7);
    assert_eq!(tree_same.query(Between(2, 3)).unwrap(), 7);

    // Empty ranges in larger tree
    let values = vec![1, 2, 3, 4, 5, 6, 7, 8];
    let tree = SegTreeMax::<i32>::from_vec(values).unwrap();
    assert_eq!(tree.query(Between(3, 3)).unwrap(), i32::MIN); // Empty range
    assert_eq!(tree.query(To(0)).unwrap(), i32::MIN); // Empty range at start
    assert_eq!(tree.query(From(8)).unwrap(), i32::MIN); // Empty range at end
}

#[test]
fn test_max_large_tree() {
    let size: i32 = 1000;
    let values: Vec<i32> = (1..=size).collect();
    let mut tree = SegTreeMax::<i32>::from_vec(values).unwrap();

    // Maximum of 1 to 1000 is 1000
    assert_eq!(tree.query(Full).unwrap(), 1000);

    // Maximum of first half (1 to 500) is 500
    assert_eq!(tree.query(To(500)).unwrap(), 500);

    // Maximum of second half (501 to 1000) is 1000
    assert_eq!(tree.query(From(500)).unwrap(), 1000);

    // Test update - change the maximum
    tree.update(999, 0).unwrap(); // Change 1000 to 0
    assert_eq!(tree.query(Full).unwrap(), 999); // New maximum is 999
    assert_eq!(tree.query(From(500)).unwrap(), 999); // Second half maximum is now 999
    assert_eq!(tree.query(Between(999, 1000)).unwrap(), 0); // Just the updated element
}

#[test]
fn test_max_negative_values() {
    let values = vec![-5, -3, -1, 2, 4];
    let mut tree = SegTreeMax::<i32>::from_vec(values).unwrap();

    assert_eq!(tree.query(Full).unwrap(), 4); // max(-5, -3, -1, 2, 4) = 4
    assert_eq!(tree.query(To(3)).unwrap(), -1); // max(-5, -3, -1) = -1
    assert_eq!(tree.query(Between(3, 5)).unwrap(), 4); // max(2, 4) = 4
    assert_eq!(tree.query(Between(1, 4)).unwrap(), 2); // max(-3, -1, 2) = 2

    tree.update(4, -10).unwrap(); // Change 4 to -10
    assert_eq!(tree.query(Full).unwrap(), 2); // New maximum is 2
    assert_eq!(tree.query(To(4)).unwrap(), 2); // Excluding last element
}

#[test]
fn test_max_new_empty_tree() {
    let mut tree = SegTreeMax::<i32>::new(5).unwrap();

    // All elements should be MIN initially
    assert_eq!(tree.query(Full).unwrap(), i32::MIN);
    assert_eq!(tree.query(Between(2, 4)).unwrap(), i32::MIN);

    // Update some elements
    tree.update(1, 10).unwrap();
    tree.update(3, 20).unwrap();

    assert_eq!(tree.query(Full).unwrap(), 20); // max(MIN, 10, MIN, 20, MIN) = 20
    assert_eq!(tree.query(Between(1, 4)).unwrap(), 20); // max(10, MIN, 20) = 20
    assert_eq!(tree.query(To(2)).unwrap(), 10); // max(MIN, 10) = 10
    assert_eq!(tree.query(Between(4, 5)).unwrap(), i32::MIN); // Still MIN
}

#[test]
fn test_max_extremes() {
    let values = vec![i32::MIN, i32::MAX, 0, -1, 1];
    let mut tree = SegTreeMax::<i32>::from_vec(values).unwrap();

    assert_eq!(tree.query(Full).unwrap(), i32::MAX); // MAX is largest
    assert_eq!(tree.query(To(1)).unwrap(), i32::MIN); // Just MIN
    assert_eq!(tree.query(Between(2, 5)).unwrap(), 1); // Excluding MIN and MAX: max(0, -1, 1) = 1

    tree.update(1, 0).unwrap(); // Change MAX to 0
    assert_eq!(tree.query(Full).unwrap(), 1); // max(MIN, 0, 0, -1, 1) = 1
}
