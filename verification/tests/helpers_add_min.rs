use array_range_query::IndexRange::{Between, From, Full, To};
use array_range_query::LazySegTreeAddMin;

#[test]
fn test_add_min_basic_operations() {
    let values = vec![5, 2, 8, 1, 9, 3];
    let mut tree = LazySegTreeAddMin::<i32>::from_slice(&values).unwrap();

    // Test initial queries
    assert_eq!(tree.query(Full).unwrap(), 1); // min(5,2,8,1,9,3) = 1
    assert_eq!(tree.query(Between(1, 4)).unwrap(), 1); // min(2,8,1) = 1
    assert_eq!(tree.query(To(1)).unwrap(), 5); // Single element
    assert_eq!(tree.query(Between(4, 6)).unwrap(), 3); // min(9,3) = 3
    assert_eq!(tree.query(Between(2, 2)).unwrap(), i32::MAX); // Empty range returns MAX
}

#[test]
fn test_add_min_range_updates() {
    let values = vec![10, 20, 30, 40, 50];
    let mut tree = LazySegTreeAddMin::<i32>::from_slice(&values).unwrap();

    assert_eq!(tree.query(Full).unwrap(), 10);

    // Add 5 to range [1, 4)
    tree.update(Between(1, 4), 5).unwrap();
    assert_eq!(tree.query(Full).unwrap(), 10); // min(10,25,35,45,50) = 10
    assert_eq!(tree.query(Between(1, 4)).unwrap(), 25); // min(25,35,45) = 25

    // Add -15 to range [0, 3)
    tree.update(To(3), -15).unwrap();
    assert_eq!(tree.query(Full).unwrap(), -5); // min(-5,10,20,45,50)
    assert_eq!(tree.query(To(3)).unwrap(), -5); // min(-5,10,20)
}

#[test]
fn test_add_min_overlapping_updates() {
    let values = vec![1, 1, 1, 1, 1];
    let mut tree = LazySegTreeAddMin::<i32>::from_slice(&values).unwrap();

    assert_eq!(tree.query(Full).unwrap(), 1);

    // Overlapping updates
    tree.update(To(3), 2).unwrap(); // [3,3,3,1,1]
    tree.update(Between(2, 5), -1).unwrap(); // [3,3,2,0,0]
    tree.update(Between(1, 4), 1).unwrap(); // [3,4,3,1,0]

    assert_eq!(tree.query(To(1)).unwrap(), 3);
    assert_eq!(tree.query(Between(1, 2)).unwrap(), 4);
    assert_eq!(tree.query(Between(2, 3)).unwrap(), 3);
    assert_eq!(tree.query(Between(3, 4)).unwrap(), 1);
    assert_eq!(tree.query(Between(4, 5)).unwrap(), 0);
    assert_eq!(tree.query(Full).unwrap(), 0);
}

#[test]
fn test_add_min_negative_updates() {
    let values = vec![10, 20, 30, 40, 50];
    let mut tree = LazySegTreeAddMin::<i32>::from_slice(&values).unwrap();

    assert_eq!(tree.query(Full).unwrap(), 10);

    // Subtract (negative add) from range
    tree.update(Between(1, 4), -5).unwrap();
    assert_eq!(tree.query(Full).unwrap(), 10); // min(10,15,25,35,50) = 10
    assert_eq!(tree.query(Between(1, 4)).unwrap(), 15); // min(15,25,35) = 15

    // Mix positive and negative updates
    tree.update(To(2), 15).unwrap(); // [25,30,25,35,50]
    assert_eq!(tree.query(To(2)).unwrap(), 25); // min(25,30)
    assert_eq!(tree.query(Full).unwrap(), 25); // min(25,30,25,35,50)
}

#[test]
fn test_add_min_edge_cases() {
    // Single element
    let single = vec![42];
    let mut tree_single = LazySegTreeAddMin::<i32>::from_slice(&single).unwrap();
    assert_eq!(tree_single.query(Full).unwrap(), 42);
    tree_single.update(To(1), 8).unwrap();
    assert_eq!(tree_single.query(Full).unwrap(), 50);

    // Empty updates (no-op)
    let values = vec![1, 2, 3, 4, 5];
    let mut tree = LazySegTreeAddMin::<i32>::from_slice(&values).unwrap();
    let original_min = tree.query(Full).unwrap();
    tree.update(Between(2, 2), 100).unwrap(); // Empty range update
    assert_eq!(tree.query(Full).unwrap(), original_min); // Should be unchanged
}

#[test]
fn test_add_min_large_tree() {
    let size = 1000;
    let values = vec![1i32; size]; // All ones
    let mut tree = LazySegTreeAddMin::<i32>::from_slice(&values).unwrap();

    assert_eq!(tree.query(Full).unwrap(), 1);

    // Add 1 to first half
    tree.update(To(size / 2), 1).unwrap();
    assert_eq!(tree.query(Full).unwrap(), 1); // Second half is still 1

    // Subtract 2 from second half
    tree.update(From(size / 2), -2).unwrap();
    assert_eq!(tree.query(Full).unwrap(), -1); // Now min is -1
    assert_eq!(tree.query(From(size / 2)).unwrap(), -1);
}
