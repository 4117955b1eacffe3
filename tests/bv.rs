use mesh::bv::AABB;

fn aabb3(min: [i64; 3], max: [i64; 3]) -> AABB<3> {
    AABB { min: min.to_vec(), max: max.to_vec() }
}

#[test]
fn aabb_test_new() {
    let aabb = AABB::<3>::new();
    assert_eq!(aabb.min, vec![i64::MAX; 3]);
    assert_eq!(aabb.max, vec![i64::MIN; 3]);
}

#[test]
fn aabb_test_default() {
    let aabb = AABB::<3>::default();
    assert_eq!(aabb.min, vec![i64::MAX; 3]);
    assert_eq!(aabb.max, vec![i64::MIN; 3]);
}

#[test]
fn aabb_test_intersect() {
    // an empty box meets no box
    let empty = AABB::<3>::new();
    let a = aabb3([-1; 3], [1; 3]);
    let b = aabb3([0; 3], [2; 3]);
    let c = aabb3([1; 3], [3; 3]);
    assert!(!a.intersect_aabb(&empty));
    assert!(!b.intersect_aabb(&empty));
    assert!(!c.intersect_aabb(&empty));
    assert!(a.intersect_aabb(&b));
    assert!(b.intersect_aabb(&c));
    assert!(!a.intersect_aabb(&c));
}

#[test]
fn aabb_test_grow() {
    let mut aabb = AABB::<3>::new();
    aabb.grow(&vec![0, 0, 0]);
    assert_eq!(aabb.min, vec![0; 3]);
    assert_eq!(aabb.max, vec![0; 3]);
    aabb.grow(&vec![1, 1, 1]);
    assert_eq!(aabb.min, vec![0; 3]);
    assert_eq!(aabb.max, vec![1; 3]);
    aabb.grow(&vec![2, 3, 4]);
    assert_eq!(aabb.min, vec![0; 3]);
    assert_eq!(aabb.max, vec![2, 3, 4]);
    aabb.grow(&vec![-2, 0, 0]);
    assert_eq!(aabb.min, vec![-2, 0, 0]);
    assert_eq!(aabb.max, vec![2, 3, 4]);
}

#[test]
fn aabb_test_from_triangle() {
    let a = AABB::<3>::from_triangle(&[vec![1, 0, 0], vec![0, 1, 0], vec![0, 0, 1]]);
    assert_eq!(a.min, vec![0; 3]);
    assert_eq!(a.max, vec![1; 3]);
}

// Coordinates at ten times the scale of the fractional ones (1.1 becomes 11).
#[test]
fn aabb_test_longest_axis() {
    let a = AABB::<3>::from_triangle(&[vec![11, 0, 0], vec![0, 10, 0], vec![0, 0, 10]]);
    assert_eq!(a.longest_dimension(), 0);
    let b = AABB::<3>::from_triangle(&[vec![0, 11, 0], vec![0, 0, 10], vec![10, 0, 0]]);
    assert_eq!(b.longest_dimension(), 1);
    let c = AABB::<3>::from_triangle(&[vec![0, 0, 11], vec![10, 0, 0], vec![0, 10, 0]]);
    assert_eq!(c.longest_dimension(), 2);
}

#[test]
fn bv_test_new() {
    let aabb = AABB::<3>::new();
    assert_eq!(aabb.min, vec![i64::MAX; 3]);
    assert_eq!(aabb.max, vec![i64::MIN; 3]);
}

#[test]
fn bv_test_default() {
    let aabb = AABB::<3>::default();
    assert_eq!(aabb.min, vec![i64::MAX; 3]);
    assert_eq!(aabb.max, vec![i64::MIN; 3]);
}

#[test]
fn bv_test_intersect() {
    let empty = AABB::<3>::new();
    let a = aabb3([-1; 3], [1; 3]);
    let b = aabb3([0; 3], [2; 3]);
    let c = aabb3([1; 3], [3; 3]);
    assert!(!a.intersect_aabb(&empty));
    assert!(!b.intersect_aabb(&empty));
    assert!(!c.intersect_aabb(&empty));
    assert!(a.intersect_aabb(&b));
    assert!(b.intersect_aabb(&c));
    assert!(!a.intersect_aabb(&c));
}

#[test]
fn bv_test_grow() {
    let mut aabb = AABB::<3>::new();
    aabb.grow(&vec![0, 0, 0]);
    assert_eq!(aabb.min, vec![0; 3]);
    assert_eq!(aabb.max, vec![0; 3]);
    aabb.grow(&vec![1, 1, 1]);
    assert_eq!(aabb.min, vec![0; 3]);
    assert_eq!(aabb.max, vec![1; 3]);
    aabb.grow(&vec![2, 3, 4]);
    assert_eq!(aabb.min, vec![0; 3]);
    assert_eq!(aabb.max, vec![2, 3, 4]);
    aabb.grow(&vec![-2, 0, 0]);
    assert_eq!(aabb.min, vec![-2, 0, 0]);
    assert_eq!(aabb.max, vec![2, 3, 4]);
}

#[test]
fn bv_test_from_triangle() {
    let a = AABB::<3>::from_triangle(&[vec![1, 0, 0], vec![0, 1, 0], vec![0, 0, 1]]);
    assert_eq!(a.min, vec![0; 3]);
    assert_eq!(a.max, vec![1; 3]);
}

#[test]
fn bv_test_longest_axis() {
    let a = AABB::<3>::from_triangle(&[vec![11, 0, 0], vec![0, 10, 0], vec![0, 0, 10]]);
    assert_eq!(a.longest_dimension(), 0);
    let b = AABB::<3>::from_triangle(&[vec![0, 11, 0], vec![0, 0, 10], vec![10, 0, 0]]);
    assert_eq!(b.longest_dimension(), 1);
    let c = AABB::<3>::from_triangle(&[vec![0, 0, 11], vec![10, 0, 0], vec![0, 10, 0]]);
    assert_eq!(c.longest_dimension(), 2);
}

#[test]
fn merge_of_two_boxes() {
    let mut a = aabb3([-1, -1, -1], [1, 1, 1]);
    let b = aabb3([0, 0, 0], [2, 2, 2]);
    a.merge(&b);
    assert_eq!(a.min, vec![-1, -1, -1]);
    assert_eq!(a.max, vec![2, 2, 2]);
    let mut c = aabb3([0, 0, 0], [2, 2, 2]);
    c.grow_from_aabb(&aabb3([-1, -1, -1], [1, 1, 1]));
    assert_eq!(c.min, vec![-1, -1, -1]);
    assert_eq!(c.max, vec![2, 2, 2]);
}

#[test]
fn empty_box_meets_nothing() {
    let empty = AABB::<3>::new();
    let other_empty = AABB::<3>::default();
    let everything = aabb3([i64::MIN; 3], [i64::MAX; 3]);
    assert!(!empty.intersect_aabb(&other_empty));
    assert!(!empty.intersect_aabb(&everything));
    assert!(!everything.intersect_aabb(&empty));
    let mut grown = AABB::<3>::new();
    grown.merge(&AABB::<3>::new());
    assert!(!grown.intersect_aabb(&everything));
}

#[test]
fn merging_an_empty_box_changes_nothing() {
    let mut a = aabb3([1, 2, 3], [4, 5, 6]);
    a.merge(&AABB::<3>::new());
    assert_eq!(a.min, vec![1, 2, 3]);
    assert_eq!(a.max, vec![4, 5, 6]);
}

#[test]
fn longest_axis_of_a_flat_box_is_the_first() {
    let a = aabb3([3, 3, 3], [3, 3, 3]);
    assert_eq!(a.longest_dimension(), 0);
    let b = aabb3([0, 0, 0], [2, 5, 5]);
    assert_eq!(b.longest_dimension(), 1);
}

// The center comes at twice its scale: 0.5 on every axis reads 1.
#[test]
fn aabb_test_center() {
    let a = AABB::<3>::from_triangle(&[vec![1, 0, 0], vec![0, 1, 0], vec![0, 0, 1]]);
    assert_eq!(a.center(), vec![1, 1, 1]);
}

#[test]
fn bv_test_center() {
    let a = AABB::<3>::from_triangle(&[vec![1, 0, 0], vec![0, 1, 0], vec![0, 0, 1]]);
    assert_eq!(a.center(), vec![1, 1, 1]);
}
