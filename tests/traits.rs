use mesh::bv::AABB;
use mesh::traits::{Bounded, Intersect, Point, Triangle};

fn tri2(a: [i32; 2], b: [i32; 2], c: [i32; 2]) -> Triangle<2> {
    Triangle::new(a.to_vec(), b.to_vec(), c.to_vec())
}

// A triangle's center is kept as the sum of its vertices, three times the
// centroid, so the expected centers below are three times 1/3.
#[test]
fn test_bounded() {
    let triangle = Triangle::<3>::new(vec![1, 0, 0], vec![0, 1, 0], vec![0, 0, 1]);
    let aabb: AABB<3> = triangle.bv();
    assert_eq!(aabb.min, vec![0; 3]);
    assert_eq!(aabb.max, vec![1; 3]);
    let center = triangle.center();
    assert_eq!(center, vec![1; 3]);
    let center_at_x = triangle.center_at_axis(0);
    assert_eq!(center_at_x, 1);
}

// Coordinates at ten times the scale of the fractional ones (0.1 becomes 1).
#[test]
fn test_intersect_vec2_with_aabb() {
    let point = Point::<2>::new(vec![1, 1]);
    let triangle = tri2([10, 0], [0, 10], [0, 0]);
    assert!(point.intersect(&triangle));

    let point = Point::<2>::new(vec![1, 1]);
    let triangle = tri2([10, 0], [0, 10], [10, 0]);
    assert!(!point.intersect(&triangle));

    let point = Point::<2>::new(vec![10, 10]);
    let triangle = tri2([10, 0], [0, 10], [0, 0]);
    assert!(!point.intersect(&triangle));

    let aabb = AABB::<2> { min: vec![0, 0], max: vec![10, 10] };
    let aabb2 = AABB::<2> { min: vec![0, 0], max: vec![20, 20] };
    assert!(aabb.intersect(&Point::<2>::new(vec![10, 10])));
    assert!(!aabb.intersect(&Point::<2>::new(vec![11, 10])));
    assert!(aabb.intersect(&aabb2));
}

#[test]
fn point_on_triangle_border_is_inside() {
    let triangle = tri2([0, 0], [10, 0], [0, 10]);
    assert!(Point::<2>::new(vec![5, 5]).intersect(&triangle));
    assert!(Point::<2>::new(vec![0, 0]).intersect(&triangle));
    assert!(!Point::<2>::new(vec![6, 5]).intersect(&triangle));
    // clockwise order holds the same points
    let triangle = tri2([0, 0], [0, 10], [10, 0]);
    assert!(Point::<2>::new(vec![3, 3]).intersect(&triangle));
    assert!(!Point::<2>::new(vec![-1, 3]).intersect(&triangle));
}

#[test]
fn triangle_box_and_center_use_every_vertex() {
    let triangle = Triangle::<2>::new(vec![-4, 7], vec![2, -1], vec![5, 3]);
    let b = triangle.bv();
    assert_eq!(b.min, vec![-4, -1]);
    assert_eq!(b.max, vec![5, 7]);
    assert_eq!(triangle.center(), vec![3, 9]);
    assert_eq!(triangle.center_at_axis(1), 9);
}

#[test]
fn point_with_wrong_dimension_meets_nothing() {
    let aabb = AABB::<2> { min: vec![0, 0], max: vec![10, 10] };
    assert!(!Point::<2>::new(vec![1, 1, 1]).intersect(&aabb));
}
