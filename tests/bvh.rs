use mesh::build_options::{BuildBvhOption, DepthControl, SplitMethod};
use mesh::bv::AABB;
use mesh::bvh::{Bvh, BvhNode, BvhNodeData};
use mesh::index_mesh::{index_primitives, IndexTriangle};
use mesh::traits::{Bounded, Point, Triangle};
use mesh::tree::{Node, Tree};

fn tri2(a: [i32; 2], b: [i32; 2], c: [i32; 2]) -> Triangle<2> {
    Triangle::new(a.to_vec(), b.to_vec(), c.to_vec())
}

fn tri3(a: [i32; 3], b: [i32; 3], c: [i32; 3]) -> Triangle<3> {
    Triangle::new(a.to_vec(), b.to_vec(), c.to_vec())
}

// Coordinates at ten times the scale of the fractional ones.
fn quadrants(order: [usize; 4]) -> Vec<(i32, Triangle<2>)> {
    let all = [
        (1, tri2([20, 10], [10, 20], [10, 10])),
        (2, tri2([-20, 10], [-10, 20], [-10, 10])),
        (3, tri2([-20, -10], [-10, -20], [-10, -10])),
        (4, tri2([20, -10], [10, -20], [10, -10])),
    ];
    order.iter().map(|&i| all[i].clone()).collect()
}

fn leaf_count<const D: usize, P>(bvh: &Bvh<D, P>) -> usize {
    bvh.tree
        .data
        .iter()
        .filter_map(|n| n.data.primitives.as_ref())
        .map(|v| v.len())
        .sum()
}

#[test]
fn test_from_node() {
    let node = Node::<BvhNodeData<3, usize>> {
        depth: 0,
        parent: 0,
        left: None,
        right: None,
        data: BvhNodeData::<3, usize> { bv: AABB::new(), primitives: Some(vec![0, 1, 2]) },
    };

    let bvh_node = BvhNode::from_node(&node);
    assert_eq!(bvh_node.parent, 0);
    assert_eq!(bvh_node.depth, 0);
    assert_eq!(bvh_node.left, None);
    assert_eq!(bvh_node.right, None);
    assert_eq!(bvh_node.bv.max, node.data.bv.max);
    assert_eq!(bvh_node.bv.min, node.data.bv.min);
    assert_eq!(bvh_node.primitives, Some(&[0, 1, 2][..]));
}

#[test]
fn tests_test_split_triangles_mid() {
    let mut aabb = AABB::<3>::new();
    let primitives = vec![
        (0, tri3([0, 1, 0], [0, 1, 1], [0, 0, 1])),
        (1, tri3([1, 1, 0], [1, 1, 1], [1, 0, 1])),
        (2, tri3([2, 1, 0], [2, 1, 1], [2, 0, 1])),
        (3, tri3([3, 1, 0], [3, 1, 1], [3, 0, 1])),
    ];
    for (_, g) in primitives.iter() {
        aabb.grow_from_aabb(&g.bv());
    }
    let (v1, v2) = Bvh::<3, (i32, Triangle<3>)>::split_triangles_mid(aabb, primitives, 0);
    assert_eq!(v1.len(), 2);
    assert_eq!(v2.len(), 2);
    // the midpoint is 1.5
    assert!(v1.iter().all(|(_, v)| v.a[0] * 2 < 3));
    assert!(v2.iter().all(|(_, v)| v.a[0] * 2 >= 3));

    // integer stand-ins for uniform draws: 500 triangles on the negative
    // side of every axis, 500 on the positive side
    for axis in 0..3 {
        let mut aabb = AABB::<3>::new();
        let mut primitives = vec![];
        for i in 0..1000 {
            let k = (i % 500) as i32;
            let low = |j: i32| -10 + (k * 7 + j * 3) % 10;
            let high = |j: i32| (k * 7 + j * 3) % 10;
            let p = if i < 500 {
                (i, tri3([low(0), low(1), low(2)], [low(3), low(4), low(5)], [low(6), low(7), low(8)]))
            } else {
                (i, tri3([high(0), high(1), high(2)], [high(3), high(4), high(5)], [high(6), high(7), high(8)]))
            };
            aabb.grow_from_aabb(&p.1.bv());
            primitives.push(p);
        }
        let (v1, v2) = Bvh::<3, (i32, Triangle<3>)>::split_triangles_mid(aabb, primitives, axis);
        assert_eq!(v1.len(), 500);
        assert_eq!(v2.len(), 500);
    }
}

#[test]
fn tests_test_split_triangles_average() {
    for axis in 0..3 {
        let mut primitives = vec![];
        for i in 0..1000i32 {
            let x = (i * 37) % 21 - 10;
            let y = (i * 53) % 21 - 10;
            let z = (i * 71) % 21 - 10;
            primitives.push(((), tri3([x, y, z], [y, z, x], [z, x, y])));
        }
        let (v1, v2) = Bvh::<3, ((), Triangle<3>)>::split_triangles_average(primitives, axis);
        assert_eq!(v1.len(), 500);
        assert_eq!(v2.len(), 500);
        let left_max = v1.iter().map(|p| p.center_at_axis(axis)).max().unwrap();
        let right_min = v2.iter().map(|p| p.center_at_axis(axis)).min().unwrap();
        assert!(left_max <= right_min);
    }
}

#[test]
fn tests_test_build_bvh() {
    let triangles = quadrants([0, 1, 3, 2]);
    let bvh = Bvh::<2, (i32, Triangle<2>)>::build(BuildBvhOption::default(), triangles.clone());
    assert_eq!(leaf_count(&bvh), 4);
    let bvh = Bvh::<2, (i32, Triangle<2>)>::build(
        BuildBvhOption { split_method: SplitMethod::Average, ..Default::default() },
        triangles.clone(),
    );
    assert_eq!(leaf_count(&bvh), 4);
}

#[test]
fn tests_test_intersect() {
    let triangles = quadrants([0, 1, 2, 3]);
    let bvh = Bvh::<2, (i32, Triangle<2>)>::build(BuildBvhOption::default(), triangles.clone());
    let res = bvh.intersect(Point::<2>::new(vec![0, 0]));
    assert!(res.is_empty());
    let res = bvh.intersect(Point::<2>::new(vec![11, 11]));
    assert_eq!(res.len(), 1);
    assert_eq!(res[0].0, 1);
}

#[test]
fn quadrant_tree_shape() {
    let bvh = Bvh::<2, (i32, Triangle<2>)>::build(BuildBvhOption::default(), quadrants([0, 1, 2, 3]));
    assert_eq!(bvh.tree.data.len(), 7);
    assert_eq!(bvh.max_depth(), 3);
    let root = bvh.get_root();
    assert!(root.is_node());
    assert_eq!(root.bv.min, vec![-20, -20]);
    assert_eq!(root.bv.max, vec![20, 20]);
    // first split along x: the left half holds the two quadrants with x < 0
    let left = bvh.get_node(1).unwrap();
    assert_eq!(left.bv.max[0], -10);
    assert!(bvh.get_node(7).is_none());
    for i in 3..7 {
        let n = bvh.get_node(i).unwrap();
        assert!(n.is_leaf());
        assert_eq!(n.primitives.unwrap().len(), 1);
    }
}

#[test]
fn build_over_nothing_gives_one_empty_leaf() {
    let bvh = Bvh::<2, (i32, Triangle<2>)>::build(BuildBvhOption::default(), vec![]);
    assert_eq!(bvh.tree.data.len(), 1);
    let root = bvh.get_root();
    assert!(root.is_leaf());
    assert_eq!(root.primitives.unwrap().len(), 0);
    assert_eq!(root.bv.min, vec![i64::MAX; 2]);
    assert!(bvh.intersect(Point::<2>::new(vec![0, 0])).is_empty());
}

#[test]
fn build_over_one_gives_one_leaf() {
    let bvh = Bvh::<2, (i32, Triangle<2>)>::build(BuildBvhOption::default(), quadrants([2, 0, 0, 0])[..1].to_vec());
    assert_eq!(bvh.tree.data.len(), 1);
    let root = bvh.get_root();
    assert!(root.is_leaf());
    assert_eq!(root.primitives.unwrap()[0].0, 3);
}

#[test]
fn max_depth_option_bounds_depth() {
    let mut prims = vec![];
    for i in 0..64 {
        prims.push((i, tri2([i * 3, 0], [i * 3 + 1, 1], [i * 3, 2])));
    }
    let option = BuildBvhOption { depth_control: DepthControl::MaxDepth(3), split_method: SplitMethod::Mid };
    let bvh = Bvh::<2, (i32, Triangle<2>)>::build(option, prims.clone());
    assert_eq!(bvh.max_depth(), 3);
    assert_eq!(leaf_count(&bvh), 64);
    let option = BuildBvhOption { depth_control: DepthControl::MinPrimitives(5), split_method: SplitMethod::Average };
    let bvh = Bvh::<2, (i32, Triangle<2>)>::build(option, prims);
    assert_eq!(leaf_count(&bvh), 64);
    for n in bvh.tree.data.iter() {
        if let Some(v) = &n.data.primitives {
            assert!(v.len() <= 5);
        }
    }
}

#[test]
fn coincident_centers_stop_a_mid_split() {
    let prims: Vec<(i32, Triangle<2>)> = (0..6).map(|i| (i, tri2([0, 0], [3, 0], [0, 3]))).collect();
    let option = BuildBvhOption { depth_control: DepthControl::MinPrimitives(2), split_method: SplitMethod::Mid };
    let bvh = Bvh::<2, (i32, Triangle<2>)>::build(option, prims.clone());
    assert_eq!(bvh.tree.data.len(), 1);
    assert_eq!(bvh.get_root().primitives.unwrap().len(), 6);
    let option = BuildBvhOption { depth_control: DepthControl::MinPrimitives(2), split_method: SplitMethod::Average };
    let bvh = Bvh::<2, (i32, Triangle<2>)>::build(option, prims);
    assert_eq!(leaf_count(&bvh), 6);
    assert!(bvh.tree.data.len() > 1);
}

#[test]
fn parents_cover_children() {
    let mut prims = vec![];
    for i in 0..40 {
        let x = (i * 17) % 50 - 25;
        let y = (i * 29) % 50 - 25;
        prims.push((i, tri2([x, y], [x + 3, y - 2], [x - 1, y + 4])));
    }
    let bvh = Bvh::<2, (i32, Triangle<2>)>::build(BuildBvhOption::default(), prims);
    let nodes = &bvh.tree.data;
    for c in 1..nodes.len() {
        let p = &nodes[nodes[c].parent].data.bv;
        let b = &nodes[c].data.bv;
        for i in 0..2 {
            assert!(p.min[i] <= b.min[i] && b.max[i] <= p.max[i]);
        }
    }
    assert_eq!(leaf_count(&bvh), 40);
}

#[test]
fn walks_over_a_hierarchy() {
    let bvh = Bvh::<2, (i32, Triangle<2>)>::build(BuildBvhOption::default(), quadrants([0, 1, 2, 3]));
    let mut it = bvh.iter_rand(2);
    let mut seen = vec![];
    while let Some((_, i)) = it.next() {
        seen.push(i);
    }
    assert_eq!(seen, vec![2, 3, 4, 5, 6]);
    let mut it = bvh.iter_dfs(0);
    let mut seen = vec![];
    while let Some((_, i)) = it.next() {
        seen.push(i);
    }
    assert_eq!(seen, vec![0, 1, 3, 4, 2, 5, 6]);
    let mut it = bvh.iter_bfs(0);
    let mut depths = vec![];
    while let Some((n, _)) = it.next() {
        depths.push(n.depth);
    }
    assert_eq!(depths, vec![1, 2, 2, 3, 3, 3, 3]);
}

#[test]
fn transform_keeps_shape() {
    let bvh = Bvh::<2, (i32, Triangle<2>)>::build(BuildBvhOption::default(), quadrants([0, 1, 2, 3]));
    let ids = bvh.transform_by(|(i, _)| i * 10);
    assert_eq!(ids.tree.data.len(), 7);
    assert_eq!(ids.max_depth(), 3);
    let mut leaves = vec![];
    for n in ids.tree.data.iter() {
        if let Some(v) = &n.data.primitives {
            leaves.extend(v.iter().copied());
        }
    }
    leaves.sort();
    assert_eq!(leaves, vec![10, 20, 30, 40]);
}

#[test]
fn intersect_by_keeps_first_match_per_leaf() {
    let prims = vec![(1, tri2([0, 0], [4, 0], [0, 4])), (2, tri2([0, 0], [5, 0], [0, 5]))];
    let option = BuildBvhOption { depth_control: DepthControl::MinPrimitives(4), split_method: SplitMethod::Mid };
    let bvh = Bvh::<2, (i32, Triangle<2>)>::build(option, prims);
    let res = bvh.intersect(Point::<2>::new(vec![1, 1]));
    assert_eq!(res.len(), 1);
    assert_eq!(res[0].0, 1);
    let res = bvh.intersect_by(2, |k: &i32, p: &(i32, Triangle<2>)| p.0 == *k, |_: &i32, _: &AABB<2>| true);
    assert_eq!(res.len(), 1);
    assert_eq!(res[0].0, 2);
    let res = bvh.intersect_by(2, |_: &i32, _: &(i32, Triangle<2>)| true, |_: &i32, _: &AABB<2>| false);
    assert!(res.is_empty());
}

#[test]
fn merge_grafts_two_trees() {
    let mut a = Tree::new_root(1);
    a.add_child(0, mesh::tree::ChildSide::Left, 2).unwrap();
    let b = Tree::new_root(3);
    let m = a.merge(b, 0);
    assert_eq!(m.data.len(), 4);
    assert_eq!(m.data[0].left, Some(1));
    assert_eq!(m.data[0].right, Some(3));
    assert_eq!(m.data[1].parent, 0);
    assert_eq!(m.data[2].parent, 1);
    assert_eq!(m.data[2].depth, 3);
    assert_eq!(m.data[3].parent, 0);
    assert_eq!(m.data[3].data, 3);
    assert_eq!(m.max_depth, 3);
}

#[test]
fn average_split_sorts_before_cutting() {
    let prims = vec![
        (0, tri2([9, 0], [9, 1], [9, 2])),
        (1, tri2([7, 0], [7, 1], [7, 2])),
        (2, tri2([1, 0], [1, 1], [1, 2])),
        (3, tri2([4, 0], [4, 1], [4, 2])),
        (4, tri2([2, 0], [2, 1], [2, 2])),
    ];
    let (left, right) = Bvh::<2, (i32, Triangle<2>)>::split_triangles_average(prims, 0);
    let mut l: Vec<i32> = left.iter().map(|p| p.0).collect();
    let mut r: Vec<i32> = right.iter().map(|p| p.0).collect();
    l.sort();
    r.sort();
    assert_eq!(l, vec![2, 4]);
    assert_eq!(r, vec![0, 1, 3]);
}

#[test]
fn index_primitives_checks_indices() {
    let vertices = vec![vec![0, 0, 0], vec![4, 0, 0], vec![0, 4, 0], vec![0, 0]];
    let tris = vec![IndexTriangle(0, 1, 2), IndexTriangle(2, 1, 0)];
    let prims = index_primitives(&vertices, &tris).unwrap();
    assert_eq!(prims.len(), 2);
    assert_eq!(prims[1].0, IndexTriangle(2, 1, 0));
    assert_eq!(prims[1].1.a, vec![0, 4, 0]);
    assert!(index_primitives(&vertices, &vec![IndexTriangle(0, 1, 4)]).is_none());
    assert!(index_primitives(&vertices, &vec![IndexTriangle(0, 1, 3)]).is_none());
    let bvh = Bvh::<3, (IndexTriangle, Triangle<3>)>::build(BuildBvhOption::default(), prims);
    let ids = bvh.transform_by(|(t, _)| t);
    assert_eq!(leaf_count(&ids), 2);
}

#[test]
fn zero_depth_bound_keeps_the_root_a_leaf() {
    let option = BuildBvhOption { depth_control: DepthControl::MaxDepth(0), split_method: SplitMethod::Mid };
    let bvh = Bvh::<2, (i32, Triangle<2>)>::build(option, quadrants([0, 1, 2, 3]));
    assert_eq!(bvh.tree.data.len(), 1);
    assert_eq!(bvh.max_depth(), 1);
    assert_eq!(bvh.get_root().primitives.unwrap().len(), 4);
}

#[test]
fn split_follows_the_longest_axis_of_the_centers() {
    // tall thin triangles side by side along x: the geometry is tallest in
    // y, but the centers spread along x only
    let prims: Vec<(i32, Triangle<2>)> =
        (0..4).map(|i| (i, tri2([i * 2, -50], [i * 2 + 1, 50], [i * 2, 0]))).collect();
    let bvh = Bvh::<2, (i32, Triangle<2>)>::build(BuildBvhOption::default(), prims);
    let left = bvh.get_node(1).unwrap();
    let right = bvh.get_node(2).unwrap();
    assert!(left.bv.max[0] < right.bv.min[0]);
}

#[test]
fn query_results_come_breadth_first() {
    let bvh = Bvh::<2, (i32, Triangle<2>)>::build(BuildBvhOption::default(), quadrants([0, 1, 2, 3]));
    let res = bvh.intersect_by((), |_: &(), _: &(i32, Triangle<2>)| true, |_: &(), _: &AABB<2>| true);
    let tags: Vec<i32> = res.iter().map(|p| p.0).collect();
    assert_eq!(tags, vec![3, 2, 4, 1]);
    let right_half = bvh.intersect_by(
        (),
        |_: &(), _: &(i32, Triangle<2>)| true,
        |_: &(), b: &AABB<2>| b.max[0] > 0,
    );
    let tags: Vec<i32> = right_half.iter().map(|p| p.0).collect();
    assert_eq!(tags, vec![4, 1]);
}
