use mesh::tree::{Bfs, ChildSide, Dfs, Node, PushOrder, Tree, TreeIterator};

#[test]
fn test_node_new() {
    let node = Node::new(1, 1, 1);
    assert_eq!(node.data, 1);
    assert_eq!(node.depth, 1);
    assert_eq!(node.parent, 1);
    assert_eq!(node.left, None);
    assert_eq!(node.right, None);
}

#[test]
fn test_node_index() {
    let node = Node::new(1, 1, 0);
    assert_eq!(node[ChildSide::Left], None);
    assert_eq!(node[ChildSide::Right], None);
}

#[test]
fn test_node_index_mut() {
    let mut node = Node::new(1, 0, 0);
    node[ChildSide::Left] = Some(2);
    node[ChildSide::Right] = Some(3);
    assert_eq!(node.left, Some(2));
    assert_eq!(node.right, Some(3));
}

#[test]
fn test_tree_new_root() {
    let tree = Tree::new_root(1.0);
    assert_eq!(tree.data[0].data, 1.0);
}

#[test]
fn test_tree_add_chlid() {
    let mut tree = Tree::new_root(1.0);
    let node1 = tree.add_child(0, ChildSide::Left, 1.0);
    let node2 = tree.add_child(0, ChildSide::Left, 2.0);
    let node3 = tree.add_child(0, ChildSide::Right, 3.0);
    let node4 = tree.add_child(node3.unwrap(), ChildSide::Left, 4.0);
    assert_eq!(node1, Ok(1));
    assert_eq!(node2, Err(()));
    assert_eq!(node3, Ok(2));
    assert_eq!(tree.data.len(), 4);
    assert_eq!(tree.data[0].left, Some(1));
    assert_eq!(tree.data[0].right, Some(2));
    assert_eq!(tree.data[1].parent, 0);
    assert_eq!(tree.data[2].parent, 0);
    assert_eq!(tree.data[1].data, 1.0);
    assert_eq!(tree.data[2].data, 3.0);
    assert_eq!(node4, Ok(3));
    assert_eq!(tree.data[3].parent, 2);
}

#[test]
fn test_tree_iter() {
    let mut tree = Tree::new_root(3);
    let node1 = tree.add_child(0, ChildSide::Left, 9);
    tree.add_child(0, ChildSide::Right, 20).unwrap();
    tree.add_child(node1.unwrap(), ChildSide::Left, 15).unwrap();
    tree.add_child(node1.unwrap(), ChildSide::Right, 7).unwrap();
    let iter = tree.iter::<Dfs>(0);
    assert_eq!(iter.stack, vec![0]);
}

fn construct_tree() -> Tree<f32> {
    let mut tree = Tree::new_root(3.0);
    let node1 = tree.add_child(0, ChildSide::Left, 9.0);
    tree.add_child(0, ChildSide::Right, 20.0).unwrap();
    tree.add_child(node1.unwrap(), ChildSide::Left, 15.0).unwrap();
    tree.add_child(node1.unwrap(), ChildSide::Right, 7.0).unwrap();
    tree
}

fn collect_data<IT: mesh::tree::IterType>(mut it: TreeIterator<f32, IT>) -> Vec<f32> {
    let mut out = vec![];
    while let Some((n, _)) = it.next() {
        out.push(n.data);
    }
    out
}

#[test]
fn test_tree_max_depth_test() {
    let tree = construct_tree();
    assert_eq!(tree.max_depth, 3);
}

#[test]
fn test_tree_pushorder_iter() {
    let tree = construct_tree();
    let vec = collect_data(tree.iter::<PushOrder>(0));
    assert_eq!(vec, vec![3.0, 9.0, 20.0, 15.0, 7.0]);
}

#[test]
fn test_tree_dfs_iter() {
    let tree = construct_tree();
    let vec = collect_data(tree.iter::<Dfs>(0));
    assert_eq!(vec, vec![3.0, 9.0, 15.0, 7.0, 20.0]);
}

#[test]
fn test_tree_bfs_iter() {
    let tree = construct_tree();
    let vec = collect_data(tree.iter::<Bfs>(0));
    assert_eq!(vec, vec![3.0, 9.0, 20.0, 15.0, 7.0]);
}

#[test]
fn visit_orders_by_index() {
    let tree = construct_tree();
    assert_eq!(tree.visit::<PushOrder>(1), vec![1, 2, 3, 4]);
    assert_eq!(tree.visit::<Dfs>(0), vec![0, 1, 3, 4, 2]);
    assert_eq!(tree.visit::<Bfs>(0), vec![0, 1, 2, 3, 4]);
    assert_eq!(tree.visit::<Dfs>(1), vec![1, 3, 4]);
    assert_eq!(tree.visit::<Bfs>(9), Vec::<usize>::new());
    assert_eq!(tree.visit::<PushOrder>(9), Vec::<usize>::new());
}

#[test]
fn get_node_out_of_range_is_none() {
    let tree = construct_tree();
    assert!(tree.get_node(5).is_none());
    assert_eq!(tree.get_node(4).unwrap().data, 7.0);
    assert_eq!(tree.len(), 5);
}

#[test]
fn add_child_on_empty_tree_makes_root() {
    let mut tree: Tree<u8> = Tree::new_empty();
    assert_eq!(tree.add_child(7, ChildSide::Right, 5), Ok(0));
    assert_eq!(tree.max_depth, 1);
    assert_eq!(tree.data[0].depth, 1);
    assert_eq!(tree.add_child(0, ChildSide::Right, 6), Ok(1));
    assert_eq!(tree.data[1].depth, 2);
    assert_eq!(tree.max_depth, 2);
}

#[test]
fn get_node_mut_writes_through() {
    let mut tree = construct_tree();
    tree.get_node_mut(2).unwrap().data = 21.0;
    assert_eq!(tree.data[2].data, 21.0);
    assert!(tree.get_node_mut(5).is_none());
}

#[test]
fn merge_with_empty_trees() {
    let a: Tree<u8> = Tree::new_empty();
    let b = Tree::new_root(4u8);
    let m = a.merge(b, 1);
    assert_eq!(m.data.len(), 2);
    assert_eq!(m.data[0].left, None);
    assert_eq!(m.data[0].right, Some(1));
    assert_eq!(m.data[1].parent, 0);
    assert_eq!(m.data[1].depth, 2);
    assert_eq!(m.max_depth, 2);
    let e: Tree<u8> = Tree::new_empty();
    let m = e.merge(Tree::new_empty(), 9);
    assert_eq!(m.data.len(), 1);
    assert_eq!(m.max_depth, 1);
    assert_eq!(m.visit::<Dfs>(0), vec![0]);
}
