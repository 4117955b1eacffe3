//! A binary tree kept in a flat arena: nodes refer to their parent and
//! children by index, indices are never reused.
use std::collections::VecDeque;
use std::marker::PhantomData;
use crate::bv::max_int;
use vstd::multiset::Multiset;
use vstd::prelude::*;

verus! {

/// Which child slot of a node.
#[derive(Clone, Copy, PartialEq, Eq, Structural, Debug)]
pub enum ChildSide {
    Left,
    Right,
}

/// One node of the arena: its payload, its depth (the root has depth 1),
/// the index of its parent and the indices of its children.
#[derive(Debug)]
pub struct Node<T> {
    pub data: T,
    pub depth: usize,
    pub parent: usize,
    pub left: Option<usize>,
    pub right: Option<usize>,
}

impl<T> Node<T> {
    /// The child slot on `side`.
    pub open spec fn child(&self, side: ChildSide) -> Option<usize> {
        match side {
            ChildSide::Left => self.left,
            ChildSide::Right => self.right,
        }
    }

    /// A node without children.
    pub fn new(data: T, depth: usize, parent: usize) -> (r: Self)
        ensures
            r.data == data,
            r.depth == depth,
            r.parent == parent,
            r.left.is_none(),
            r.right.is_none(),
    {
        Node { data, depth, parent, left: None, right: None }
    }

    /// The child index stored on `side`.
    pub fn get_child(&self, side: ChildSide) -> (r: Option<usize>)
        ensures
            r == self.child(side),
    {
        match side {
            ChildSide::Left => self.left,
            ChildSide::Right => self.right,
        }
    }

    /// Stores `child` on `side`, leaving everything else as it was.
    pub fn set_child(&mut self, side: ChildSide, child: Option<usize>)
        ensures
            final(self).child(side) == child,
            final(self).data == old(self).data,
            final(self).depth == old(self).depth,
            final(self).parent == old(self).parent,
            side == ChildSide::Left ==> final(self).right == old(self).right,
            side == ChildSide::Right ==> final(self).left == old(self).left,
    {
        match side {
            ChildSide::Left => {
                self.left = child;
            },
            ChildSide::Right => {
                self.right = child;
            },
        }
    }
}

impl<T> std::ops::Index<ChildSide> for Node<T> {
    type Output = Option<usize>;

    fn index(&self, index: ChildSide) -> (r: &Option<usize>)
        ensures
            *r == self.child(index),
    {
        match index {
            ChildSide::Left => &self.left,
            ChildSide::Right => &self.right,
        }
    }
}

impl<T> std::ops::IndexMut<ChildSide> for Node<T> {
    fn index_mut(&mut self, index: ChildSide) -> (r: &mut Option<usize>)
        ensures
            *r == old(self).child(index),
            final(self).child(index) == *final(r),
            final(self).data == old(self).data,
            final(self).depth == old(self).depth,
            final(self).parent == old(self).parent,
            index == ChildSide::Left ==> final(self).right == old(self).right,
            index == ChildSide::Right ==> final(self).left == old(self).left,
    {
        match index {
            ChildSide::Left => &mut self.left,
            ChildSide::Right => &mut self.right,
        }
    }
}

/// An arena tree. Node 0, when present, is the root; it names itself as its
/// parent.
#[derive(Debug)]
pub struct Tree<T> {
    pub data: Vec<Node<T>>,
    pub max_depth: usize,
}

/// Whether node `c` of `n` is a well-placed child of node `i`.
pub open spec fn child_ok<T>(n: Seq<Node<T>>, i: int, c: Option<usize>) -> bool {
    match c {
        Some(c) => i < c < n.len() && n[c as int].parent == i,
        None => true,
    }
}

/// Node `i` hangs below a parent of smaller index, on one of the parent's
/// slots, one level deeper.
pub open spec fn up_ok<T>(n: Seq<Node<T>>, i: int) -> bool {
    let p = n[i].parent as int;
    &&& p < i
    &&& n[i].depth == n[p].depth + 1
    &&& (n[p].left == Some(i as usize) || n[p].right == Some(i as usize))
}

/// The children of node `i` have larger indices and name `i` as parent, the
/// two slots differ, and the depth of `i` is in range.
pub open spec fn down_ok<T>(n: Seq<Node<T>>, i: int, max_depth: usize) -> bool {
    &&& child_ok(n, i, n[i].left)
    &&& child_ok(n, i, n[i].right)
    &&& (n[i].left.is_some() ==> n[i].left != n[i].right)
    &&& 1 <= n[i].depth <= i + 1
    &&& n[i].depth <= max_depth
}

/// The structural invariant of an arena: the root has depth 1 and names
/// itself as parent; every other node hangs below its parent; children are
/// well placed; `max_depth` is the largest depth.
pub open spec fn nodes_wf<T>(n: Seq<Node<T>>, max_depth: usize) -> bool {
    &&& n.len() == 0 ==> max_depth == 0
    &&& n.len() > 0 ==> n[0].depth == 1 && n[0].parent == 0
    &&& forall|i: int| 0 < i < n.len() ==> #[trigger] up_ok(n, i)
    &&& forall|i: int| 0 <= i < n.len() ==> #[trigger] down_ok(n, i, max_depth)
    &&& n.len() > 0 ==> exists|i: int| 0 <= i < n.len() && n[i].depth == max_depth
}

/// Hanging a new last node below `p` in a free slot keeps the arena
/// well-formed.
proof fn lemma_wf_after_add<T>(
    n: Seq<Node<T>>,
    m: Seq<Node<T>>,
    old_max: usize,
    new_max: usize,
    p: int,
)
    requires
        nodes_wf(n, old_max),
        0 <= p < n.len(),
        n.len() < usize::MAX,
        m.len() == n.len() + 1,
        forall|j: int| 0 <= j < n.len() && j != p ==> #[trigger] m[j] == n[j],
        m[p].data == n[p].data,
        m[p].depth == n[p].depth,
        m[p].parent == n[p].parent,
        (m[p].left == n[p].left && n[p].right.is_none() && m[p].right == Some(n.len() as usize))
            || (m[p].right == n[p].right && n[p].left.is_none() && m[p].left == Some(
            n.len() as usize,
        )),
        m[n.len() as int].parent == p,
        m[n.len() as int].depth == n[p].depth + 1,
        m[n.len() as int].left.is_none(),
        m[n.len() as int].right.is_none(),
        new_max == if m[n.len() as int].depth > old_max {
            m[n.len() as int].depth as usize
        } else {
            old_max
        },
    ensures
        nodes_wf(m, new_max),
{
    let k = n.len() as int;
    assert(up_ok(n, p) || p == 0);
    assert(down_ok(n, p, old_max));
    assert forall|i: int| 0 < i < m.len() implies #[trigger] up_ok(m, i) by {
        if i < k {
            assert(up_ok(n, i));
            let q = n[i].parent as int;
            if q != p {
                assert(m[q] == n[q]);
            }
            if i != p {
                assert(m[i] == n[i]);
            }
        }
    }
    assert forall|i: int| 0 <= i < m.len() implies #[trigger] down_ok(m, i, new_max) by {
        if i < k {
            assert(down_ok(n, i, old_max));
            let l = n[i].left;
            let r = n[i].right;
            if l.is_some() && l.unwrap() != p {
                assert(m[l.unwrap() as int] == n[l.unwrap() as int]);
            }
            if r.is_some() && r.unwrap() != p {
                assert(m[r.unwrap() as int] == n[r.unwrap() as int]);
            }
            if i != p {
                assert(m[i] == n[i]);
            } else {
                if m[p].left == n[p].left {
                    assert(m[p].right == Some(k as usize));
                } else {
                    assert(m[p].left == Some(k as usize));
                }
            }
        } else {
            assert(i == k);
        }
    }
    if m[k].depth > old_max {
        assert(m[k].depth == new_max);
    } else {
        let w = choose|w: int| 0 <= w < n.len() && #[trigger] n[w].depth == old_max;
        if w != p {
            assert(m[w] == n[w]);
        }
        assert(m[w].depth == new_max);
    }
}

impl<T> Tree<T> {
    /// The structural invariant of the arena.
    pub open spec fn wf(&self) -> bool {
        nodes_wf(self.data@, self.max_depth)
    }

    /// A tree without nodes.
    pub fn new_empty() -> (r: Self)
        ensures
            r.wf(),
            r.data@.len() == 0,
            r.max_depth == 0,
    {
        Tree { data: Vec::new(), max_depth: 0 }
    }

    /// A tree holding only a root.
    pub fn new_root(data: T) -> (r: Self)
        ensures
            r.wf(),
            r.data@.len() == 1,
            r.max_depth == 1,
            r.data@[0].data == data,
            r.data@[0].depth == 1,
            r.data@[0].parent == 0,
            r.data@[0].left.is_none(),
            r.data@[0].right.is_none(),
    {
        let mut v = Vec::new();
        v.push(Node::new(data, 1, 0));
        let r = Tree { data: v, max_depth: 1 };
        assert(r.data@[0].depth == 1);
        r
    }

    /// The node at `index`, if there is one.
    pub fn get_node(&self, index: usize) -> (r: Option<&Node<T>>)
        ensures
            index < self.data@.len() ==> r == Some(&self.data@[index as int]),
            index >= self.data@.len() ==> r.is_none(),
    {
        if index < self.data.len() {
            Some(&self.data[index])
        } else {
            None
        }
    }

    /// Sets the `side` slot of node `i`, leaving every other node and field
    /// as it was.
    fn set_child_of(&mut self, i: usize, side: ChildSide, child: Option<usize>)
        requires
            i < old(self).data@.len(),
        ensures
            final(self).max_depth == old(self).max_depth,
            final(self).data@.len() == old(self).data@.len(),
            forall|j: int|
                0 <= j < old(self).data@.len() && j != i ==> #[trigger] final(self).data@[j]
                    == old(self).data@[j],
            final(self).data@[i as int].child(side) == child,
            final(self).data@[i as int].data == old(self).data@[i as int].data,
            final(self).data@[i as int].depth == old(self).data@[i as int].depth,
            final(self).data@[i as int].parent == old(self).data@[i as int].parent,
            side == ChildSide::Left ==> final(self).data@[i as int].right == old(
                self,
            ).data@[i as int].right,
            side == ChildSide::Right ==> final(self).data@[i as int].left == old(
                self,
            ).data@[i as int].left,
    {
        let ghost n = self.data@;
        let mut node = self.data.remove(i);
        node.set_child(side, child);
        self.data.insert(i, node);
        assert forall|j: int| 0 <= j < n.len() && j != i implies #[trigger] self.data@[j] == n[j] by {
            if j < i {
            } else {
            }
        }
    }

    /// The node at `index` for writing, if there is one. Writing through it
    /// may break the tree's invariant; the caller keeps it.
    pub fn get_node_mut(&mut self, index: usize) -> (r: Option<&mut Node<T>>)
        ensures
            index < old(self).data@.len() ==> {
                &&& r.is_some()
                &&& *r.unwrap() == old(self).data@[index as int]
                &&& final(self).data@ == old(self).data@.update(index as int, *final(r.unwrap()))
                &&& final(self).max_depth == old(self).max_depth
            },
            index >= old(self).data@.len() ==> r.is_none() && final(self).data@ == old(self).data@
                && final(self).max_depth == old(self).max_depth,
    {
        if index < self.data.len() {
            Some(&mut self.data[index])
        } else {
            None
        }
    }

    /// Adds `data` as the `side` child of `parent_index`. On an empty tree
    /// the node becomes the root and `parent_index` and `side` are ignored.
    /// An occupied slot is an error and leaves the tree unchanged.
    pub fn add_child(&mut self, parent_index: usize, side: ChildSide, data: T) -> (r: Result<
        usize,
        (),
    >)
        requires
            old(self).wf(),
            old(self).data@.len() < usize::MAX,
            old(self).data@.len() > 0 ==> parent_index < old(self).data@.len(),
        ensures
            final(self).wf(),
            old(self).data@.len() == 0 ==> {
                &&& r == Ok::<usize, ()>(0)
                &&& final(self).data@.len() == 1
                &&& final(self).data@[0].data == data
                &&& final(self).max_depth == 1
            },
            old(self).data@.len() > 0 && old(self).data@[parent_index as int].child(side).is_some()
                ==> {
                &&& r == Err::<usize, ()>(())
                &&& final(self).data@ == old(self).data@
                &&& final(self).max_depth == old(self).max_depth
            },
            old(self).data@.len() > 0 && old(self).data@[parent_index as int].child(side).is_none()
                ==> {
                let n = old(self).data@;
                let m = final(self).data@;
                let k = n.len() as int;
                &&& r == Ok::<usize, ()>(k as usize)
                &&& m.len() == k + 1
                &&& m[k].data == data
                &&& m[k].parent == parent_index
                &&& m[k].depth == n[parent_index as int].depth + 1
                &&& m[k].left.is_none() && m[k].right.is_none()
                &&& m[parent_index as int].child(side) == Some(k as usize)
                &&& final(self).max_depth == if m[k].depth > old(self).max_depth {
                    m[k].depth as usize
                } else {
                    old(self).max_depth
                }
                &&& forall|j: int| 0 <= j < k ==> #[trigger] m[j].data == n[j].data
                &&& forall|j: int| 0 <= j < k ==> #[trigger] m[j].depth == n[j].depth
                &&& forall|j: int| 0 <= j < k ==> #[trigger] m[j].parent == n[j].parent
                &&& forall|j: int|
                    0 <= j < k && j != parent_index ==> #[trigger] m[j].left == n[j].left
                        && m[j].right == n[j].right
                &&& side == ChildSide::Left ==> m[parent_index as int].right
                    == n[parent_index as int].right
                &&& side == ChildSide::Right ==> m[parent_index as int].left
                    == n[parent_index as int].left
            },
    {
        let index = self.data.len();
        if index == 0 {
            self.data.push(Node::new(data, 1, 0));
            self.max_depth = 1;
            assert(self.data@[0].depth == 1);
            return Ok(index);
        }
        if self.data[parent_index].get_child(side).is_some() {
            return Err(());
        }
        let ghost n = self.data@;
        assert(down_ok(n, parent_index as int, self.max_depth));
        let depth = self.data[parent_index].depth + 1;
        let old_max = self.max_depth;
        if depth > self.max_depth {
            self.max_depth = depth;
        }
        self.set_child_of(parent_index, side, Some(index));
        self.data.push(Node::new(data, depth, parent_index));
        proof {
            lemma_wf_after_add(n, self.data@, old_max, self.max_depth, parent_index as int);
        }
        Ok(index)
    }

    /// The number of nodes.
    pub fn len(&self) -> (r: usize)
        ensures
            r == self.data@.len(),
    {
        self.data.len()
    }
}

/// The nodes of the subtree under `i`, in pre-order: a node, then its
/// left subtree, then its right subtree.
pub open spec fn preorder<T>(n: Seq<Node<T>>, i: int) -> Seq<usize>
    decreases n.len() - i,
{
    if 0 <= i < n.len() {
        let l = n[i].left;
        let r = n[i].right;
        let ls = if l.is_some() && i < l.unwrap() < n.len() {
            preorder(n, l.unwrap() as int)
        } else {
            Seq::empty()
        };
        let rs = if r.is_some() && i < r.unwrap() < n.len() {
            preorder(n, r.unwrap() as int)
        } else {
            Seq::empty()
        };
        seq![i as usize] + ls + rs
    } else {
        Seq::empty()
    }
}

/// The subtree of a child slot, empty where the slot is.
pub open spec fn slot_preorder<T>(n: Seq<Node<T>>, c: Option<usize>) -> Seq<usize> {
    match c {
        Some(c) => preorder(n, c as int),
        None => Seq::empty(),
    }
}

/// What a depth-first walk whose stack is `s` (top last) has still to visit.
pub open spec fn stack_rest<T>(n: Seq<Node<T>>, s: Seq<usize>) -> Seq<usize>
    decreases s.len(),
{
    if s.len() == 0 {
        Seq::empty()
    } else {
        preorder(n, s.last() as int) + stack_rest(n, s.drop_last())
    }
}

/// How many nodes lie in the subtrees of the entries of `q`.
pub open spec fn queue_size<T>(n: Seq<Node<T>>, q: Seq<usize>) -> nat
    decreases q.len(),
{
    if q.len() == 0 {
        0
    } else {
        queue_size(n, q.drop_last()) + preorder(n, q.last() as int).len()
    }
}

/// The size of a queue is the size of its front entry's subtree plus the
/// size of the rest.
pub proof fn lemma_queue_size_front<T>(n: Seq<Node<T>>, q: Seq<usize>)
    requires
        q.len() > 0,
    ensures
        queue_size(n, q) == preorder(n, q[0] as int).len() + queue_size(n, q.drop_first()),
    decreases q.len(),
{
    if q.len() > 1 {
        lemma_queue_size_front(n, q.drop_last());
        assert(q.drop_last().drop_first() == q.drop_first().drop_last());
        assert(q.drop_last()[0] == q[0]);
        assert(q.drop_first().last() == q.last());
        assert(queue_size(n, q.drop_first()) == queue_size(n, q.drop_first().drop_last())
            + preorder(n, q.drop_first().last() as int).len());
    } else {
        assert(q.drop_first().len() == 0);
        assert(q.drop_last().len() == 0);
        assert(queue_size(n, q.drop_first()) == 0);
        assert(queue_size(n, q.drop_last()) == 0);
        assert(q.last() == q[0]);
        assert(queue_size(n, q) == preorder(n, q[0] as int).len());
    }
}

/// A depth-first walk visits a node, then the whole subtree of its left
/// child, then the whole subtree of its right child: in a well-formed arena
/// the pre-order of `i` is `i` followed by the pre-orders of its two slots.
pub proof fn lemma_preorder_unfold<T>(n: Seq<Node<T>>, max_depth: usize, i: int)
    requires
        nodes_wf(n, max_depth),
        0 <= i < n.len(),
    ensures
        preorder(n, i) == seq![i as usize] + slot_preorder(n, n[i].left) + slot_preorder(
            n,
            n[i].right,
        ),
{
    assert(down_ok(n, i, max_depth));
}

/// The traversal orders of the arena.
#[derive(Clone, Copy, PartialEq, Eq, Structural, Debug)]
pub enum Order {
    /// By increasing index, from the start index to the end of the arena.
    PushOrder,
    /// Depth first, pre-order, left before right.
    Dfs,
    /// Breadth first, left before right within a level.
    Bfs,
}

/// A marker type that selects a traversal order.
pub trait IterType {
    spec fn order_spec() -> Order;

    fn order() -> (r: Order)
        ensures
            r == Self::order_spec(),
    ;
}

/// Visits nodes by increasing index.
pub struct PushOrder;

/// Visits nodes depth first.
pub struct Dfs;

/// Visits nodes breadth first.
pub struct Bfs;

impl IterType for PushOrder {
    open spec fn order_spec() -> Order {
        Order::PushOrder
    }

    fn order() -> (r: Order) {
        Order::PushOrder
    }
}

impl IterType for Dfs {
    open spec fn order_spec() -> Order {
        Order::Dfs
    }

    fn order() -> (r: Order) {
        Order::Dfs
    }
}

impl IterType for Bfs {
    open spec fn order_spec() -> Order {
        Order::Bfs
    }

    fn order() -> (r: Order) {
        Order::Bfs
    }
}

/// A walk over a tree in the order that `IT` selects. `stack` holds the
/// next index for push order, the pending indices otherwise.
pub struct TreeIterator<'a, T, IT: IterType> {
    pub tree: &'a Tree<T>,
    pub stack: VecDeque<usize>,
    pub iter_type: PhantomData<IT>,
}

impl<'a, T, IT: IterType> TreeIterator<'a, T, IT> {
    /// The walk's invariant: the tree is well-formed; push order keeps one
    /// index; the other orders keep indices of nodes.
    pub open spec fn wf(&self) -> bool {
        &&& self.tree.wf()
        &&& IT::order_spec() == Order::PushOrder ==> self.stack@.len() == 1
        &&& IT::order_spec() != Order::PushOrder ==> forall|j: int|
            0 <= j < self.stack@.len() ==> #[trigger] self.stack@[j] < self.tree.data@.len()
    }

    /// The indices the walk has still to visit, in order, where that order
    /// is a sequence fixed in advance.
    pub open spec fn rest(&self) -> Seq<usize> {
        if IT::order_spec() == Order::PushOrder {
            let k = self.stack@[0] as int;
            let len = self.tree.data@.len() as int;
            Seq::new((if k < len { len - k } else { 0 }) as nat, |j: int| (k + j) as usize)
        } else {
            stack_rest(self.tree.data@, self.stack@)
        }
    }

    /// How many more nodes the walk yields.
    pub open spec fn remaining(&self) -> nat {
        if IT::order_spec() == Order::Bfs {
            queue_size(self.tree.data@, self.stack@)
        } else {
            self.rest().len()
        }
    }

    /// A walk from `root_index`. For depth- and breadth-first walks an index
    /// outside the tree gives a walk that yields nothing.
    pub fn new(tree: &'a Tree<T>, root_index: usize) -> (r: Self)
        requires
            tree.wf(),
        ensures
            r.wf(),
            r.tree == tree,
            IT::order_spec() == Order::PushOrder || root_index < tree.data@.len() ==> r.stack@
                == seq![root_index],
            IT::order_spec() != Order::PushOrder && root_index >= tree.data@.len() ==> r.stack@
                == Seq::<usize>::empty(),
    {
        let mut stack = VecDeque::new();
        let kind = IT::order();
        if root_index < tree.data.len() || kind == Order::PushOrder {
            stack.push_back(root_index);
        }
        TreeIterator { tree, stack, iter_type: PhantomData }
    }
    /// The next node of the walk and its index, or `None` once it is done.
    /// Depth-first and push-order walks yield exactly the sequence `rest`;
    /// a breadth-first walk takes the front of its queue and appends the
    /// node's children, left before right.
    pub fn next(&mut self) -> (r: Option<(&'a Node<T>, usize)>)
        requires
            old(self).wf(),
        ensures
            final(self).wf(),
            final(self).tree == old(self).tree,
            r.is_some() <==> old(self).remaining() > 0,
            r.is_none() ==> final(self).stack@ == old(self).stack@,
            r.is_some() ==> final(self).remaining() + 1 == old(self).remaining(),
            r.is_some() ==> r.unwrap().1 < old(self).tree.data@.len() && *r.unwrap().0
                == old(self).tree.data@[r.unwrap().1 as int],
            IT::order_spec() != Order::Bfs ==> {
                &&& r.is_some() ==> r.unwrap().1 == old(self).rest()[0]
                &&& r.is_some() ==> final(self).rest() == old(self).rest().drop_first()
            },
            IT::order_spec() == Order::Bfs ==> {
                let q = old(self).stack@;
                &&& r.is_some() ==> {
                    let i = q[0];
                    let node = old(self).tree.data@[i as int];
                    &&& r.unwrap().1 == i
                    &&& final(self).stack@ == q.drop_first() + (if node.left.is_some() {
                        seq![node.left.unwrap()]
                    } else {
                        Seq::empty()
                    }) + (if node.right.is_some() {
                        seq![node.right.unwrap()]
                    } else {
                        Seq::empty()
                    })
                }
            },
    {
        let tree: &'a Tree<T> = self.tree;
        let ghost n = tree.data@;
        match IT::order() {
            Order::PushOrder => {
                let index = self.stack[0];
                if index >= tree.data.len() {
                    return None;
                }
                self.stack.pop_back();
                self.stack.push_back(index + 1);
                assert(self.rest() =~= old(self).rest().drop_first());
                Some((&tree.data[index], index))
            },
            Order::Dfs => {
                if self.stack.len() == 0 {
                    return None;
                }
                let ghost s = self.stack@;
                let index = self.stack.pop_back().unwrap();
                proof {
                    lemma_preorder_unfold(n, tree.max_depth, index as int);
                    assert(down_ok(n, index as int, tree.max_depth));
                }
                let node = &tree.data[index];
                if let Some(r) = node.right {
                    self.stack.push_back(r);
                }
                if let Some(l) = node.left {
                    self.stack.push_back(l);
                }
                proof {
                    let s1 = s.drop_last();
                    let sr = if node.right.is_some() {
                        s1.push(node.right.unwrap())
                    } else {
                        s1
                    };
                    if node.right.is_some() {
                        assert(sr.drop_last() =~= s1);
                    }
                    assert(stack_rest(n, sr) =~= slot_preorder(n, node.right) + stack_rest(n, s1));
                    if node.left.is_some() {
                        assert(self.stack@.drop_last() =~= sr);
                    } else {
                        assert(self.stack@ =~= sr);
                    }
                    assert(stack_rest(n, self.stack@) =~= slot_preorder(n, node.left)
                        + stack_rest(n, sr));
                    assert(self.rest() =~= old(self).rest().drop_first());
                }
                Some((node, index))
            },
            Order::Bfs => {
                if self.stack.len() == 0 {
                    return None;
                }
                let ghost q = self.stack@;
                proof {
                    lemma_queue_size_front(n, q);
                }
                let index = self.stack.pop_front().unwrap();
                proof {
                    lemma_preorder_unfold(n, tree.max_depth, index as int);
                    assert(down_ok(n, index as int, tree.max_depth));
                }
                let node = &tree.data[index];
                let ghost q1 = self.stack@;
                if let Some(l) = node.left {
                    self.stack.push_back(l);
                    assert(self.stack@.drop_last() =~= q1);
                    assert(queue_size(n, self.stack@) == queue_size(n, q1) + slot_preorder(
                        n,
                        node.left,
                    ).len());
                }
                let ghost q2 = self.stack@;
                if let Some(r) = node.right {
                    self.stack.push_back(r);
                    assert(self.stack@.drop_last() =~= q2);
                    assert(queue_size(n, self.stack@) == queue_size(n, q2) + slot_preorder(
                        n,
                        node.right,
                    ).len());
                }
                proof {
                    assert(self.stack@ =~= q.drop_first() + (if node.left.is_some() {
                        seq![node.left.unwrap()]
                    } else {
                        Seq::empty()
                    }) + (if node.right.is_some() {
                        seq![node.right.unwrap()]
                    } else {
                        Seq::empty()
                    }));
                }
                Some((node, index))
            },
        }
    }
}

impl<T> Tree<T> {
    /// A walk over the tree from `root`, in the order `IT` selects.
    pub fn iter<'a, IT: IterType>(&'a self, root: usize) -> (r: TreeIterator<'a, T, IT>)
        requires
            self.wf(),
        ensures
            r.wf(),
            r.tree == self,
            IT::order_spec() == Order::PushOrder || root < self.data@.len() ==> r.stack@ == seq![
                root,
            ],
            IT::order_spec() != Order::PushOrder && root >= self.data@.len() ==> r.stack@
                == Seq::<usize>::empty(),
    {
        TreeIterator::new(self, root)
    }
}

/// The nodes of the subtrees of the entries of `q`, with multiplicity.
pub open spec fn queue_nodes<T>(n: Seq<Node<T>>, q: Seq<usize>) -> Multiset<usize>
    decreases q.len(),
{
    if q.len() == 0 {
        Multiset::empty()
    } else {
        queue_nodes(n, q.drop_last()).add(preorder(n, q.last() as int).to_multiset())
    }
}

proof fn lemma_queue_nodes_front<T>(n: Seq<Node<T>>, q: Seq<usize>)
    requires
        q.len() > 0,
    ensures
        queue_nodes(n, q) == preorder(n, q[0] as int).to_multiset().add(
            queue_nodes(n, q.drop_first()),
        ),
    decreases q.len(),
{
    broadcast use vstd::multiset::group_multiset_axioms;

    if q.len() > 1 {
        lemma_queue_nodes_front(n, q.drop_last());
        assert(q.drop_last().drop_first() == q.drop_first().drop_last());
        assert(q.drop_last()[0] == q[0]);
        assert(q.drop_first().last() == q.last());
        assert(queue_nodes(n, q.drop_first()) == queue_nodes(n, q.drop_first().drop_last()).add(
            preorder(n, q.drop_first().last() as int).to_multiset(),
        ));
        assert(queue_nodes(n, q) =~= preorder(n, q[0] as int).to_multiset().add(
            queue_nodes(n, q.drop_first()),
        ));
    } else {
        assert(q.drop_first().len() == 0);
        assert(q.drop_last().len() == 0);
        assert(q.last() == q[0]);
        assert(queue_nodes(n, q.drop_last()) == Multiset::<usize>::empty());
        assert(queue_nodes(n, q.drop_first()) == Multiset::<usize>::empty());
        assert(queue_nodes(n, q) =~= preorder(n, q[0] as int).to_multiset().add(
            queue_nodes(n, q.drop_first()),
        ));
    }
}

/// One breadth-first step trades the front entry for its children and
/// gives out the front node.
proof fn lemma_bfs_step_nodes<T>(n: Seq<Node<T>>, max_depth: usize, q: Seq<usize>, q2: Seq<usize>)
    requires
        nodes_wf(n, max_depth),
        n.len() <= usize::MAX,
        q.len() > 0,
        q[0] < n.len(),
        q2 == q.drop_first() + (if n[q[0] as int].left.is_some() {
            seq![n[q[0] as int].left.unwrap()]
        } else {
            Seq::empty()
        }) + (if n[q[0] as int].right.is_some() {
            seq![n[q[0] as int].right.unwrap()]
        } else {
            Seq::empty()
        }),
    ensures
        queue_nodes(n, q) == queue_nodes(n, q2).insert(q[0]),
{
    broadcast use vstd::multiset::group_multiset_axioms;
    broadcast use vstd::seq_lib::group_to_multiset_ensures;

    let i = q[0] as int;
    let node = n[i];
    lemma_queue_nodes_front(n, q);
    lemma_preorder_unfold(n, max_depth, i);
    let l = slot_preorder(n, node.left);
    let r = slot_preorder(n, node.right);
    let head = seq![i as usize];
    vstd::seq_lib::lemma_multiset_commutative(head + l, r);
    vstd::seq_lib::lemma_multiset_commutative(head, l);
    assert(head =~= Seq::<usize>::empty().push(i as usize));
    vstd::seq_lib::to_multiset_len(Seq::<usize>::empty());
    vstd::multiset::lemma_multiset_empty_len(Seq::<usize>::empty().to_multiset());
    let q1 = q.drop_first();
    let ql = q1 + (if node.left.is_some() {
        seq![node.left.unwrap()]
    } else {
        Seq::empty()
    });
    if node.left.is_some() {
        assert(ql.drop_last() =~= q1);
        assert(ql.last() == node.left.unwrap());
    } else {
        assert(ql =~= q1);
        vstd::seq_lib::to_multiset_len(l);
        vstd::multiset::lemma_multiset_empty_len(l.to_multiset());
    }
    assert(queue_nodes(n, ql) == queue_nodes(n, q1).add(l.to_multiset()));
    if node.right.is_some() {
        assert(q2.drop_last() =~= ql);
        assert(q2.last() == node.right.unwrap());
    } else {
        assert(q2 =~= ql);
        vstd::seq_lib::to_multiset_len(r);
        vstd::multiset::lemma_multiset_empty_len(r.to_multiset());
    }
    assert(queue_nodes(n, q2) == queue_nodes(n, ql).add(r.to_multiset()));
    assert(queue_nodes(n, q) =~= queue_nodes(n, q2).insert(q[0]));
}

/// Growing a queue by one entry adds that entry's subtree to its size.
pub proof fn lemma_queue_size_push<T>(n: Seq<Node<T>>, q: Seq<usize>, x: usize)
    ensures
        queue_size(n, q.push(x)) == queue_size(n, q) + preorder(n, x as int).len(),
{
    assert(q.push(x).drop_last() =~= q);
}

/// The children of node `i` that pass `keep`, left before right.
pub open spec fn kept_children<T>(n: Seq<Node<T>>, keep: spec_fn(int) -> bool, i: int) -> Seq<
    usize,
> {
    let l = n[i].left;
    let r = n[i].right;
    (if l.is_some() && i < l.unwrap() < n.len() && keep(l.unwrap() as int) {
        seq![l.unwrap()]
    } else {
        Seq::empty()
    }) + (if r.is_some() && i < r.unwrap() < n.len() && keep(r.unwrap() as int) {
        seq![r.unwrap()]
    } else {
        Seq::empty()
    })
}

/// Every node passes.
pub open spec fn keep_all() -> spec_fn(int) -> bool {
    |c: int| true
}

/// A breadth-first step from a node of the arena shrinks the work left.
pub proof fn lemma_bfs_measure<T>(n: Seq<Node<T>>, keep: spec_fn(int) -> bool, q: Seq<usize>)
    requires
        q.len() > 0,
        q[0] < n.len(),
    ensures
        queue_size(n, q.drop_first() + kept_children(n, keep, q[0] as int)) < queue_size(n, q),
{
    let i = q[0] as int;
    let d = q.drop_first();
    lemma_queue_size_front(n, q);
    let l = n[i].left;
    let r = n[i].right;
    let lk = if l.is_some() && i < l.unwrap() < n.len() && keep(l.unwrap() as int) {
        seq![l.unwrap()]
    } else {
        Seq::<usize>::empty()
    };
    let rk = if r.is_some() && i < r.unwrap() < n.len() && keep(r.unwrap() as int) {
        seq![r.unwrap()]
    } else {
        Seq::<usize>::empty()
    };
    if lk.len() > 0 {
        assert(d + lk =~= d.push(l.unwrap()));
        lemma_queue_size_push(n, d, l.unwrap());
    } else {
        assert(d + lk =~= d);
    }
    if rk.len() > 0 {
        assert(d + lk + rk =~= (d + lk).push(r.unwrap()));
        lemma_queue_size_push(n, d + lk, r.unwrap());
    } else {
        assert(d + lk + rk =~= d + lk);
    }
    assert(d + kept_children(n, keep, i) =~= d + lk + rk);
}

/// The nodes a breadth-first walk visits from the queue `q`, in order: it
/// takes the front node, then appends that node's children that pass
/// `keep`, left before right. Entries outside the arena are dropped.
pub open spec fn bfs_walk<T>(n: Seq<Node<T>>, keep: spec_fn(int) -> bool, q: Seq<usize>) -> Seq<
    usize,
>
    decreases queue_size(n, q), q.len(),
{
    if q.len() == 0 {
        Seq::empty()
    } else if q[0] >= n.len() {
        proof {
            lemma_queue_size_front(n, q);
        }
        bfs_walk(n, keep, q.drop_first())
    } else {
        proof {
            lemma_bfs_measure(n, keep, q);
        }
        seq![q[0]] + bfs_walk(n, keep, q.drop_first() + kept_children(n, keep, q[0] as int))
    }
}

/// In a well-formed arena, the children a walk appends are the node's
/// children that pass `keep`.
pub proof fn lemma_kept_children<T>(
    n: Seq<Node<T>>,
    max_depth: usize,
    keep: spec_fn(int) -> bool,
    i: int,
)
    requires
        nodes_wf(n, max_depth),
        0 <= i < n.len(),
    ensures
        kept_children(n, keep, i) == (if n[i].left.is_some() && keep(n[i].left.unwrap() as int) {
            seq![n[i].left.unwrap()]
        } else {
            Seq::empty()
        }) + (if n[i].right.is_some() && keep(n[i].right.unwrap() as int) {
            seq![n[i].right.unwrap()]
        } else {
            Seq::empty()
        }),
{
    assert(down_ok(n, i, max_depth));
}

/// A breadth-first walk gives out its front node, then goes on with the
/// rest of the queue followed by that node's left child and then its right
/// child (those that pass `keep`).
pub proof fn lemma_bfs_walk_step<T>(
    n: Seq<Node<T>>,
    max_depth: usize,
    keep: spec_fn(int) -> bool,
    q: Seq<usize>,
)
    requires
        nodes_wf(n, max_depth),
        q.len() > 0,
        q[0] < n.len(),
    ensures
        bfs_walk(n, keep, q) == seq![q[0]] + bfs_walk(
            n,
            keep,
            q.drop_first() + (if n[q[0] as int].left.is_some() && keep(
                n[q[0] as int].left.unwrap() as int,
            ) {
                seq![n[q[0] as int].left.unwrap()]
            } else {
                Seq::empty()
            }) + (if n[q[0] as int].right.is_some() && keep(n[q[0] as int].right.unwrap() as int) {
                seq![n[q[0] as int].right.unwrap()]
            } else {
                Seq::empty()
            }),
        ),
{
    lemma_kept_children(n, max_depth, keep, q[0] as int);
    let l = if n[q[0] as int].left.is_some() && keep(n[q[0] as int].left.unwrap() as int) {
        seq![n[q[0] as int].left.unwrap()]
    } else {
        Seq::<usize>::empty()
    };
    let r = if n[q[0] as int].right.is_some() && keep(n[q[0] as int].right.unwrap() as int) {
        seq![n[q[0] as int].right.unwrap()]
    } else {
        Seq::<usize>::empty()
    };
    assert(q.drop_first() + (l + r) =~= q.drop_first() + l + r);
}

/// Whether the depths of the nodes named by `s` never decrease along `s`.
pub open spec fn depth_sorted<T>(n: Seq<Node<T>>, s: Seq<usize>) -> bool {
    forall|a: int, b: int|
        0 <= a < b < s.len() ==> #[trigger] n[s[a] as int].depth <= #[trigger] n[s[b] as int].depth
}

/// The indices from `from` to the end of an arena of `len` nodes.
pub open spec fn index_run(from: int, len: int) -> Seq<usize> {
    Seq::new((if from < len { len - from } else { 0 }) as nat, |j: int| (from + j) as usize)
}

impl<T> Tree<T> {
    /// The indices a walk from `from` visits, in visiting order. Push order
    /// gives `from`, `from + 1`, ... up to the last node; depth-first gives
    /// the pre-order of the subtree of `from`; breadth-first gives as many
    /// nodes, by levels that never go up.
    pub fn visit<IT: IterType>(&self, from: usize) -> (r: Vec<usize>)
        requires
            self.wf(),
        ensures
            forall|j: int| 0 <= j < r@.len() ==> #[trigger] r@[j] < self.data@.len(),
            IT::order_spec() == Order::PushOrder ==> r@ == index_run(
                from as int,
                self.data@.len() as int,
            ),
            IT::order_spec() == Order::Dfs ==> r@ == preorder(self.data@, from as int),
            IT::order_spec() == Order::Bfs ==> {
                &&& r@ == bfs_walk(self.data@, keep_all(), seq![from])
                &&& r@.to_multiset() == preorder(self.data@, from as int).to_multiset()
                &&& depth_sorted(self.data@, r@)
            },
    {
        let ghost n = self.data@;
        let mut it: TreeIterator<T, IT> = self.iter(from);
        let mut out: Vec<usize> = Vec::new();
        let ghost total = it.remaining();
        proof {
            if IT::order_spec() == Order::Dfs && from < n.len() {
                assert(it.stack@.drop_last() =~= Seq::<usize>::empty());
                assert(stack_rest(n, Seq::<usize>::empty()) =~= Seq::<usize>::empty());
                assert(stack_rest(n, it.stack@) =~= preorder(n, from as int));
            }
            vstd::seq_lib::to_multiset_len(out@);
            vstd::multiset::lemma_multiset_empty_len(out@.to_multiset());
            if IT::order_spec() == Order::Bfs && from < n.len() {
                assert(it.stack@.drop_last() =~= Seq::<usize>::empty());
                assert(queue_size(n, Seq::<usize>::empty()) == 0);
                assert(queue_nodes(n, Seq::<usize>::empty()) == Multiset::<usize>::empty());
                assert(out@.to_multiset().add(queue_nodes(n, it.stack@)) =~= preorder(
                    n,
                    from as int,
                ).to_multiset());
                assert(out@ + bfs_walk(n, keep_all(), it.stack@) =~= bfs_walk(
                    n,
                    keep_all(),
                    seq![from],
                ));
            }
            if IT::order_spec() == Order::Dfs && from >= n.len() {
                assert(preorder(n, from as int) =~= Seq::<usize>::empty());
            }
            if IT::order_spec() == Order::Bfs && from >= n.len() {
                assert(preorder(n, from as int) =~= Seq::<usize>::empty());
                vstd::seq_lib::to_multiset_len(preorder(n, from as int));
                vstd::multiset::lemma_multiset_empty_len(preorder(n, from as int).to_multiset());
                assert(queue_nodes(n, it.stack@) == Multiset::<usize>::empty());
                assert(out@.to_multiset().add(queue_nodes(n, it.stack@)) =~= preorder(
                    n,
                    from as int,
                ).to_multiset());
                assert(seq![from].drop_first() =~= Seq::<usize>::empty());
                assert(bfs_walk(n, keep_all(), seq![from]) == bfs_walk(
                    n,
                    keep_all(),
                    Seq::<usize>::empty(),
                ));
                assert(out@ + bfs_walk(n, keep_all(), it.stack@) =~= bfs_walk(
                    n,
                    keep_all(),
                    seq![from],
                ));
            }
        }
        let ghost start = it.rest();
        let count = self.len();
        loop
            invariant
                it.wf(),
                it.tree == self,
                n == self.data@,
                count == n.len(),
                out@.len() + it.remaining() == total,
                forall|j: int| 0 <= j < out@.len() ==> #[trigger] out@[j] < n.len(),
                IT::order_spec() != Order::Bfs ==> out@ + it.rest() == start,
                IT::order_spec() == Order::PushOrder ==> start == index_run(
                    from as int,
                    n.len() as int,
                ),
                IT::order_spec() == Order::Dfs ==> start == preorder(n, from as int),
                IT::order_spec() == Order::Bfs ==> {
                    let q = it.stack@;
                    &&& out@ + bfs_walk(n, keep_all(), q) == bfs_walk(n, keep_all(), seq![from])
                    &&& out@.to_multiset().add(queue_nodes(n, q)) == preorder(
                        n,
                        from as int,
                    ).to_multiset()
                    &&& depth_sorted(n, out@)
                    &&& depth_sorted(n, q)
                    &&& forall|a: int, b: int|
                        0 <= a < out@.len() && 0 <= b < q.len() ==> #[trigger] n[out@[a] as int].depth
                            <= #[trigger] n[q[b] as int].depth
                    &&& q.len() > 0 ==> n[q.last() as int].depth <= n[q[0] as int].depth + 1
                },
            ensures
                it.remaining() == 0,
            decreases it.remaining(),
        {
            let ghost q = it.stack@;
            let ghost before = out@;
            let ghost rest_before = it.rest();
            match it.next() {
                None => {
                    break;
                },
                Some((_, i)) => {
                    out.push(i);
                    proof {
                        if IT::order_spec() != Order::Bfs {
                            assert(out@ + it.rest() =~= before + rest_before);
                        } else {
                            let node = n[i as int];
                            assert(down_ok(n, i as int, self.max_depth));
                            if node.left.is_some() {
                                assert(up_ok(n, node.left.unwrap() as int));
                            }
                            if node.right.is_some() {
                                assert(up_ok(n, node.right.unwrap() as int));
                            }
                            let q2 = it.stack@;
                            lemma_bfs_step_nodes(n, self.max_depth, q, q2);
                            lemma_kept_children(n, self.max_depth, keep_all(), i as int);
                            assert(q2 == q.drop_first() + kept_children(n, keep_all(), i as int));
                            assert(bfs_walk(n, keep_all(), q) == seq![i] + bfs_walk(
                                n,
                                keep_all(),
                                q2,
                            ));
                            assert(out@ + bfs_walk(n, keep_all(), q2) =~= before + bfs_walk(
                                n,
                                keep_all(),
                                q,
                            ));
                            vstd::seq_lib::to_multiset_build(before, i);
                            assert(out@.to_multiset().add(queue_nodes(n, q2)) =~= before.to_multiset().add(
                                queue_nodes(n, q),
                            ));
                            assert forall|a: int, b: int|
                                0 <= a < b < q2.len() implies #[trigger] n[q2[a] as int].depth
                                <= #[trigger] n[q2[b] as int].depth by {
                                if b < q.len() - 1 {
                                    assert(q2[a] == q[a + 1]);
                                    assert(q2[b] == q[b + 1]);
                                } else if a < q.len() - 1 {
                                    assert(q2[a] == q[a + 1]);
                                    assert(n[q[a + 1] as int].depth <= n[q.last() as int].depth);
                                }
                            }
                            assert forall|a: int, b: int|
                                0 <= a < out@.len() && 0 <= b < q2.len() implies #[trigger] n[out@[a] as int].depth
                                <= #[trigger] n[q2[b] as int].depth by {
                                if a < before.len() {
                                    assert(out@[a] == before[a]);
                                    assert(n[before[a] as int].depth <= n[q[0] as int].depth);
                                }
                                if b < q.len() - 1 {
                                    assert(q2[b] == q[b + 1]);
                                    assert(n[q[0] as int].depth <= n[q[b + 1] as int].depth);
                                }
                            }
                            assert forall|a: int, b: int|
                                0 <= a < b < out@.len() implies #[trigger] n[out@[a] as int].depth
                                <= #[trigger] n[out@[b] as int].depth by {
                                if b < before.len() {
                                    assert(out@[a] == before[a]);
                                    assert(out@[b] == before[b]);
                                } else {
                                    assert(out@[a] == before[a]);
                                    assert(out@[b] == q[0]);
                                }
                            }
                            if q2.len() > 0 {
                                if q.len() > 1 {
                                    assert(q2[0] == q[1]);
                                    assert(n[q[0] as int].depth <= n[q[1] as int].depth);
                                }
                            }
                        }
                    }
                },
            }
        }
        proof {
            if IT::order_spec() != Order::Bfs {
                assert(it.rest().len() == 0);
                assert(out@ =~= start);
            } else {
                if it.stack@.len() > 0 {
                    lemma_queue_size_front(n, it.stack@);
                    assert(it.stack@[0] < n.len());
                    assert(preorder(n, it.stack@[0] as int).len() > 0);
                }
                assert(it.stack@ =~= Seq::<usize>::empty());
                assert(out@ + bfs_walk(n, keep_all(), it.stack@) =~= out@);
            }
        }
        out
    }
}

/// A child slot moved by `bias` places.
pub open spec fn shift(c: Option<usize>, bias: int) -> Option<usize> {
    match c {
        Some(c) => Some((c + bias) as usize),
        None => None,
    }
}

/// Node `j` of `src` as it lands at `bias + j` below a new root: one level
/// deeper, indices moved by `bias`, the old root hanging below node 0.
pub open spec fn grafted<T>(src: Node<T>, dst: Node<T>, j: int, bias: int) -> bool {
    &&& dst.data == src.data
    &&& dst.depth == src.depth + 1
    &&& dst.parent == if j == 0 {
        0
    } else {
        src.parent + bias
    }
    &&& dst.left == shift(src.left, bias)
    &&& dst.right == shift(src.right, bias)
}

/// Bounds that hold in every well-formed arena.
proof fn lemma_wf_bounds<T>(n: Seq<Node<T>>, max_depth: usize)
    requires
        nodes_wf(n, max_depth),
    ensures
        max_depth <= n.len(),
        forall|j: int| 0 <= j < n.len() ==> (#[trigger] n[j]).depth <= n.len(),
        forall|j: int| 0 <= j < n.len() ==> (#[trigger] n[j]).parent < n.len(),
        forall|j: int|
            0 <= j < n.len() ==> child_ok(n, j, (#[trigger] n[j]).left) && child_ok(
                n,
                j,
                n[j].right,
            ),
{
    assert forall|j: int| 0 <= j < n.len() implies {
        &&& (#[trigger] n[j]).depth <= n.len()
        &&& n[j].parent < n.len()
        &&& child_ok(n, j, n[j].left) && child_ok(n, j, n[j].right)
    } by {
        assert(down_ok(n, j, max_depth));
        if j > 0 {
            assert(up_ok(n, j));
        }
    }
    if n.len() > 0 {
        let w = choose|w: int| 0 <= w < n.len() && n[w].depth == max_depth;
        assert(down_ok(n, w, max_depth));
    }
}

/// The arena that `merge` makes is well-formed.
proof fn lemma_merge_wf<T>(
    sa: Seq<Node<T>>,
    mda: usize,
    sb: Seq<Node<T>>,
    mdb: usize,
    m: Seq<Node<T>>,
    md: usize,
)
    requires
        nodes_wf(sa, mda),
        nodes_wf(sb, mdb),
        sa.len() + sb.len() + 2 < usize::MAX,
        m.len() == 1 + sa.len() + sb.len(),
        m[0].depth == 1,
        m[0].parent == 0,
        m[0].left == if sa.len() > 0 {
            Some(1usize)
        } else {
            None
        },
        m[0].right == if sb.len() > 0 {
            Some((1 + sa.len()) as usize)
        } else {
            None
        },
        forall|j: int| 0 <= j < sa.len() ==> #[trigger] grafted(sa[j], m[1 + j], j, 1),
        forall|j: int|
            0 <= j < sb.len() ==> #[trigger] grafted(sb[j], m[1 + sa.len() + j], j, 1 + sa.len() as int),
        md == max_int(mda as int, mdb as int) + 1,
    ensures
        nodes_wf(m, md),
{
    let a = sa.len() as int;
    let b = sb.len() as int;
    lemma_wf_bounds(sa, mda);
    lemma_wf_bounds(sb, mdb);
    assert forall|i: int| 0 < i < m.len() implies #[trigger] up_ok(m, i) by {
        if i <= a {
            let j = i - 1;
            assert(grafted(sa[j], m[1 + j], j, 1));
            if j > 0 {
                assert(up_ok(sa, j));
                let p = sa[j].parent as int;
                assert(grafted(sa[p], m[1 + p], p, 1));
            } else {
                assert(down_ok(sa, 0, mda));
            }
        } else {
            let j = i - 1 - a;
            assert(grafted(sb[j], m[1 + a + j], j, 1 + a));
            if j > 0 {
                assert(up_ok(sb, j));
                let p = sb[j].parent as int;
                assert(grafted(sb[p], m[1 + a + p], p, 1 + a));
            } else {
                assert(down_ok(sb, 0, mdb));
            }
        }
    }
    assert forall|i: int| 0 <= i < m.len() implies #[trigger] down_ok(m, i, md) by {
        if i == 0 {
            let z: int = 0;
            if a > 0 {
                assert(grafted(sa[z], m[1 + z], z, 1));
            }
            if b > 0 {
                assert(grafted(sb[z], m[1 + a + z], z, 1 + a));
            }
        } else if i <= a {
            let j = i - 1;
            assert(grafted(sa[j], m[1 + j], j, 1));
            assert(down_ok(sa, j, mda));
            if sa[j].left.is_some() {
                let c = sa[j].left.unwrap() as int;
                assert(grafted(sa[c], m[1 + c], c, 1));
            }
            if sa[j].right.is_some() {
                let c = sa[j].right.unwrap() as int;
                assert(grafted(sa[c], m[1 + c], c, 1));
            }
        } else {
            let j = i - 1 - a;
            assert(grafted(sb[j], m[1 + a + j], j, 1 + a));
            assert(down_ok(sb, j, mdb));
            if sb[j].left.is_some() {
                let c = sb[j].left.unwrap() as int;
                assert(grafted(sb[c], m[1 + a + c], c, 1 + a));
            }
            if sb[j].right.is_some() {
                let c = sb[j].right.unwrap() as int;
                assert(grafted(sb[c], m[1 + a + c], c, 1 + a));
            }
        }
    }
    if mda >= mdb && a > 0 {
        let w = choose|w: int| 0 <= w < sa.len() && sa[w].depth == mda;
        assert(grafted(sa[w], m[1 + w], w, 1));
    } else if mdb >= mda && b > 0 {
        let w = choose|w: int| 0 <= w < sb.len() && sb[w].depth == mdb;
        assert(grafted(sb[w], m[1 + a + w], w, 1 + a));
    } else {
        if a > 0 {
            assert(down_ok(sa, 0, mda));
        }
        if b > 0 {
            assert(down_ok(sb, 0, mdb));
        }
    }
}

/// `v` read back to front.
pub(crate) fn reversed<A>(v: Vec<A>) -> (r: Vec<A>)
    ensures
        r@.len() == v@.len(),
        forall|j: int| 0 <= j < v@.len() ==> #[trigger] r@[j] == v@[v@.len() - 1 - j],
{
    let ghost orig = v@;
    let ghost n = orig.len();
    let mut v = v;
    let mut r: Vec<A> = Vec::new();
    while v.len() > 0
        invariant
            n == orig.len(),
            v@ == orig.take(v@.len() as int),
            v@.len() + r@.len() == n,
            forall|j: int| 0 <= j < r@.len() ==> #[trigger] r@[j] == orig[n - 1 - j],
        decreases v@.len(),
    {
        let x = v.pop().unwrap();
        r.push(x);
        proof {
            assert(v@ =~= orig.take(v@.len() as int));
        }
    }
    r
}

/// Appends the nodes of `src` to `dst`, grafted at offset `bias`.
fn graft<T>(dst: &mut Vec<Node<T>>, src: Vec<Node<T>>, bias: usize)
    requires
        bias == old(dst)@.len(),
        bias + src@.len() < usize::MAX,
        forall|j: int| 0 <= j < src@.len() ==> (#[trigger] src@[j]).depth < usize::MAX,
        forall|j: int| 0 <= j < src@.len() ==> (#[trigger] src@[j]).parent < src@.len(),
        forall|j: int|
            0 <= j < src@.len() ==> child_ok(src@, j, (#[trigger] src@[j]).left) && child_ok(
                src@,
                j,
                src@[j].right,
            ),
    ensures
        final(dst)@.len() == old(dst)@.len() + src@.len(),
        final(dst)@.subrange(0, bias as int) == old(dst)@,
        forall|j: int|
            0 <= j < src@.len() ==> grafted(
                src@[j],
                #[trigger] final(dst)@[bias + j],
                j,
                bias as int,
            ),
{
    let ghost orig = src@;
    let ghost n = orig.len();
    let ghost d0 = dst@;
    let mut rev = reversed(src);
    let mut j: usize = 0;
    while rev.len() > 0
        invariant
            n == orig.len(),
            bias + n < usize::MAX,
            j + rev@.len() == n,
            forall|k: int| 0 <= k < rev@.len() ==> #[trigger] rev@[k] == orig[n - 1 - k],
            forall|k: int| 0 <= k < n ==> (#[trigger] orig[k]).depth < usize::MAX,
            forall|k: int| 0 <= k < n ==> (#[trigger] orig[k]).parent < n,
            forall|k: int|
                0 <= k < n ==> child_ok(orig, k, (#[trigger] orig[k]).left) && child_ok(
                    orig,
                    k,
                    orig[k].right,
                ),
            dst@.len() == bias + j,
            dst@.subrange(0, bias as int) == d0,
            forall|k: int| 0 <= k < j ==> grafted(orig[k], #[trigger] dst@[bias + k], k, bias as int),
        decreases rev@.len(),
    {
        let node = rev.pop().unwrap();
        assert(node == orig[j as int]);
        let Node { data, depth, parent, left, right } = node;
        let new_left = match left {
            Some(c) => Some(c + bias),
            None => None,
        };
        let new_right = match right {
            Some(c) => Some(c + bias),
            None => None,
        };
        let new_parent = if j == 0 {
            0
        } else {
            parent + bias
        };
        let ghost d1 = dst@;
        dst.push(Node { data, depth: depth + 1, parent: new_parent, left: new_left, right: new_right });
        proof {
            assert(dst@.subrange(0, bias as int) =~= d1.subrange(0, bias as int));
            assert forall|k: int| 0 <= k < j + 1 implies grafted(
                orig[k],
                #[trigger] dst@[bias + k],
                k,
                bias as int,
            ) by {
                if k < j {
                    assert(dst@[bias + k] == d1[bias + k]);
                }
            }
        }
        j += 1;
    }
}

impl<T> Tree<T> {
    /// Hangs `self` and `other` below a new root holding `root`: `self`'s
    /// nodes move up one index and `other`'s follow them, every node one
    /// level deeper. The old roots become the left and right child of the
    /// new root (an empty tree leaves its slot empty).
    pub fn merge(self, other: Self, root: T) -> (r: Self)
        requires
            self.wf(),
            other.wf(),
            self.data@.len() + other.data@.len() + 2 < usize::MAX,
        ensures
            r.wf(),
            r.data@.len() == 1 + self.data@.len() + other.data@.len(),
            r.data@[0].data == root,
            r.data@[0].depth == 1,
            r.data@[0].parent == 0,
            r.data@[0].left == if self.data@.len() > 0 {
                Some(1usize)
            } else {
                None
            },
            r.data@[0].right == if other.data@.len() > 0 {
                Some((1 + self.data@.len()) as usize)
            } else {
                None
            },
            forall|j: int|
                0 <= j < self.data@.len() ==> grafted(
                    self.data@[j],
                    #[trigger] r.data@[1 + j],
                    j,
                    1,
                ),
            forall|j: int|
                0 <= j < other.data@.len() ==> grafted(
                    other.data@[j],
                    #[trigger] r.data@[1 + self.data@.len() + j],
                    j,
                    1 + self.data@.len() as int,
                ),
            r.max_depth == max_int(self.max_depth as int, other.max_depth as int) + 1,
    {
        let a = self.data.len();
        let b = other.data.len();
        let ghost sa = self.data@;
        let ghost sb = other.data@;
        proof {
            lemma_wf_bounds(sa, self.max_depth);
            lemma_wf_bounds(sb, other.max_depth);
        }
        let max_depth = if self.max_depth >= other.max_depth {
            self.max_depth
        } else {
            other.max_depth
        } + 1;
        let mut top = Node::new(root, 1, 0);
        if a > 0 {
            top.left = Some(1);
        }
        if b > 0 {
            top.right = Some(1 + a);
        }
        let mut vec: Vec<Node<T>> = Vec::new();
        vec.push(top);
        graft(&mut vec, self.data, 1);
        let ghost v1 = vec@;
        proof {
            assert(v1.subrange(0, 1)[0] == v1[0]);
        }
        graft(&mut vec, other.data, 1 + a);
        let ghost m = vec@;
        proof {
            assert(m.subrange(0, 1 + a as int)[0] == m[0]);
            assert forall|j: int| 0 <= j < a implies #[trigger] grafted(sa[j], m[1 + j], j, 1) by {
                assert(grafted(sa[j], v1[1 + j], j, 1));
                assert(m.subrange(0, 1 + a as int)[1 + j] == m[1 + j]);
            }
            assert(m[0] == v1[0]);
            lemma_merge_wf(sa, self.max_depth, sb, other.max_depth, m, max_depth);
        }
        Tree { data: vec, max_depth }
    }
}

} // verus!
