//! The bounding-volume hierarchy: a tree whose leaves hold runs of
//! primitives and whose nodes hold the box around everything below them.
use std::collections::VecDeque;
use crate::build_options::{BuildBvhOption, DepthControl, SplitMethod};
use crate::bv::{axis_covers, empty_box, ints, is_longest_axis, max_int, min_int, BoxView, AABB};
use crate::traits::{Bounded, Intersect};
use crate::tree::{
    bfs_walk, kept_children, lemma_kept_children, reversed, index_run, lemma_preorder_unfold, preorder, queue_size, slot_preorder, stack_rest, Bfs, ChildSide, Dfs, IterType, Node, Order, PushOrder, Tree,
    TreeIterator,
};
use vstd::multiset::Multiset;
use vstd::prelude::*;

verus! {

/// The box around a sequence of primitives.
pub open spec fn box_of_seq<const D: usize, P: Bounded<D>>(s: Seq<P>) -> BoxView
    decreases s.len(),
{
    if s.len() == 0 {
        empty_box(D as nat)
    } else {
        box_of_seq::<D, P>(s.drop_last()).merge(s.last().box_spec())
    }
}

/// The box around the centers of a sequence of primitives.
pub open spec fn centers_box<const D: usize, P: Bounded<D>>(s: Seq<P>) -> BoxView
    decreases s.len(),
{
    if s.len() == 0 {
        empty_box(D as nat)
    } else {
        centers_box::<D, P>(s.drop_last()).grow(s.last().center_spec())
    }
}

/// Every primitive of `s` has the shape its operations expect.
pub open spec fn all_wf<const D: usize, P: Bounded<D>>(s: Seq<P>) -> bool {
    forall|j: int| 0 <= j < s.len() ==> #[trigger] s[j].prim_wf()
}

/// The key of a primitive along an axis: its center there.
pub open spec fn key<const D: usize, P: Bounded<D>>(p: P, axis: int) -> int {
    p.center_spec()[axis]
}

/// Whether a primitive goes left in a midpoint split at `mid2`, twice the
/// midpoint: its center lies strictly below the midpoint.
pub open spec fn goes_left<const D: usize, P: Bounded<D>>(p: P, axis: int, mid2: int) -> bool {
    2 * key::<D, P>(p, axis) < mid2
}

proof fn lemma_box_dim<const D: usize, P: Bounded<D>>(s: Seq<P>)
    requires
        all_wf::<D, P>(s),
    ensures
        box_of_seq::<D, P>(s).has_dim(D as nat),
        centers_box::<D, P>(s).has_dim(D as nat),
    decreases s.len(),
{
    if s.len() > 0 {
        s.last().lemma_shape();
        lemma_box_dim::<D, P>(s.drop_last());
    }
}

/// The box of a sequence covers the box of each of its primitives.
proof fn lemma_box_covers_each<const D: usize, P: Bounded<D>>(s: Seq<P>, j: int)
    requires
        all_wf::<D, P>(s),
        0 <= j < s.len(),
    ensures
        box_of_seq::<D, P>(s).covers(s[j].box_spec()),
    decreases s.len(),
{
    let b = box_of_seq::<D, P>(s);
    let prev = box_of_seq::<D, P>(s.drop_last());
    lemma_box_dim::<D, P>(s);
    lemma_box_dim::<D, P>(s.drop_last());
    s[j].lemma_shape();
    s.last().lemma_shape();
    if j < s.len() - 1 {
        lemma_box_covers_each::<D, P>(s.drop_last(), j);
        assert(s.drop_last()[j] == s[j]);
        assert forall|i: int| 0 <= i < b.lo.len() implies #[trigger] axis_covers(
            b,
            s[j].box_spec(),
            i,
        ) by {
            assert(axis_covers(prev, s[j].box_spec(), i));
        }
    }
}

/// A box with `D` axes that covers every primitive of `s` covers the box
/// of `s`.
proof fn lemma_box_least<const D: usize, P: Bounded<D>>(s: Seq<P>, x: BoxView)
    requires
        all_wf::<D, P>(s),
        x.has_dim(D as nat),
        forall|j: int| 0 <= j < s.len() ==> x.covers(#[trigger] s[j].box_spec()),
    ensures
        x.covers(box_of_seq::<D, P>(s)),
    decreases s.len(),
{
    lemma_box_dim::<D, P>(s);
    if s.len() > 0 {
        let prev = box_of_seq::<D, P>(s.drop_last());
        assert forall|j: int| 0 <= j < s.drop_last().len() implies x.covers(
            #[trigger] s.drop_last()[j].box_spec(),
        ) by {
            assert(s.drop_last()[j] == s[j]);
        }
        lemma_box_least::<D, P>(s.drop_last(), x);
        let l = s.last().box_spec();
        assert(x.covers(l));
        let b = box_of_seq::<D, P>(s);
        assert forall|i: int| 0 <= i < x.lo.len() implies #[trigger] axis_covers(x, b, i) by {
            assert(axis_covers(x, prev, i));
            assert(axis_covers(x, l, i));
        }
    }
}

/// The box of a sequence covers the box of any sequence whose primitives
/// it holds.
proof fn lemma_box_subset<const D: usize, P: Bounded<D>>(s: Seq<P>, t: Seq<P>)
    requires
        all_wf::<D, P>(s),
        t.to_multiset().subset_of(s.to_multiset()),
    ensures
        all_wf::<D, P>(t),
        box_of_seq::<D, P>(s).covers(box_of_seq::<D, P>(t)),
{
    broadcast use vstd::seq_lib::group_to_multiset_ensures;

    assert forall|j: int| 0 <= j < t.len() implies #[trigger] t[j].prim_wf() && box_of_seq::<
        D,
        P,
    >(s).covers(t[j].box_spec()) by {
        assert(t.to_multiset().count(t[j]) > 0);
        assert(s.to_multiset().count(t[j]) > 0);
        assert(s.contains(t[j]));
        let k = choose|k: int| 0 <= k < s.len() && s[k] == t[j];
        lemma_box_covers_each::<D, P>(s, k);
    }
    lemma_box_dim::<D, P>(s);
    assert forall|j: int| 0 <= j < t.len() implies box_of_seq::<D, P>(s).covers(
        #[trigger] t[j].box_spec(),
    ) by {
        assert(t[j].prim_wf());
    }
    lemma_box_least::<D, P>(t, box_of_seq::<D, P>(s));
}

/// The box around the primitives of `prims`.
fn bounding_box<const D: usize, P: Bounded<D>>(prims: &Vec<P>) -> (r: AABB<D>)
    requires
        all_wf::<D, P>(prims@),
    ensures
        r.wf(),
        r@ == box_of_seq::<D, P>(prims@),
{
    let mut r = AABB::new();
    let mut i: usize = 0;
    while i < prims.len()
        invariant
            i <= prims@.len(),
            all_wf::<D, P>(prims@),
            r.wf(),
            r@ == box_of_seq::<D, P>(prims@.take(i as int)),
        decreases prims@.len() - i,
    {
        let b = prims[i].bv();
        r.merge(&b);
        assert(prims@.take(i as int + 1).drop_last() =~= prims@.take(i as int));
        i += 1;
    }
    assert(prims@.take(i as int) =~= prims@);
    r
}

/// The box around the centers of `prims`.
fn center_box<const D: usize, P: Bounded<D>>(prims: &Vec<P>) -> (r: AABB<D>)
    requires
        all_wf::<D, P>(prims@),
    ensures
        r.wf(),
        r@ == centers_box::<D, P>(prims@),
{
    let mut r = AABB::new();
    let mut i: usize = 0;
    while i < prims.len()
        invariant
            i <= prims@.len(),
            all_wf::<D, P>(prims@),
            r.wf(),
            r@ == centers_box::<D, P>(prims@.take(i as int)),
        decreases prims@.len() - i,
    {
        let c = prims[i].center();
        r.grow(&c);
        assert(prims@.take(i as int + 1).drop_last() =~= prims@.take(i as int));
        i += 1;
    }
    assert(prims@.take(i as int) =~= prims@);
    r
}

/// Relies on `slice::sort_by_key`: the elements come back permuted, in
/// ascending order of the key, here the center along `axis`.
#[verifier::external_body]
fn sort_by_center<const D: usize, P: Bounded<D>>(v: &mut Vec<P>, axis: usize)
    requires
        axis < D,
        all_wf::<D, P>(old(v)@),
    ensures
        final(v)@.to_multiset() == old(v)@.to_multiset(),
        forall|i: int, j: int|
            0 <= i < j < final(v)@.len() ==> key::<D, P>(#[trigger] final(v)@[i], axis as int)
                <= key::<D, P>(#[trigger] final(v)@[j], axis as int),
{
    v.sort_by_key(|p| p.center_at_axis(axis))
}

/// The box of the centers holds every center.
proof fn lemma_centers_hold<const D: usize, P: Bounded<D>>(s: Seq<P>, j: int, i: int)
    requires
        all_wf::<D, P>(s),
        0 <= j < s.len(),
        0 <= i < D,
    ensures
        centers_box::<D, P>(s).lo[i] <= s[j].center_spec()[i] <= centers_box::<D, P>(s).hi[i],
    decreases s.len(),
{
    s[j].lemma_shape();
    s.last().lemma_shape();
    lemma_box_dim::<D, P>(s.drop_last());
    if j < s.len() - 1 {
        lemma_centers_hold::<D, P>(s.drop_last(), j, i);
        assert(s.drop_last()[j] == s[j]);
    }
}

/// On every axis the box of the centers of a non-empty sequence is
/// reached by some center at each end.
proof fn lemma_centers_attained<const D: usize, P: Bounded<D>>(s: Seq<P>, i: int)
    requires
        all_wf::<D, P>(s),
        s.len() > 0,
        0 <= i < D,
    ensures
        exists|j: int|
            0 <= j < s.len() && #[trigger] s[j].center_spec()[i] == centers_box::<D, P>(s).lo[i],
        exists|j: int|
            0 <= j < s.len() && #[trigger] s[j].center_spec()[i] == centers_box::<D, P>(s).hi[i],
    decreases s.len(),
{
    s.last().lemma_shape();
    lemma_box_dim::<D, P>(s.drop_last());
    let k = s.len() - 1;
    if s.len() == 1 {
        assert(s[k].center_spec()[i] == centers_box::<D, P>(s).lo[i]);
        assert(s[k].center_spec()[i] == centers_box::<D, P>(s).hi[i]);
    } else {
        lemma_centers_attained::<D, P>(s.drop_last(), i);
        let t = s.drop_last();
        let j1 = choose|j: int|
            0 <= j < t.len() && #[trigger] t[j].center_spec()[i] == centers_box::<D, P>(t).lo[i];
        let j2 = choose|j: int|
            0 <= j < t.len() && #[trigger] t[j].center_spec()[i] == centers_box::<D, P>(t).hi[i];
        assert(t[j1] == s[j1]);
        assert(t[j2] == s[j2]);
        if s[k].center_spec()[i] <= centers_box::<D, P>(t).lo[i] {
            assert(s[k].center_spec()[i] == centers_box::<D, P>(s).lo[i]);
        } else {
            assert(s[j1].center_spec()[i] == centers_box::<D, P>(s).lo[i]);
        }
        if s[k].center_spec()[i] >= centers_box::<D, P>(t).hi[i] {
            assert(s[k].center_spec()[i] == centers_box::<D, P>(s).hi[i]);
        } else {
            assert(s[j2].center_spec()[i] == centers_box::<D, P>(s).hi[i]);
        }
    }
}

/// `left` and `right` are how a build splits `s` by `method`, along the
/// longest axis of the box of the centers: by the midpoint of that box
/// (order kept), or by the median after sorting on that axis.
pub open spec fn split_rule<const D: usize, P: Bounded<D>>(
    s: Seq<P>,
    left: Seq<P>,
    right: Seq<P>,
    method: SplitMethod,
) -> bool {
    let cb = centers_box::<D, P>(s);
    exists|a: int|
        #[trigger] is_longest_axis(cb, D as nat, a) && match method {
            SplitMethod::Mid => {
                &&& left == s.filter(|p: P| goes_left::<D, P>(p, a, cb.lo[a] + cb.hi[a]))
                &&& right == s.filter(|p: P| !goes_left::<D, P>(p, a, cb.lo[a] + cb.hi[a]))
            },
            SplitMethod::Average => {
                &&& left.len() == s.len() / 2
                &&& right.len() == s.len() - s.len() / 2
                &&& left.to_multiset().add(right.to_multiset()) == s.to_multiset()
                &&& forall|x: int, y: int|
                    0 <= x < left.len() && 0 <= y < right.len() ==> key::<D, P>(
                        #[trigger] left[x],
                        a,
                    ) <= key::<D, P>(#[trigger] right[y], a)
            },
        }
}

/// All primitives of `s` have the same center.
pub open spec fn same_center<const D: usize, P: Bounded<D>>(s: Seq<P>) -> bool {
    forall|j: int, k: int|
        0 <= j < s.len() && 0 <= k < s.len() ==> #[trigger] s[j].center_spec()
            == #[trigger] s[k].center_spec()
}

/// What a tree node holds: its box, and for a leaf its primitives.
#[derive(Debug)]
pub struct BvhNodeData<const D: usize, P> {
    pub bv: AABB<D>,
    pub primitives: Option<Vec<P>>,
}

impl<const D: usize, P> BvhNodeData<D, P> {
    /// The data of an inner node.
    pub fn new_node_data(bv: AABB<D>) -> (r: Self)
        ensures
            r.bv == bv,
            r.primitives.is_none(),
    {
        BvhNodeData { bv, primitives: None }
    }

    /// The data of a leaf.
    pub fn new_leaf_data(bv: AABB<D>, primitives: Vec<P>) -> (r: Self)
        ensures
            r.bv == bv,
            r.primitives == Some(primitives),
    {
        BvhNodeData { bv, primitives: Some(primitives) }
    }

    /// Whether this is an inner node.
    pub fn is_node(&self) -> (r: bool)
        ensures
            r == self.primitives.is_none(),
    {
        self.primitives.is_none()
    }

    /// Whether this is a leaf.
    pub fn is_leaf(&self) -> (r: bool)
        ensures
            r == self.primitives.is_some(),
    {
        !self.is_node()
    }
}

/// The primitives a node's data holds.
pub open spec fn data_ms<const D: usize, P>(d: BvhNodeData<D, P>) -> Multiset<P> {
    match d.primitives {
        Some(v) => v@.to_multiset(),
        None => Multiset::empty(),
    }
}

/// The primitives held by the leaves of an arena.
pub open spec fn leaf_ms<const D: usize, P>(n: Seq<Node<BvhNodeData<D, P>>>) -> Multiset<P>
    decreases n.len(),
{
    if n.len() == 0 {
        Multiset::empty()
    } else {
        leaf_ms(n.drop_last()).add(data_ms(n.last().data))
    }
}

proof fn lemma_leaf_ms_same<const D: usize, P>(
    n: Seq<Node<BvhNodeData<D, P>>>,
    m: Seq<Node<BvhNodeData<D, P>>>,
)
    requires
        n.len() == m.len(),
        forall|j: int| 0 <= j < n.len() ==> #[trigger] m[j].data == n[j].data,
    ensures
        leaf_ms(m) == leaf_ms(n),
    decreases n.len(),
{
    if n.len() > 0 {
        assert forall|j: int| 0 <= j < n.len() - 1 implies #[trigger] m.drop_last()[j].data
            == n.drop_last()[j].data by {
            assert(m.drop_last()[j] == m[j]);
            assert(n.drop_last()[j] == n[j]);
        }
        lemma_leaf_ms_same(n.drop_last(), m.drop_last());
        assert(m.last().data == n.last().data);
    }
}

/// A pending piece of a build: primitives to place at `depth` on the
/// `side` slot of node `parent`.
struct BuildTask<P> {
    prims: Vec<P>,
    depth: usize,
    side: ChildSide,
    parent: usize,
}

/// The primitives of all pending tasks.
spec fn tasks_ms<P>(q: Seq<BuildTask<P>>) -> Multiset<P>
    decreases q.len(),
{
    if q.len() == 0 {
        Multiset::empty()
    } else {
        tasks_ms(q.drop_last()).add(q.last().prims@.to_multiset())
    }
}

/// An upper bound on the nodes the pending tasks still make.
spec fn tasks_weight<P>(q: Seq<BuildTask<P>>) -> int
    decreases q.len(),
{
    if q.len() == 0 {
        0
    } else {
        tasks_weight(q.drop_last()) + 2 * q.last().prims@.len() - 1
    }
}

proof fn lemma_tasks_front<P>(q: Seq<BuildTask<P>>)
    requires
        q.len() > 0,
    ensures
        tasks_ms(q) == q[0].prims@.to_multiset().add(tasks_ms(q.drop_first())),
        tasks_weight(q) == 2 * q[0].prims@.len() - 1 + tasks_weight(q.drop_first()),
    decreases q.len(),
{
    broadcast use vstd::multiset::group_multiset_axioms;

    if q.len() > 1 {
        lemma_tasks_front(q.drop_last());
        assert(q.drop_last().drop_first() == q.drop_first().drop_last());
        assert(q.drop_last()[0] == q[0]);
        assert(q.drop_first().last() == q.last());
        assert(tasks_weight(q.drop_first()) == tasks_weight(q.drop_first().drop_last()) + 2
            * q.drop_first().last().prims@.len() - 1);
        assert(tasks_ms(q.drop_first()) == tasks_ms(q.drop_first().drop_last()).add(
            q.drop_first().last().prims@.to_multiset(),
        ));
        assert(tasks_ms(q) =~= q[0].prims@.to_multiset().add(tasks_ms(q.drop_first())));
    } else {
        assert(q.drop_first().len() == 0);
        assert(q.drop_last().len() == 0);
        assert(q.last() == q[0]);
        assert(tasks_ms(q.drop_last()) == Multiset::<P>::empty());
        assert(tasks_ms(q.drop_first()) == Multiset::<P>::empty());
        assert(tasks_weight(q.drop_first()) == 0);
        assert(tasks_weight(q.drop_last()) == 0);
        assert(tasks_ms(q) =~= q[0].prims@.to_multiset().add(tasks_ms(q.drop_first())));
    }
}

/// What the build keeps true of node `i`: its box is the box of the
/// primitives it was made for, a leaf holds exactly those and was made by
/// the rules, and they are among those of its parent.
spec fn node_ok<const D: usize, P: Bounded<D>>(
    n: Seq<Node<BvhNodeData<D, P>>>,
    gs: Seq<Seq<P>>,
    i: int,
    option: BuildBvhOption,
) -> bool {
    &&& n[i].data.bv.wf()
    &&& n[i].data.bv@ == box_of_seq::<D, P>(gs[i])
    &&& all_wf::<D, P>(gs[i])
    &&& n[i].data.primitives.is_some() ==> {
        &&& n[i].data.primitives.unwrap()@ == gs[i]
        &&& n[i].left.is_none() && n[i].right.is_none()
        &&& option.depth_control.stops(n[i].depth as nat, gs[i].len()) || (option.split_method
            == SplitMethod::Mid && same_center::<D, P>(gs[i]))
    }
    &&& i > 0 ==> gs[i].to_multiset().subset_of(gs[n[i].parent as int].to_multiset())
}

/// What the build keeps true of a pending task.
spec fn task_ok<const D: usize, P: Bounded<D>>(
    n: Seq<Node<BvhNodeData<D, P>>>,
    gs: Seq<Seq<P>>,
    t: BuildTask<P>,
    option: BuildBvhOption,
) -> bool {
    let p = t.parent as int;
    &&& 0 <= p < n.len()
    &&& n[p].data.primitives.is_none()
    &&& n[p].child(t.side).is_none()
    &&& t.depth == n[p].depth + 1
    &&& t.prims@.to_multiset().subset_of(gs[p].to_multiset())
    &&& all_wf::<D, P>(t.prims@)
    &&& t.prims@.len() >= 1
    &&& match option.depth_control {
        DepthControl::MaxDepth(m) => t.depth <= m,
        DepthControl::MinPrimitives(_) => true,
    }
}

/// A bounding-volume hierarchy over primitives of type `P` in `D`
/// dimensions.
#[derive(Debug)]
pub struct Bvh<const D: usize, P> {
    pub tree: Tree<BvhNodeData<D, P>>,
}

/// What the build records of a split: an inner node's two halves make up
/// its primitives, it did not meet the stopping rule, and each child was
/// made for its half.
spec fn split_ok<const D: usize, P: Bounded<D>>(
    n: Seq<Node<BvhNodeData<D, P>>>,
    gs: Seq<Seq<P>>,
    gl: Seq<Seq<P>>,
    gr: Seq<Seq<P>>,
    i: int,
    option: BuildBvhOption,
) -> bool {
    &&& n[i].data.primitives.is_none() ==> {
        &&& gl[i].to_multiset().add(gr[i].to_multiset()) == gs[i].to_multiset()
        &&& !option.depth_control.stops(n[i].depth as nat, gs[i].len())
        &&& split_rule::<D, P>(gs[i], gl[i], gr[i], option.split_method)
        &&& gl[i].len() >= 1 && gr[i].len() >= 1
        &&& !(option.split_method == SplitMethod::Mid && same_center::<D, P>(gs[i]))
    }
    &&& n[i].left.is_some() ==> gs[n[i].left.unwrap() as int] == gl[i]
    &&& n[i].right.is_some() ==> gs[n[i].right.unwrap() as int] == gr[i]
}

/// A pending task carries the half of its parent that its side was given.
spec fn task_half_ok<P>(gl: Seq<Seq<P>>, gr: Seq<Seq<P>>, t: BuildTask<P>) -> bool {
    &&& t.side == ChildSide::Left ==> t.prims@ == gl[t.parent as int]
    &&& t.side == ChildSide::Right ==> t.prims@ == gr[t.parent as int]
}

/// The primitives held by the leaves below node `i`.
pub open spec fn subtree_ms<const D: usize, P>(n: Seq<Node<BvhNodeData<D, P>>>, i: int) -> Multiset<
    P,
>
    decreases n.len() - i,
{
    if 0 <= i < n.len() {
        match n[i].data.primitives {
            Some(v) => v@.to_multiset(),
            None => {
                let l = n[i].left;
                let r = n[i].right;
                let lm = if l.is_some() && i < l.unwrap() < n.len() {
                    subtree_ms(n, l.unwrap() as int)
                } else {
                    Multiset::empty()
                };
                let rm = if r.is_some() && i < r.unwrap() < n.len() {
                    subtree_ms(n, r.unwrap() as int)
                } else {
                    Multiset::empty()
                };
                lm.add(rm)
            },
        }
    } else {
        Multiset::empty()
    }
}

proof fn lemma_subtree_ms<const D: usize, P: Bounded<D>>(
    n: Seq<Node<BvhNodeData<D, P>>>,
    max_depth: usize,
    gs: Seq<Seq<P>>,
    gl: Seq<Seq<P>>,
    gr: Seq<Seq<P>>,
    option: BuildBvhOption,
    i: int,
)
    requires
        crate::tree::nodes_wf(n, max_depth),
        gs.len() == n.len(),
        0 <= i < n.len(),
        forall|j: int| 0 <= j < n.len() ==> #[trigger] node_ok(n, gs, j, option),
        forall|j: int| 0 <= j < n.len() ==> #[trigger] split_ok(n, gs, gl, gr, j, option),
        forall|j: int|
            0 <= j < n.len() && (#[trigger] n[j]).data.primitives.is_none() ==> n[j].left.is_some()
                && n[j].right.is_some(),
    ensures
        gs[i].to_multiset() == subtree_ms(n, i),
    decreases n.len() - i,
{
    assert(node_ok(n, gs, i, option));
    assert(split_ok(n, gs, gl, gr, i, option));
    assert(crate::tree::down_ok(n, i, max_depth));
    if n[i].data.primitives.is_none() {
        assert(n[i] == n[i]);
        let l = n[i].left.unwrap() as int;
        let r = n[i].right.unwrap() as int;
        lemma_subtree_ms(n, max_depth, gs, gl, gr, option, l);
        lemma_subtree_ms(n, max_depth, gs, gl, gr, option, r);
    }
}

/// Node `i` is an inner node whose `side` slot is still empty.
spec fn slot_open<const D: usize, P>(n: Seq<Node<BvhNodeData<D, P>>>, i: int, side: ChildSide) -> bool {
    0 <= i < n.len() && n[i].data.primitives.is_none() && n[i].child(side).is_none()
}

/// Some pending task fills the `side` slot of node `i`.
spec fn pending<P>(q: Seq<BuildTask<P>>, i: int, side: ChildSide) -> bool {
    exists|k: int| 0 <= k < q.len() && q[k].parent == i && q[k].side == side
}

proof fn lemma_tasks_weight_pos<P>(q: Seq<BuildTask<P>>)
    requires
        forall|k: int| 0 <= k < q.len() ==> (#[trigger] q[k]).prims@.len() >= 1,
    ensures
        tasks_weight(q) >= q.len(),
    decreases q.len(),
{
    if q.len() > 0 {
        assert(q[q.len() - 1] == q.last());
        assert forall|k: int| 0 <= k < q.drop_last().len() implies (
        #[trigger] q.drop_last()[k]).prims@.len() >= 1 by {
            assert(q.drop_last()[k] == q[k]);
        }
        lemma_tasks_weight_pos(q.drop_last());
    }
}

impl<const D: usize, P: Bounded<D>> Bvh<D, P> {
    /// The hierarchy's invariant: a well-formed tree with a root, every box
    /// well-formed, every leaf without children and holding well-formed
    /// primitives.
    pub open spec fn wf(&self) -> bool {
        let n = self.tree.data@;
        &&& self.tree.wf()
        &&& n.len() >= 1
        &&& forall|i: int|
            0 <= i < n.len() ==> {
                &&& (#[trigger] n[i]).data.bv.wf()
                &&& n[i].data.primitives.is_some() ==> {
                    &&& n[i].left.is_none()
                    &&& n[i].right.is_none()
                    &&& all_wf::<D, P>(n[i].data.primitives.unwrap()@)
                }
            }
    }
}

impl<const D: usize, P: Bounded<D>> Bvh<D, P> {
    /// Splits `primitives` at the midpoint of `aabb` along `split_axis`,
    /// keeping their order: those whose centroid lies strictly below the
    /// midpoint go left, the others right. `aabb` is at the coordinates'
    /// own scale, so the midpoint is scaled by `center_scale` to meet the
    /// centers.
    pub fn split_triangles_mid(aabb: AABB<D>, primitives: Vec<P>, split_axis: usize) -> (r: (
        Vec<P>,
        Vec<P>,
    ))
        requires
            aabb.wf(),
            split_axis < D,
            all_wf::<D, P>(primitives@),
        ensures
            ({
                let mid2 = P::center_scale_spec() * (aabb@.lo[split_axis as int]
                    + aabb@.hi[split_axis as int]);
                &&& r.0@ == primitives@.filter(|p: P| goes_left::<D, P>(p, split_axis as int, mid2))
                &&& r.1@ == primitives@.filter(
                    |p: P| !goes_left::<D, P>(p, split_axis as int, mid2),
                )
                &&& forall|i: int|
                    0 <= i < r.0@.len() ==> 2 * key::<D, P>(#[trigger] r.0@[i], split_axis as int)
                        < mid2
                &&& forall|i: int|
                    0 <= i < r.1@.len() ==> 2 * key::<D, P>(#[trigger] r.1@[i], split_axis as int)
                        >= mid2
            }),
            r.0@.to_multiset().add(r.1@.to_multiset()) == primitives@.to_multiset(),
    {
        let scale = P::center_scale();
        let sum = aabb.min[split_axis] as i128 + aabb.max[split_axis] as i128;
        assert(-0x1_0000_0000_0000_0000 <= sum <= 0x1_0000_0000_0000_0000);
        assert(-0x1_0000_0000_0000_0000_0000_0000 <= scale * sum <= 0x1_0000_0000_0000_0000_0000_0000)
            by (nonlinear_arith)
            requires
                1 <= scale <= 0x7fff_ffff,
                -0x1_0000_0000_0000_0000 <= sum <= 0x1_0000_0000_0000_0000,
        ;
        let mid2 = scale as i128 * sum;
        Self::split_at_mid(primitives, split_axis, mid2)
    }

    /// Splits `primitives` by their center along `split_axis` against
    /// `mid2`, twice a midpoint at the scale of the centers, keeping their
    /// order: those strictly below go left, the others right.
    fn split_at_mid(primitives: Vec<P>, split_axis: usize, mid2: i128) -> (r: (Vec<P>, Vec<P>))
        requires
            split_axis < D,
            all_wf::<D, P>(primitives@),
        ensures
            r.0@ == primitives@.filter(|p: P| goes_left::<D, P>(p, split_axis as int, mid2 as int)),
            r.1@ == primitives@.filter(|p: P| !goes_left::<D, P>(p, split_axis as int, mid2 as int)),
            r.0@.to_multiset().add(r.1@.to_multiset()) == primitives@.to_multiset(),
            forall|i: int|
                0 <= i < r.0@.len() ==> 2 * key::<D, P>(#[trigger] r.0@[i], split_axis as int)
                    < mid2,
            forall|i: int|
                0 <= i < r.1@.len() ==> 2 * key::<D, P>(#[trigger] r.1@[i], split_axis as int)
                    >= mid2,
    {
        broadcast use vstd::seq_lib::group_to_multiset_ensures;

        let ghost orig = primitives@;
        let ghost n = orig.len();
        let ghost pred = |p: P| goes_left::<D, P>(p, split_axis as int, mid2 as int);
        let ghost npred = |p: P| !goes_left::<D, P>(p, split_axis as int, mid2 as int);
        let mut rev = reversed(primitives);
        let mut left: Vec<P> = Vec::new();
        let mut right: Vec<P> = Vec::new();
        while rev.len() > 0
            invariant
                rev@.len() <= n,
                n == orig.len(),
                all_wf::<D, P>(orig),
                split_axis < D,
                pred == (|p: P| goes_left::<D, P>(p, split_axis as int, mid2 as int)),
                npred == (|p: P| !goes_left::<D, P>(p, split_axis as int, mid2 as int)),
                forall|j: int| 0 <= j < rev@.len() ==> #[trigger] rev@[j] == orig[n - 1 - j],
                left@ == orig.take(n - rev@.len()).filter(pred),
                right@ == orig.take(n - rev@.len()).filter(npred),
                left@.to_multiset().add(right@.to_multiset()) == orig.take(
                    n - rev@.len(),
                ).to_multiset(),
            decreases rev@.len(),
        {
            let ghost t = n - rev@.len();
            let p = rev.pop().unwrap();
            proof {
                assert(p == orig[t]);
                assert(orig.take(t + 1) =~= orig.take(t).push(p));
                orig.take(t).lemma_filter_push(p, pred);
                orig.take(t).lemma_filter_push(p, npred);
            }
            let c = p.center_at_axis(split_axis);
            proof {
                p.lemma_shape();
                assert(pred(p) == (2 * c < mid2));
                assert(npred(p) == !(2 * c < mid2));
            }
            let ghost l0 = left@;
            let ghost r0 = right@;
            if 2 * (c as i128) < mid2 {
                left.push(p);
            } else {
                right.push(p);
            }
            proof {
                broadcast use vstd::multiset::group_multiset_axioms;

                vstd::seq_lib::to_multiset_build(orig.take(t), p);
                vstd::seq_lib::to_multiset_build(l0, p);
                vstd::seq_lib::to_multiset_build(r0, p);
                assert(left@.to_multiset().add(right@.to_multiset()) =~= l0.to_multiset().add(
                    r0.to_multiset(),
                ).insert(p));
            }
        }
        assert(orig.take(n as int) =~= orig);
        proof {
            assert forall|i: int| 0 <= i < left@.len() implies 2 * key::<D, P>(
                #[trigger] left@[i],
                split_axis as int,
            ) < mid2 by {
                orig.lemma_filter_pred(pred, i);
            }
            assert forall|i: int| 0 <= i < right@.len() implies 2 * key::<D, P>(
                #[trigger] right@[i],
                split_axis as int,
            ) >= mid2 by {
                orig.lemma_filter_pred(npred, i);
            }
        }
        (left, right)
    }

    /// Sorts `primitives` by their center along `split_axis` and cuts them
    /// at the median index: the left half gets the lower half of the count,
    /// the right half the rest, and no center on the left exceeds one on the
    /// right.
    pub fn split_triangles_average(primitives: Vec<P>, split_axis: usize) -> (r: (
        Vec<P>,
        Vec<P>,
    ))
        requires
            split_axis < D,
            all_wf::<D, P>(primitives@),
        ensures
            r.0@.len() == primitives@.len() / 2,
            r.1@.len() == primitives@.len() - primitives@.len() / 2,
            r.0@.to_multiset().add(r.1@.to_multiset()) == primitives@.to_multiset(),
            forall|i: int, j: int|
                0 <= i < r.0@.len() && 0 <= j < r.1@.len() ==> key::<D, P>(
                    #[trigger] r.0@[i],
                    split_axis as int,
                ) <= key::<D, P>(#[trigger] r.1@[j], split_axis as int),
            forall|i: int, j: int|
                0 <= i < j < r.0@.len() ==> key::<D, P>(#[trigger] r.0@[i], split_axis as int)
                    <= key::<D, P>(#[trigger] r.0@[j], split_axis as int),
            forall|i: int, j: int|
                0 <= i < j < r.1@.len() ==> key::<D, P>(#[trigger] r.1@[i], split_axis as int)
                    <= key::<D, P>(#[trigger] r.1@[j], split_axis as int),
    {
        let mut primitives = primitives;
        let ghost orig = primitives@;
        let half_len = primitives.len() / 2;
        sort_by_center(&mut primitives, split_axis);
        let ghost sorted = primitives@;
        proof {
            vstd::seq_lib::to_multiset_len(orig);
            vstd::seq_lib::to_multiset_len(sorted);
        }
        let right = primitives.split_off(half_len);
        proof {
            assert(sorted =~= primitives@ + right@);
            vstd::seq_lib::lemma_multiset_commutative(primitives@, right@);
            assert forall|i: int, j: int|
                0 <= i < primitives@.len() && 0 <= j < right@.len() implies key::<D, P>(
                #[trigger] primitives@[i],
                split_axis as int,
            ) <= key::<D, P>(#[trigger] right@[j], split_axis as int) by {
                assert(primitives@[i] == sorted[i]);
                assert(right@[j] == sorted[half_len + j]);
            }
            assert forall|i: int, j: int| 0 <= i < j < primitives@.len() implies key::<D, P>(
                #[trigger] primitives@[i],
                split_axis as int,
            ) <= key::<D, P>(#[trigger] primitives@[j], split_axis as int) by {
                assert(primitives@[i] == sorted[i]);
                assert(primitives@[j] == sorted[j]);
            }
            assert forall|i: int, j: int| 0 <= i < j < right@.len() implies key::<D, P>(
                #[trigger] right@[i],
                split_axis as int,
            ) <= key::<D, P>(#[trigger] right@[j], split_axis as int) by {
                assert(right@[i] == sorted[half_len + i]);
                assert(right@[j] == sorted[half_len + j]);
            }
        }
        (primitives, right)
    }

    /// Splits `primitives` along `split_axis` by `split_method`.
    pub fn split_triangles(
        aabb: AABB<D>,
        primitives: Vec<P>,
        split_axis: usize,
        split_method: SplitMethod,
    ) -> (r: (Vec<P>, Vec<P>))
        requires
            aabb.wf(),
            split_axis < D,
            all_wf::<D, P>(primitives@),
        ensures
            r.0@.to_multiset().add(r.1@.to_multiset()) == primitives@.to_multiset(),
            split_method == SplitMethod::Mid ==> ({
                let mid2 = P::center_scale_spec() * (aabb@.lo[split_axis as int]
                    + aabb@.hi[split_axis as int]);
                &&& r.0@ == primitives@.filter(|p: P| goes_left::<D, P>(p, split_axis as int, mid2))
                &&& r.1@ == primitives@.filter(
                    |p: P| !goes_left::<D, P>(p, split_axis as int, mid2),
                )
            }),
            split_method == SplitMethod::Average ==> {
                &&& r.0@.len() == primitives@.len() / 2
                &&& r.1@.len() == primitives@.len() - primitives@.len() / 2
                &&& forall|i: int, j: int|
                    0 <= i < r.0@.len() && 0 <= j < r.1@.len() ==> key::<D, P>(
                        #[trigger] r.0@[i],
                        split_axis as int,
                    ) <= key::<D, P>(#[trigger] r.1@[j], split_axis as int)
            },
    {
        match split_method {
            SplitMethod::Mid => Self::split_triangles_mid(aabb, primitives, split_axis),
            SplitMethod::Average => Self::split_triangles_average(primitives, split_axis),
        }
    }

    /// The node for `prims` at `depth`: a leaf when the stopping rule says
    /// so, or when a midpoint split meets centers that all coincide; else an
    /// inner node with the two non-empty halves to hang below it.
    fn make_node(prims: Vec<P>, depth: usize, option: BuildBvhOption) -> (r: (
        BvhNodeData<D, P>,
        Option<(Vec<P>, Vec<P>)>,
    ))
        requires
            D >= 1,
            all_wf::<D, P>(prims@),
        ensures
            r.0.bv.wf(),
            r.0.bv@ == box_of_seq::<D, P>(prims@),
            r.1.is_none() ==> {
                &&& r.0.primitives.is_some()
                &&& r.0.primitives.unwrap()@ == prims@
                &&& option.depth_control.stops(depth as nat, prims@.len())
                    || (option.split_method == SplitMethod::Mid && same_center::<D, P>(prims@))
            },
            r.1.is_some() ==> {
                let (left, right) = r.1.unwrap();
                &&& r.0.primitives.is_none()
                &&& !option.depth_control.stops(depth as nat, prims@.len())
                &&& left@.len() >= 1
                &&& right@.len() >= 1
                &&& left@.to_multiset().add(right@.to_multiset()) == prims@.to_multiset()
                &&& split_rule::<D, P>(prims@, left@, right@, option.split_method)
                &&& !(option.split_method == SplitMethod::Mid && same_center::<D, P>(prims@))
            },
    {
        let bv = bounding_box(&prims);
        let n = prims.len();
        if option.depth_control.should_stop(depth, n) {
            return (BvhNodeData::new_leaf_data(bv, prims), None);
        }
        let helper = center_box(&prims);
        let axis = helper.longest_dimension();
        let ghost cb = centers_box::<D, P>(prims@);
        if option.split_method == SplitMethod::Mid && helper.max[axis] as i128
            - helper.min[axis] as i128 <= 0 {
            proof {
                assert forall|j: int, k: int|
                    0 <= j < prims@.len() && 0 <= k < prims@.len() implies #[trigger] prims@[j].center_spec()
                    == #[trigger] prims@[k].center_spec() by {
                    prims@[j].lemma_shape();
                    prims@[k].lemma_shape();
                    assert forall|i: int| 0 <= i < D implies prims@[j].center_spec()[i]
                        == prims@[k].center_spec()[i] by {
                        assert(crate::bv::extent(helper@, i) <= 0);
                        lemma_centers_hold::<D, P>(prims@, j, i);
                        lemma_centers_hold::<D, P>(prims@, k, i);
                    }
                    assert(prims@[j].center_spec() =~= prims@[k].center_spec());
                }
            }
            return (BvhNodeData::new_leaf_data(bv, prims), None);
        }
        let ghost orig = prims@;
        let (left, right) = match option.split_method {
            SplitMethod::Mid => {
                let mid2 = helper.min[axis] as i128 + helper.max[axis] as i128;
                Self::split_at_mid(prims, axis, mid2)
            },
            SplitMethod::Average => Self::split_triangles_average(prims, axis),
        };
        proof {
            assert(is_longest_axis(cb, D as nat, axis as int));
            vstd::seq_lib::to_multiset_len(orig);
            vstd::seq_lib::to_multiset_len(left@);
            vstd::seq_lib::to_multiset_len(right@);
            if option.split_method == SplitMethod::Mid {
                let a = axis as int;
                let mid2 = cb.lo[a] + cb.hi[a];
                lemma_centers_attained::<D, P>(orig, a);
                let j1 = choose|j: int|
                    0 <= j < orig.len() && #[trigger] orig[j].center_spec()[a] == cb.lo[a];
                let j2 = choose|j: int|
                    0 <= j < orig.len() && #[trigger] orig[j].center_spec()[a] == cb.hi[a];
                let pl = |p: P| goes_left::<D, P>(p, a, mid2);
                let pr = |p: P| !goes_left::<D, P>(p, a, mid2);
                assert(crate::bv::extent(helper@, a) > 0);
                assert(pl(orig[j1]));
                assert(pr(orig[j2]));
                assert(orig.contains(orig[j1]));
                assert(orig.contains(orig[j2]));
                orig.lemma_filter_contains_rev(pl, orig[j1]);
                orig.lemma_filter_contains_rev(pr, orig[j2]);
                assert(left@.contains(orig[j1]));
                assert(right@.contains(orig[j2]));
                if same_center::<D, P>(orig) {
                    assert(orig[j1].center_spec() == orig[j2].center_spec());
                }
            }
        }
        (BvhNodeData::new_node_data(bv), Some((left, right)))
    }

    /// Builds a hierarchy over `primitives`, breadth first from the root.
    /// Each node gets the box of its primitives; it becomes a leaf holding
    /// them when the stopping rule says so (at most one primitive always
    /// does), or when a midpoint split meets centers that all coincide;
    /// otherwise its primitives are split in two along the longest axis of
    /// their centers' box, and the halves become its left and right child.
    pub fn build(option: BuildBvhOption, primitives: Vec<P>) -> (r: Self)
        requires
            D >= 1,
            all_wf::<D, P>(primitives@),
            primitives@.len() < usize::MAX / 4,
        ensures
            r.wf(),
            leaf_ms(r.tree.data@) == primitives@.to_multiset(),
            primitives@.len() <= 1 ==> {
                &&& r.tree.data@.len() == 1
                &&& r.tree.data@[0].data.primitives.is_some()
                &&& r.tree.data@[0].data.primitives.unwrap()@ == primitives@
            },
            forall|i: int|
                0 <= i < r.tree.data@.len() && (#[trigger] r.tree.data@[i]).data.primitives.is_none()
                    ==> r.tree.data@[i].left.is_some() && r.tree.data@[i].right.is_some(),
            forall|i: int|
                0 <= i < r.tree.data@.len() && (#[trigger] r.tree.data@[i]).data.primitives.is_some()
                    ==> option.depth_control.stops(
                    r.tree.data@[i].depth as nat,
                    r.tree.data@[i].data.primitives.unwrap()@.len(),
                ) || (option.split_method == SplitMethod::Mid && same_center::<D, P>(
                    r.tree.data@[i].data.primitives.unwrap()@,
                )),
            forall|i: int|
                0 <= i < r.tree.data@.len() ==> exists|s: Seq<P>|
                    s.to_multiset() == subtree_ms(r.tree.data@, i) && (#[trigger] r.tree.data@[i]).data.bv@
                        == box_of_seq::<D, P>(s),
            forall|i: int|
                0 <= i < r.tree.data@.len() && (#[trigger] r.tree.data@[i]).data.primitives.is_none()
                    ==> exists|s: Seq<P>, sl: Seq<P>, sr: Seq<P>|
                    #[trigger] split_rule::<D, P>(s, sl, sr, option.split_method) && sl.len() >= 1
                        && sr.len() >= 1 && !(option.split_method == SplitMethod::Mid
                        && same_center::<D, P>(s)) && s.to_multiset()
                        == subtree_ms(r.tree.data@, i) && sl.to_multiset() == subtree_ms(
                        r.tree.data@,
                        r.tree.data@[i].left.unwrap() as int,
                    ) && sr.to_multiset() == subtree_ms(
                        r.tree.data@,
                        r.tree.data@[i].right.unwrap() as int,
                    ),
            forall|i: int|
                0 <= i < r.tree.data@.len() && (#[trigger] r.tree.data@[i]).data.primitives.is_none()
                    ==> !option.depth_control.stops(
                    r.tree.data@[i].depth as nat,
                    subtree_ms(r.tree.data@, i).len(),
                ),
            forall|c: int|
                0 < c < r.tree.data@.len() ==> (#[trigger] r.tree.data@[r.tree.data@[c].parent as int]).data.bv@.covers(
                    r.tree.data@[c].data.bv@,
                ),
            match option.depth_control {
                DepthControl::MaxDepth(m) => r.tree.max_depth <= max_int(m as int, 1),
                DepthControl::MinPrimitives(_) => true,
            },
            forall|i: int|
                0 <= i < r.tree.data@.len() && (#[trigger] r.tree.data@[i]).data.primitives.is_some()
                    ==> match option.depth_control {
                    DepthControl::MinPrimitives(m) => r.tree.data@[i].data.primitives.unwrap()@.len()
                        <= max_int(m as int, 1) || (option.split_method == SplitMethod::Mid
                        && same_center::<D, P>(r.tree.data@[i].data.primitives.unwrap()@)),
                    DepthControl::MaxDepth(_) => true,
                },
    {
        broadcast use vstd::multiset::group_multiset_axioms;

        let ghost orig = primitives@;
        let ghost big_n = orig.len() as int;
        let (data, halves) = Self::make_node(primitives, 1, option);
        let mut tree = Tree::new_root(data);
        let ghost mut gs: Seq<Seq<P>> = seq![orig];
        let ghost mut gl: Seq<Seq<P>> = seq![Seq::empty()];
        let ghost mut gr: Seq<Seq<P>> = seq![Seq::empty()];
        let mut queue: VecDeque<BuildTask<P>> = VecDeque::new();
        proof {
            vstd::seq_lib::to_multiset_len(orig);
            assert(leaf_ms(tree.data@.drop_last()) == Multiset::<P>::empty());
            assert(node_ok(tree.data@, gs, 0, option));
        }
        if let Some((l, r)) = halves {
            proof {
                vstd::seq_lib::to_multiset_len(l@);
                vstd::seq_lib::to_multiset_len(r@);
                vstd::seq_lib::lemma_multiset_commutative(l@, r@);
                gl = seq![l@];
                gr = seq![r@];
                assert(split_ok(tree.data@, gs, gl, gr, 0, option));
            }
            queue.push_back(BuildTask { prims: l, depth: 2, side: ChildSide::Left, parent: 0 });
            queue.push_back(BuildTask { prims: r, depth: 2, side: ChildSide::Right, parent: 0 });
            proof {
                let q = queue@;
                assert(q.drop_last().drop_last() =~= Seq::<BuildTask<P>>::empty());
                assert(tasks_ms(q.drop_last().drop_last()) == Multiset::<P>::empty());
                assert(tasks_weight(q.drop_last().drop_last()) == 0);
                assert(q.drop_last().last() == q[0]);
                assert(tasks_ms(q.drop_last()) =~= q[0].prims@.to_multiset());
                assert(tasks_ms(q) == tasks_ms(q.drop_last()).add(q[1].prims@.to_multiset()));
                assert(tasks_weight(q.drop_last()) == 2 * q[0].prims@.len() - 1);
                assert(tasks_weight(q) == tasks_weight(q.drop_last()) + 2 * q[1].prims@.len() - 1);
                assert(l@.len() + r@.len() == orig.len());
                assert(leaf_ms(tree.data@) =~= Multiset::<P>::empty());
                assert(tasks_ms(queue@) =~= orig.to_multiset());
                assert(task_half_ok(gl, gr, q[0]));
                assert(task_half_ok(gl, gr, q[1]));
                assert forall|i: int, side: ChildSide|
                    #[trigger] slot_open(tree.data@, i, side) implies pending(q, i, side) by {
                    if side == ChildSide::Left {
                        assert(q[0].parent == i && q[0].side == side);
                    } else {
                        assert(q[1].parent == i && q[1].side == side);
                    }
                }
                assert forall|k: int| 0 <= k < q.len() implies task_ok(
                    tree.data@,
                    gs,
                    #[trigger] q[k],
                    option,
                ) by {
                    assert(q[k].prims@.to_multiset().subset_of(orig.to_multiset()));
                    assert(all_wf::<D, P>(q[k].prims@)) by {
                        assert forall|j: int| 0 <= j < q[k].prims@.len() implies #[trigger] q[k].prims@[j].prim_wf() by {
                            vstd::seq_lib::to_multiset_contains(q[k].prims@, q[k].prims@[j]);
                            assert(q[k].prims@.contains(q[k].prims@[j]));
                            vstd::seq_lib::to_multiset_contains(orig, q[k].prims@[j]);
                        }
                    }
                }
            }
        } else {
            proof {
                assert(leaf_ms(tree.data@) =~= orig.to_multiset());
                assert(tasks_ms(queue@) =~= Multiset::<P>::empty());
                assert(tasks_weight(queue@) == 0);
                assert(split_ok(tree.data@, gs, gl, gr, 0, option));
            }
        }
        while queue.len() > 0
            invariant
                D >= 1,
                big_n == orig.len(),
                big_n < usize::MAX / 4,
                tree.wf(),
                tree.data@.len() == gs.len(),
                gs.len() >= 1,
                gl.len() == gs.len(),
                gr.len() == gs.len(),
                forall|i: int| 0 <= i < tree.data@.len() ==> #[trigger] node_ok(tree.data@, gs, i, option),
                forall|i: int|
                    0 <= i < tree.data@.len() ==> #[trigger] split_ok(tree.data@, gs, gl, gr, i, option),
                forall|k: int| 0 <= k < queue@.len() ==> #[trigger] task_half_ok(gl, gr, queue@[k]),
                forall|k: int| 0 <= k < queue@.len() ==> #[trigger] task_ok(tree.data@, gs, queue@[k], option),
                forall|a: int, b: int|
                    0 <= a < queue@.len() && 0 <= b < queue@.len() && a != b ==> !((#[trigger] queue@[a]).parent
                        == (#[trigger] queue@[b]).parent && queue@[a].side == queue@[b].side),
                leaf_ms(tree.data@).add(tasks_ms(queue@)) == orig.to_multiset(),
                forall|i: int, side: ChildSide|
                    #[trigger] slot_open(tree.data@, i, side) ==> pending(queue@, i, side),
                tree.data@.len() + tasks_weight(queue@) <= 2 * big_n + 1,
                tasks_weight(queue@) >= 0,
                big_n <= 1 ==> {
                    &&& queue@.len() == 0
                    &&& tree.data@.len() == 1
                    &&& tree.data@[0].data.primitives.is_some()
                    &&& tree.data@[0].data.primitives.unwrap()@ == orig
                },
                match option.depth_control {
                    DepthControl::MaxDepth(m) => tree.max_depth <= max_int(m as int, 1),
                    DepthControl::MinPrimitives(_) => true,
                },
            decreases tasks_weight(queue@),
        {
            let ghost n0 = tree.data@;
            let ghost md0 = tree.max_depth;
            let ghost q0 = queue@;
            proof {
                lemma_tasks_front(q0);
                assert forall|k: int| 0 <= k < q0.drop_first().len() implies (
                #[trigger] q0.drop_first()[k]).prims@.len() >= 1 by {
                    assert(q0.drop_first()[k] == q0[k + 1]);
                    assert(task_ok(n0, gs, q0[k + 1], option));
                }
                lemma_tasks_weight_pos(q0.drop_first());
                assert(task_ok(n0, gs, q0[0], option));
            }
            let task = queue.pop_front().unwrap();
            let BuildTask { prims, depth, side, parent } = task;
            let ghost tp = prims@;
            proof {
                assert(crate::tree::down_ok(n0, parent as int, tree.max_depth));
            }
            let (data, halves) = Self::make_node(prims, depth, option);
            let k = tree.len();
            let _ = tree.add_child(parent, side, data);
            let ghost gs0 = gs;
            let ghost gl0 = gl;
            let ghost gr0 = gr;
            let ghost hl = if halves.is_some() {
                halves.unwrap().0@
            } else {
                Seq::<P>::empty()
            };
            let ghost hr = if halves.is_some() {
                halves.unwrap().1@
            } else {
                Seq::<P>::empty()
            };
            proof {
                gs = gs.push(tp);
                gl = gl.push(hl);
                gr = gr.push(hr);
            }
            let ghost n1 = tree.data@;
            let ghost q1 = queue@;
            proof {
                assert(q1 == q0.drop_first());
                lemma_leaf_ms_same(n0, n1.drop_last());
                assert(n1.drop_last().len() == n0.len());
                assert(node_ok(n1, gs, k as int, option)) by {
                    vstd::seq_lib::to_multiset_len(tp);
                }
                assert forall|i: int| 0 <= i < n1.len() implies #[trigger] node_ok(n1, gs, i, option) by {
                    if i < k {
                        assert(node_ok(n0, gs0, i, option));
                        assert(gs[i] == gs0[i]);
                        if i > 0 {
                            assert(crate::tree::up_ok(n0, i));
                            assert(gs[n1[i].parent as int] == gs0[n0[i].parent as int]);
                        }
                    }
                }
                assert forall|j: int| 0 <= j < q1.len() implies #[trigger] task_ok(n1, gs, q1[j], option) by {
                    assert(q1[j] == q0[j + 1]);
                    assert(task_ok(n0, gs0, q0[j + 1], option));
                    assert(!(q0[j + 1].parent == q0[0].parent && q0[j + 1].side == q0[0].side));
                    assert(gs[q1[j].parent as int] == gs0[q1[j].parent as int]);
                }
            }
            proof {
                assert forall|i: int, side: ChildSide|
                    #[trigger] slot_open(n1, i, side) && i < k implies pending(q1, i, side) by {
                    if i != parent {
                        assert(n1[i].left == n0[i].left && n1[i].right == n0[i].right);
                    }
                    assert(slot_open(n0, i, side));
                    assert(pending(q0, i, side));
                    let w = choose|w: int|
                        0 <= w < q0.len() && q0[w].parent == i && q0[w].side == side;
                    assert(w != 0);
                    assert(q1[w - 1] == q0[w]);
                }
            }
            proof {
                assert(task_half_ok(gl0, gr0, q0[0]));
                assert forall|i: int| 0 <= i < n1.len() implies #[trigger] split_ok(
                    n1,
                    gs,
                    gl,
                    gr,
                    i,
                    option,
                ) by {
                    if i < k {
                        assert(split_ok(n0, gs0, gl0, gr0, i, option));
                        assert(gs[i] == gs0[i] && gl[i] == gl0[i] && gr[i] == gr0[i]);
                        assert(crate::tree::down_ok(n0, i, md0));
                        if n0[i].left.is_some() {
                            let c = n0[i].left.unwrap() as int;
                            assert(gs[c] == gs0[c]);
                        }
                        if n0[i].right.is_some() {
                            let c = n0[i].right.unwrap() as int;
                            assert(gs[c] == gs0[c]);
                        }
                        if i != parent {
                            assert(n1[i].left == n0[i].left && n1[i].right == n0[i].right);
                        }
                    } else {
                        assert(i == k);
                    }
                }
            }
            if let Some((l, r)) = halves {
                let ghost lq = l@;
                let ghost rq = r@;
                proof {
                    vstd::seq_lib::lemma_multiset_commutative(lq, rq);
                    assert(depth < usize::MAX - 1);
                }
                queue.push_back(BuildTask { prims: l, depth: depth + 1, side: ChildSide::Left, parent: k });
                queue.push_back(BuildTask { prims: r, depth: depth + 1, side: ChildSide::Right, parent: k });
                proof {
                    let q = queue@;
                    assert(q.drop_last().drop_last() == q1);
                    assert(q.drop_last().last() == q[q.len() - 2]);
                    assert forall|j: int| 0 <= j < q.len() implies #[trigger] task_ok(n1, gs, q[j], option) by {
                        if j < q1.len() {
                            assert(q[j] == q1[j]);
                        } else {
                            assert(q[j].prims@.to_multiset().subset_of(tp.to_multiset()));
                            assert(all_wf::<D, P>(q[j].prims@)) by {
                                assert forall|x: int| 0 <= x < q[j].prims@.len() implies #[trigger] q[j].prims@[x].prim_wf() by {
                                    vstd::seq_lib::to_multiset_contains(q[j].prims@, q[j].prims@[x]);
                                    assert(q[j].prims@.contains(q[j].prims@[x]));
                                    vstd::seq_lib::to_multiset_contains(tp, q[j].prims@[x]);
                                }
                            }
                        }
                    }
                    assert forall|a: int, b: int|
                        0 <= a < q.len() && 0 <= b < q.len() && a != b implies !((#[trigger] q[a]).parent
                            == (#[trigger] q[b]).parent && q[a].side == q[b].side) by {
                        if a < q1.len() {
                            assert(q[a] == q0[a + 1]);
                            assert(task_ok(n0, gs0, q0[a + 1], option));
                        }
                        if b < q1.len() {
                            assert(q[b] == q0[b + 1]);
                            assert(task_ok(n0, gs0, q0[b + 1], option));
                        }
                        if a < q1.len() && b < q1.len() {
                            assert(queue@[a] == q0[a + 1]);
                        }
                    }
                    vstd::seq_lib::to_multiset_len(lq);
                    vstd::seq_lib::to_multiset_len(rq);
                    vstd::seq_lib::to_multiset_len(tp);
                    assert(lq.len() + rq.len() == tp.len());
                    assert(tasks_weight(q) == tasks_weight(q.drop_last()) + 2 * rq.len() - 1);
                    assert(tasks_weight(q.drop_last()) == tasks_weight(q1) + 2 * lq.len() - 1);
                    assert forall|j: int| 0 <= j < q.len() implies #[trigger] task_half_ok(
                        gl,
                        gr,
                        q[j],
                    ) by {
                        if j < q1.len() {
                            assert(q[j] == q0[j + 1]);
                            assert(task_half_ok(gl0, gr0, q0[j + 1]));
                            assert(task_ok(n0, gs0, q0[j + 1], option));
                            assert(gl[q[j].parent as int] == gl0[q[j].parent as int]);
                            assert(gr[q[j].parent as int] == gr0[q[j].parent as int]);
                        } else {
                            assert(gl[k as int] == lq);
                            assert(gr[k as int] == rq);
                        }
                    }
                    assert forall|i: int, side: ChildSide|
                        #[trigger] slot_open(n1, i, side) implies pending(q, i, side) by {
                        if i < k {
                            assert(pending(q1, i, side));
                            let w = choose|w: int|
                                0 <= w < q1.len() && q1[w].parent == i && q1[w].side == side;
                            assert(q[w] == q1[w]);
                        } else if side == ChildSide::Left {
                            assert(q[q1.len() as int].parent == i);
                        } else {
                            assert(q[q1.len() as int + 1].parent == i);
                        }
                    }
                    assert(tasks_ms(q) == tasks_ms(q.drop_last()).add(rq.to_multiset()));
                    assert(tasks_ms(q.drop_last()) == tasks_ms(q1).add(lq.to_multiset()));
                    assert(leaf_ms(n1) == leaf_ms(n1.drop_last()).add(data_ms(n1.last().data)));
                    assert(data_ms(n1.last().data) =~= Multiset::<P>::empty());
                    assert(leaf_ms(n1).add(tasks_ms(q)) =~= orig.to_multiset());
                }
            } else {
                proof {
                    assert(leaf_ms(n1).add(tasks_ms(queue@)) =~= orig.to_multiset());
                    vstd::seq_lib::to_multiset_len(tp);
                    assert forall|j: int| 0 <= j < queue@.len() implies #[trigger] task_half_ok(
                        gl,
                        gr,
                        queue@[j],
                    ) by {
                        assert(queue@[j] == q0[j + 1]);
                        assert(task_half_ok(gl0, gr0, q0[j + 1]));
                        assert(task_ok(n0, gs0, q0[j + 1], option));
                        assert(gl[queue@[j].parent as int] == gl0[queue@[j].parent as int]);
                        assert(gr[queue@[j].parent as int] == gr0[queue@[j].parent as int]);
                    }
                    assert forall|i: int, side: ChildSide|
                        #[trigger] slot_open(n1, i, side) implies pending(queue@, i, side) by {
                        if i == k {
                            assert(n1[i].data.primitives.is_some());
                        }
                    }
                }
            }
        }
        proof {
            let n = tree.data@;
            assert(tasks_ms(queue@) =~= Multiset::<P>::empty());
            assert(leaf_ms(n) =~= orig.to_multiset());
            assert forall|i: int|
                0 <= i < n.len() && (#[trigger] n[i]).data.primitives.is_none() implies n[i].left.is_some()
                && n[i].right.is_some() by {
                if n[i].left.is_none() {
                    assert(slot_open(n, i, ChildSide::Left));
                }
                if n[i].right.is_none() {
                    assert(slot_open(n, i, ChildSide::Right));
                }
            }
            assert forall|i: int| 0 <= i < n.len() implies exists|s: Seq<P>|
                s.to_multiset() == subtree_ms(n, i) && (#[trigger] n[i]).data.bv@ == box_of_seq::<
                    D,
                    P,
                >(s) by {
                lemma_subtree_ms(n, tree.max_depth, gs, gl, gr, option, i);
                assert(node_ok(n, gs, i, option));
                assert(gs[i].to_multiset() == subtree_ms(n, i) && n[i].data.bv@ == box_of_seq::<
                    D,
                    P,
                >(gs[i]));
            }
            assert forall|i: int|
                0 <= i < n.len() && (#[trigger] n[i]).data.primitives.is_none() implies exists|
                s: Seq<P>,
                sl: Seq<P>,
                sr: Seq<P>,
            |
                #[trigger] split_rule::<D, P>(s, sl, sr, option.split_method) && sl.len() >= 1
                    && sr.len() >= 1 && !(option.split_method == SplitMethod::Mid && same_center::<
                    D,
                    P,
                >(s)) && s.to_multiset() == subtree_ms(n, i) && sl.to_multiset() == subtree_ms(
                    n,
                    n[i].left.unwrap() as int,
                )
                    && sr.to_multiset() == subtree_ms(n, n[i].right.unwrap() as int) by {
                assert(split_ok(n, gs, gl, gr, i, option));
                assert(crate::tree::down_ok(n, i, tree.max_depth));
                let l = n[i].left.unwrap() as int;
                let r = n[i].right.unwrap() as int;
                lemma_subtree_ms(n, tree.max_depth, gs, gl, gr, option, i);
                lemma_subtree_ms(n, tree.max_depth, gs, gl, gr, option, l);
                lemma_subtree_ms(n, tree.max_depth, gs, gl, gr, option, r);
                assert(split_rule::<D, P>(gs[i], gs[l], gs[r], option.split_method));
            }
            assert forall|i: int|
                0 <= i < n.len() && (#[trigger] n[i]).data.primitives.is_none() implies !option.depth_control.stops(
                n[i].depth as nat,
                subtree_ms(n, i).len(),
            ) by {
                lemma_subtree_ms(n, tree.max_depth, gs, gl, gr, option, i);
                assert(split_ok(n, gs, gl, gr, i, option));
                vstd::seq_lib::to_multiset_len(gs[i]);
            }
            assert forall|c: int| 0 < c < n.len() implies (#[trigger] n[n[c].parent as int]).data.bv@.covers(
                n[c].data.bv@,
            ) by {
                assert(node_ok(n, gs, c, option));
                assert(crate::tree::up_ok(n, c));
                assert(node_ok(n, gs, n[c].parent as int, option));
                lemma_box_subset::<D, P>(gs[n[c].parent as int], gs[c]);
            }
            assert forall|i: int| 0 <= i < n.len() implies {
                &&& (#[trigger] n[i]).data.bv.wf()
                &&& n[i].data.primitives.is_some() ==> {
                    &&& n[i].left.is_none()
                    &&& n[i].right.is_none()
                    &&& all_wf::<D, P>(n[i].data.primitives.unwrap()@)
                }
            } by {
                assert(node_ok(n, gs, i, option));
            }
            assert forall|i: int|
                0 <= i < n.len() && (#[trigger] n[i]).data.primitives.is_some() implies option.depth_control.stops(
                n[i].depth as nat,
                n[i].data.primitives.unwrap()@.len(),
            ) || (option.split_method == SplitMethod::Mid && same_center::<D, P>(
                n[i].data.primitives.unwrap()@,
            )) by {
                assert(node_ok(n, gs, i, option));
            }
            assert forall|i: int|
                0 <= i < n.len() && (#[trigger] n[i]).data.primitives.is_some() implies match option.depth_control {
                DepthControl::MinPrimitives(m) => n[i].data.primitives.unwrap()@.len() <= max_int(
                    m as int,
                    1,
                ) || (option.split_method == SplitMethod::Mid && same_center::<D, P>(
                    n[i].data.primitives.unwrap()@,
                )),
                DepthControl::MaxDepth(_) => true,
            } by {
                assert(node_ok(n, gs, i, option));
            }
        }
        Bvh { tree }
    }
}

/// Whether a query reaches node `i`: the test `pb` passes on its box and
/// on the box of every node above it.
pub open spec fn reached<const D: usize, P>(
    n: Seq<Node<BvhNodeData<D, P>>>,
    pb: spec_fn(AABB<D>) -> bool,
    i: int,
) -> bool
    decreases i,
{
    if i <= 0 {
        i == 0 && n.len() > 0 && pb(n[0].data.bv)
    } else if i < n.len() && n[i].parent < i {
        reached(n, pb, n[i].parent as int) && pb(n[i].data.bv)
    } else {
        false
    }
}

/// The first primitive of `s` that passes `pf`, if any, as a sequence of
/// at most one.
pub open spec fn first_hit<P>(s: Seq<P>, pf: spec_fn(P) -> bool) -> Seq<P>
    decreases s.len(),
{
    if s.len() == 0 {
        Seq::empty()
    } else if pf(s[0]) {
        seq![s[0]]
    } else {
        first_hit(s.drop_first(), pf)
    }
}

/// What node `i` gives a query: for a reached leaf, its first primitive
/// that passes `pf`; nothing otherwise.
pub open spec fn hit_at<const D: usize, P>(
    n: Seq<Node<BvhNodeData<D, P>>>,
    pb: spec_fn(AABB<D>) -> bool,
    pf: spec_fn(P) -> bool,
    i: int,
) -> Seq<P> {
    if 0 <= i < n.len() && reached(n, pb, i) && n[i].data.primitives.is_some() {
        first_hit(n[i].data.primitives.unwrap()@, pf)
    } else {
        Seq::empty()
    }
}

/// What a query gives over the nodes of `order`, in that order.
pub open spec fn hits_over<const D: usize, P>(
    n: Seq<Node<BvhNodeData<D, P>>>,
    pb: spec_fn(AABB<D>) -> bool,
    pf: spec_fn(P) -> bool,
    order: Seq<usize>,
) -> Seq<P>
    decreases order.len(),
{
    if order.len() == 0 {
        Seq::empty()
    } else {
        hits_over(n, pb, pf, order.drop_last()) + hit_at(n, pb, pf, order.last() as int)
    }
}

/// What a query gives over the whole tree: the hits of its nodes, taken in
/// pre-order.
pub open spec fn hits<const D: usize, P>(
    n: Seq<Node<BvhNodeData<D, P>>>,
    pb: spec_fn(AABB<D>) -> bool,
    pf: spec_fn(P) -> bool,
) -> Seq<P> {
    hits_over(n, pb, pf, preorder(n, 0))
}

proof fn lemma_hits_over_concat<const D: usize, P>(
    n: Seq<Node<BvhNodeData<D, P>>>,
    pb: spec_fn(AABB<D>) -> bool,
    pf: spec_fn(P) -> bool,
    a: Seq<usize>,
    b: Seq<usize>,
)
    ensures
        hits_over(n, pb, pf, a + b) == hits_over(n, pb, pf, a) + hits_over(n, pb, pf, b),
    decreases b.len(),
{
    if b.len() == 0 {
        assert(a + b =~= a);
        assert(hits_over(n, pb, pf, a) + hits_over(n, pb, pf, b) =~= hits_over(n, pb, pf, a));
    } else {
        lemma_hits_over_concat(n, pb, pf, a, b.drop_last());
        assert((a + b).drop_last() =~= a + b.drop_last());
        assert((a + b).last() == b.last());
        assert(hits_over(n, pb, pf, a + b) =~= hits_over(n, pb, pf, a) + hits_over(n, pb, pf, b));
    }
}

/// The hits of a subtree: those of its root, then of its left subtree, then
/// of its right subtree.
proof fn lemma_hits_unfold<const D: usize, P>(
    n: Seq<Node<BvhNodeData<D, P>>>,
    max_depth: usize,
    pb: spec_fn(AABB<D>) -> bool,
    pf: spec_fn(P) -> bool,
    i: int,
)
    requires
        crate::tree::nodes_wf(n, max_depth),
        n.len() <= usize::MAX,
        0 <= i < n.len(),
    ensures
        hits_over(n, pb, pf, preorder(n, i)) == hit_at(n, pb, pf, i) + hits_over(
            n,
            pb,
            pf,
            slot_preorder(n, n[i].left),
        ) + hits_over(n, pb, pf, slot_preorder(n, n[i].right)),
{
    lemma_preorder_unfold(n, max_depth, i);
    let l = slot_preorder(n, n[i].left);
    let r = slot_preorder(n, n[i].right);
    let head = seq![i as usize];
    assert(preorder(n, i) == head + l + r);
    lemma_hits_over_concat(n, pb, pf, head + l, r);
    lemma_hits_over_concat(n, pb, pf, head, l);
    assert(head.drop_last() =~= Seq::<usize>::empty());
    assert(hits_over(n, pb, pf, Seq::<usize>::empty()) =~= Seq::<P>::empty());
    assert(head.last() as int == i);
    assert(hits_over(n, pb, pf, head) =~= hit_at(n, pb, pf, i));
}

/// A subtree whose root the query does not reach gives nothing.
proof fn lemma_unreached_subtree<const D: usize, P>(
    n: Seq<Node<BvhNodeData<D, P>>>,
    max_depth: usize,
    pb: spec_fn(AABB<D>) -> bool,
    pf: spec_fn(P) -> bool,
    c: int,
)
    requires
        crate::tree::nodes_wf(n, max_depth),
        n.len() <= usize::MAX,
        0 <= c < n.len(),
        !reached(n, pb, c),
    ensures
        hits_over(n, pb, pf, preorder(n, c)) == Seq::<P>::empty(),
    decreases n.len() - c,
{
    lemma_hits_unfold(n, max_depth, pb, pf, c);
    assert(crate::tree::down_ok(n, c, max_depth));
    let l = n[c].left;
    let r = n[c].right;
    if l.is_some() {
        let x = l.unwrap() as int;
        assert(crate::tree::up_ok(n, x));
        lemma_unreached_subtree(n, max_depth, pb, pf, x);
    }
    if r.is_some() {
        let x = r.unwrap() as int;
        assert(crate::tree::up_ok(n, x));
        lemma_unreached_subtree(n, max_depth, pb, pf, x);
    }
    assert(hits_over(n, pb, pf, Seq::<usize>::empty()) =~= Seq::<P>::empty());
    assert(hit_at(n, pb, pf, c) =~= Seq::<P>::empty());
    assert(hits_over(n, pb, pf, preorder(n, c)) =~= Seq::<P>::empty());
}

/// An empty sequence holds nothing.
proof fn lemma_empty_ms<A>(s: Seq<A>)
    requires
        s.len() == 0,
    ensures
        s.to_multiset() == Multiset::<A>::empty(),
{
    vstd::seq_lib::to_multiset_len(s);
    vstd::multiset::lemma_multiset_empty_len(s.to_multiset());
}

/// The hits still owed by the subtrees of a query's pending nodes.
spec fn queue_hits<const D: usize, P>(
    n: Seq<Node<BvhNodeData<D, P>>>,
    pb: spec_fn(AABB<D>) -> bool,
    pf: spec_fn(P) -> bool,
    q: Seq<usize>,
) -> Multiset<P>
    decreases q.len(),
{
    if q.len() == 0 {
        Multiset::empty()
    } else {
        queue_hits(n, pb, pf, q.drop_last()).add(
            hits_over(n, pb, pf, preorder(n, q.last() as int)).to_multiset(),
        )
    }
}

proof fn lemma_queue_hits_front<const D: usize, P>(
    n: Seq<Node<BvhNodeData<D, P>>>,
    pb: spec_fn(AABB<D>) -> bool,
    pf: spec_fn(P) -> bool,
    q: Seq<usize>,
)
    requires
        q.len() > 0,
    ensures
        queue_hits(n, pb, pf, q) == hits_over(n, pb, pf, preorder(n, q[0] as int)).to_multiset().add(
            queue_hits(n, pb, pf, q.drop_first()),
        ),
    decreases q.len(),
{
    broadcast use vstd::multiset::group_multiset_axioms;

    if q.len() > 1 {
        lemma_queue_hits_front(n, pb, pf, q.drop_last());
        assert(q.drop_last().drop_first() == q.drop_first().drop_last());
        assert(q.drop_last()[0] == q[0]);
        assert(q.drop_first().last() == q.last());
        assert(queue_hits(n, pb, pf, q.drop_first()) == queue_hits(
            n,
            pb,
            pf,
            q.drop_first().drop_last(),
        ).add(hits_over(n, pb, pf, preorder(n, q.drop_first().last() as int)).to_multiset()));
        assert(queue_hits(n, pb, pf, q) =~= hits_over(n, pb, pf, preorder(n, q[0] as int)).to_multiset().add(
            queue_hits(n, pb, pf, q.drop_first()),
        ));
    } else {
        assert(q.drop_first().len() == 0);
        assert(q.drop_last().len() == 0);
        assert(q.last() == q[0]);
        assert(queue_hits(n, pb, pf, q.drop_last()) == Multiset::<P>::empty());
        assert(queue_hits(n, pb, pf, q.drop_first()) == Multiset::<P>::empty());
        assert(queue_hits(n, pb, pf, q) =~= hits_over(n, pb, pf, preorder(n, q[0] as int)).to_multiset().add(
            queue_hits(n, pb, pf, q.drop_first()),
        ));
    }
}

/// The references of `s` read as values.
pub open spec fn derefs<P>(s: Seq<&P>) -> Seq<P> {
    Seq::new(s.len(), |i: int| *s[i])
}

/// `f` answers like the predicate `pf` on primitives, against query `q`.
pub open spec fn computes_prim<I, P, F: Fn(&I, &P) -> bool>(
    f: F,
    q: I,
    pf: spec_fn(P) -> bool,
) -> bool {
    forall|p: P, r: bool| #[trigger] f.ensures((&q, &p), r) ==> r == pf(p)
}

/// `f` answers like the predicate `pb` on boxes, against query `q`.
pub open spec fn computes_box<const D: usize, I, F: Fn(&I, &AABB<D>) -> bool>(
    f: F,
    q: I,
    pb: spec_fn(AABB<D>) -> bool,
) -> bool {
    forall|b: AABB<D>, r: bool| #[trigger] f.ensures((&q, &b), r) ==> r == pb(b)
}

/// What leaf `i` gives a query that visits it: its first primitive that
/// passes `pf`, if any; an inner node gives nothing.
pub open spec fn leaf_hit<const D: usize, P>(
    n: Seq<Node<BvhNodeData<D, P>>>,
    pf: spec_fn(P) -> bool,
    i: int,
) -> Seq<P> {
    if 0 <= i < n.len() && n[i].data.primitives.is_some() {
        first_hit(n[i].data.primitives.unwrap()@, pf)
    } else {
        Seq::empty()
    }
}

/// What a query gives visiting the nodes of `order`, in that order.
pub open spec fn hits_along<const D: usize, P>(
    n: Seq<Node<BvhNodeData<D, P>>>,
    pf: spec_fn(P) -> bool,
    order: Seq<usize>,
) -> Seq<P>
    decreases order.len(),
{
    if order.len() == 0 {
        Seq::empty()
    } else {
        leaf_hit(n, pf, order[0] as int) + hits_along(n, pf, order.drop_first())
    }
}

/// A query walks below a node when the box of that node passes `pb`.
pub open spec fn box_keep<const D: usize, P>(
    n: Seq<Node<BvhNodeData<D, P>>>,
    pb: spec_fn(AABB<D>) -> bool,
) -> spec_fn(int) -> bool {
    |c: int| pb(n[c].data.bv)
}

/// Where a query starts: at the root when its box passes `pb`, nowhere
/// otherwise.
pub open spec fn root_queue<const D: usize, P>(
    n: Seq<Node<BvhNodeData<D, P>>>,
    pb: spec_fn(AABB<D>) -> bool,
) -> Seq<usize> {
    if n.len() > 0 && pb(n[0].data.bv) {
        seq![0usize]
    } else {
        Seq::empty()
    }
}

/// The primitives a query finds, in the order it finds them: breadth first
/// from the root, below boxes that pass `pb`, the first primitive passing
/// `pf` of each leaf it visits.
pub open spec fn query_hits<const D: usize, P>(
    n: Seq<Node<BvhNodeData<D, P>>>,
    pb: spec_fn(AABB<D>) -> bool,
    pf: spec_fn(P) -> bool,
) -> Seq<P> {
    hits_along(n, pf, bfs_walk(n, box_keep(n, pb), root_queue(n, pb)))
}

/// What a query with tests computing `pb` and `pf` returns: the hits of the
/// leaves it visits, in breadth-first order; as a multiset, the hits of all
/// leaves that the box test reaches.
pub open spec fn query_result<const D: usize, P>(
    n: Seq<Node<BvhNodeData<D, P>>>,
    pb: spec_fn(AABB<D>) -> bool,
    pf: spec_fn(P) -> bool,
    found: Seq<P>,
) -> bool {
    &&& found == query_hits(n, pb, pf)
    &&& found.to_multiset() == hits(n, pb, pf).to_multiset()
}

/// What a breadth-first query keeps true: every pending node is reached,
/// and what was found plus what the pending subtrees owe is all the hits.
spec fn query_inv<const D: usize, P>(
    n: Seq<Node<BvhNodeData<D, P>>>,
    pb: spec_fn(AABB<D>) -> bool,
    pf: spec_fn(P) -> bool,
    q: Seq<usize>,
    found: Seq<P>,
) -> bool {
    &&& forall|k: int| 0 <= k < q.len() ==> #[trigger] reached(n, pb, q[k] as int)
    &&& hits(n, pb, pf).to_multiset() == found.to_multiset().add(queue_hits(n, pb, pf, q))
    &&& query_hits(n, pb, pf) == found + hits_along(n, pf, bfs_walk(n, box_keep(n, pb), q))
}

/// The first primitive of `prims` that `fi` accepts for `q`.
fn first_match<'a, I, P, F1: Fn(&I, &P) -> bool>(prims: &'a Vec<P>, q: &I, fi: &F1) -> (r: Option<&'a P>)
    requires
        forall|p: &P| #[trigger] fi.requires((q, p)),
    ensures
        forall|pf: spec_fn(P) -> bool|
            computes_prim(*fi, *q, pf) ==> #[trigger] first_hit(prims@, pf) == match r {
                Some(p) => seq![*p],
                None => Seq::<P>::empty(),
            },
{
    let mut j: usize = 0;
    proof {
        assert(prims@.skip(0) =~= prims@);
    }
    while j < prims.len()
        invariant
            j <= prims@.len(),
            forall|p: &P| #[trigger] fi.requires((q, p)),
            forall|pf: spec_fn(P) -> bool|
                computes_prim(*fi, *q, pf) ==> #[trigger] first_hit(prims@, pf) == first_hit(
                    prims@.skip(j as int),
                    pf,
                ),
        decreases prims@.len() - j,
    {
        let hit = fi(q, &prims[j]);
        proof {
            assert forall|pf: spec_fn(P) -> bool|
                computes_prim(*fi, *q, pf) implies #[trigger] first_hit(prims@, pf) == (if hit {
                seq![prims@[j as int]]
            } else {
                first_hit(prims@.skip(j as int + 1), pf)
            }) by {
                assert(hit == pf(prims@[j as int]));
                assert(prims@.skip(j as int)[0] == prims@[j as int]);
                assert(prims@.skip(j as int).drop_first() =~= prims@.skip(j as int + 1));
            }
        }
        if hit {
            return Some(&prims[j]);
        }
        j += 1;
    }
    proof {
        assert(prims@.skip(prims@.len() as int) =~= Seq::<P>::empty());
    }
    None
}

/// A node of a hierarchy as its users see it.
pub struct BvhNode<'a, const D: usize, P> {
    pub parent: usize,
    pub depth: usize,
    pub left: Option<usize>,
    pub right: Option<usize>,
    pub bv: &'a AABB<D>,
    pub primitives: Option<&'a [P]>,
}

impl<'a, const D: usize, P> BvhNode<'a, D, P> {
    /// Whether this is a leaf.
    pub fn is_leaf(&self) -> (r: bool)
        ensures
            r == self.primitives.is_some(),
    {
        self.primitives.is_some()
    }

    /// Whether this is an inner node.
    pub fn is_node(&self) -> (r: bool)
        ensures
            r == self.primitives.is_none(),
    {
        !self.is_leaf()
    }

    /// Whether this view shows `node`.
    pub open spec fn shows(&self, node: &Node<BvhNodeData<D, P>>) -> bool {
        &&& self.parent == node.parent
        &&& self.depth == node.depth
        &&& self.left == node.left
        &&& self.right == node.right
        &&& *self.bv == node.data.bv
        &&& self.primitives.is_some() == node.data.primitives.is_some()
        &&& self.primitives.is_some() ==> self.primitives.unwrap()@
            == node.data.primitives.unwrap()@
    }

    /// The view of an arena node.
    pub fn from_node(node: &'a Node<BvhNodeData<D, P>>) -> (r: Self)
        ensures
            r.shows(node),
    {
        let primitives = match &node.data.primitives {
            Some(v) => Some(v.as_slice()),
            None => None,
        };
        BvhNode {
            parent: node.parent,
            depth: node.depth,
            left: node.left,
            right: node.right,
            bv: &node.data.bv,
            primitives,
        }
    }
}

/// A walk over a hierarchy's nodes in the order `IT` selects.
pub struct BvhIter<'a, const D: usize, P, IT: IterType> {
    pub tree_iter: TreeIterator<'a, BvhNodeData<D, P>, IT>,
}

impl<'a, const D: usize, P, IT: IterType> BvhIter<'a, D, P, IT> {
    /// The next node of the walk and its index, in the order of the
    /// underlying tree walk.
    pub fn next(&mut self) -> (r: Option<(BvhNode<'a, D, P>, usize)>)
        requires
            old(self).tree_iter.wf(),
        ensures
            final(self).tree_iter.wf(),
            final(self).tree_iter.tree == old(self).tree_iter.tree,
            r.is_some() <==> old(self).tree_iter.remaining() > 0,
            r.is_some() ==> final(self).tree_iter.remaining() + 1 == old(
                self,
            ).tree_iter.remaining(),
            r.is_some() ==> r.unwrap().1 < old(self).tree_iter.tree.data@.len() && r.unwrap().0.shows(
                &old(self).tree_iter.tree.data@[r.unwrap().1 as int],
            ),
            IT::order_spec() != Order::Bfs && r.is_some() ==> r.unwrap().1 == old(
                self,
            ).tree_iter.rest()[0] && final(self).tree_iter.rest() == old(
                self,
            ).tree_iter.rest().drop_first(),
            IT::order_spec() == Order::Bfs && r.is_some() ==> {
                let q = old(self).tree_iter.stack@;
                let i = q[0];
                let node = old(self).tree_iter.tree.data@[i as int];
                &&& r.unwrap().1 == i
                &&& final(self).tree_iter.stack@ == q.drop_first() + (if node.left.is_some() {
                    seq![node.left.unwrap()]
                } else {
                    Seq::empty()
                }) + (if node.right.is_some() {
                    seq![node.right.unwrap()]
                } else {
                    Seq::empty()
                })
            },
    {
        match self.tree_iter.next() {
            Some((node, index)) => Some((BvhNode::from_node(node), index)),
            None => None,
        }
    }
}

impl<const D: usize, P> Bvh<D, P> {
    /// The depth of the deepest node.
    pub fn max_depth(&self) -> (r: usize)
        ensures
            r == self.tree.max_depth,
    {
        self.tree.max_depth
    }

    /// The node at `index`, if there is one.
    pub fn get_node<'a>(&'a self, index: usize) -> (r: Option<BvhNode<'a, D, P>>)
        ensures
            index < self.tree.data@.len() ==> r.is_some() && r.unwrap().shows(
                &self.tree.data@[index as int],
            ),
            index >= self.tree.data@.len() ==> r.is_none(),
    {
        match self.tree.get_node(index) {
            Some(node) => Some(BvhNode::from_node(node)),
            None => None,
        }
    }

    /// The root.
    pub fn get_root<'a>(&'a self) -> (r: BvhNode<'a, D, P>)
        requires
            self.tree.data@.len() >= 1,
        ensures
            r.shows(&self.tree.data@[0]),
    {
        self.get_node(0).unwrap()
    }

    /// A walk by increasing index from `from`.
    pub fn iter_rand<'a>(&'a self, from: usize) -> (r: BvhIter<'a, D, P, PushOrder>)
        requires
            self.tree.wf(),
        ensures
            r.tree_iter.wf(),
            r.tree_iter.tree == &self.tree,
            r.tree_iter.rest() == index_run(from as int, self.tree.data@.len() as int),
    {
        BvhIter { tree_iter: self.tree.iter::<PushOrder>(from) }
    }

    /// A breadth-first walk from `from`.
    pub fn iter_bfs<'a>(&'a self, from: usize) -> (r: BvhIter<'a, D, P, Bfs>)
        requires
            self.tree.wf(),
        ensures
            r.tree_iter.wf(),
            r.tree_iter.tree == &self.tree,
            from < self.tree.data@.len() ==> r.tree_iter.stack@ == seq![from],
            from >= self.tree.data@.len() ==> r.tree_iter.stack@ == Seq::<usize>::empty(),
    {
        BvhIter { tree_iter: self.tree.iter::<Bfs>(from) }
    }

    /// A depth-first walk from `from`, left before right.
    pub fn iter_dfs<'a>(&'a self, from: usize) -> (r: BvhIter<'a, D, P, Dfs>)
        requires
            self.tree.wf(),
        ensures
            r.tree_iter.wf(),
            r.tree_iter.tree == &self.tree,
            r.tree_iter.rest() == preorder(self.tree.data@, from as int),
    {
        let r = BvhIter { tree_iter: self.tree.iter::<Dfs>(from) };
        proof {
            let n = self.tree.data@;
            if from < n.len() {
                assert(r.tree_iter.stack@.drop_last() =~= Seq::<usize>::empty());
                assert(stack_rest(n, Seq::<usize>::empty()) =~= Seq::<usize>::empty());
                assert(stack_rest(n, r.tree_iter.stack@) =~= preorder(n, from as int));
            } else {
                assert(preorder(n, from as int) =~= Seq::<usize>::empty());
            }
        }
        r
    }

    /// The primitives a query finds, breadth first from the root: a node is
    /// reached when its box passes `fbv` and its parent was reached (the
    /// root needs only the first), so a failing box prunes its whole
    /// subtree; each reached leaf gives its first primitive that passes
    /// `fi`. Whatever predicates the two tests compute, the results are
    /// `query_hits` for them: breadth first, left before right.
    pub fn intersect_by<'a, F1, F2, I>(&'a self, intersecter: I, fi: F1, fbv: F2) -> (r: Vec<&'a P>)
        where
            F1: Fn(&I, &P) -> bool,
            F2: Fn(&I, &AABB<D>) -> bool,
        requires
            self.tree.wf(),
            forall|p: &P| #[trigger] fi.requires((&intersecter, p)),
            forall|b: &AABB<D>| #[trigger] fbv.requires((&intersecter, b)),
        ensures
            forall|pf: spec_fn(P) -> bool, pb: spec_fn(AABB<D>) -> bool|
                computes_prim(fi, intersecter, pf) && computes_box(fbv, intersecter, pb)
                    ==> #[trigger] query_result(self.tree.data@, pb, pf, derefs(r@)),
    {
        broadcast use vstd::multiset::group_multiset_axioms;
        broadcast use vstd::seq_lib::group_to_multiset_ensures;

        let ghost n = self.tree.data@;
        let ghost md = self.tree.max_depth;
        let mut out: Vec<&'a P> = Vec::new();
        if self.tree.data.len() == 0 {
            proof {
                assert(preorder(n, 0) =~= Seq::<usize>::empty());
                assert forall|pf: spec_fn(P) -> bool, pb: spec_fn(AABB<D>) -> bool|
                    computes_prim(fi, intersecter, pf) && computes_box(
                        fbv,
                        intersecter,
                        pb,
                    ) implies #[trigger] query_result(n, pb, pf, derefs(out@)) by {
                    assert(derefs(out@) =~= Seq::<P>::empty());
                    assert(root_queue(n, pb) =~= Seq::<usize>::empty());
                    assert(bfs_walk(n, box_keep(n, pb), Seq::<usize>::empty()) =~= Seq::<usize>::empty());
                    assert(query_hits(n, pb, pf) =~= Seq::<P>::empty());
                }
            }
            return out;
        }
        let len0 = self.tree.data.len();
        let passes = fbv(&intersecter, &self.tree.data[0].data.bv);
        if !passes {
            proof {
                assert forall|pf: spec_fn(P) -> bool, pb: spec_fn(AABB<D>) -> bool|
                    computes_prim(fi, intersecter, pf) && computes_box(
                        fbv,
                        intersecter,
                        pb,
                    ) implies #[trigger] query_result(n, pb, pf, derefs(out@)) by {
                    assert(fbv.ensures((&intersecter, &n[0].data.bv), passes));
                    lemma_unreached_subtree(n, md, pb, pf, 0);
                    assert(derefs(out@) =~= Seq::<P>::empty());
                    assert(root_queue(n, pb) =~= Seq::<usize>::empty());
                    assert(bfs_walk(n, box_keep(n, pb), Seq::<usize>::empty()) =~= Seq::<usize>::empty());
                    assert(query_hits(n, pb, pf) =~= Seq::<P>::empty());
                }
            }
            return out;
        }
        let mut queue: VecDeque<usize> = VecDeque::new();
        queue.push_back(0);
        let len = self.tree.data.len();
        proof {
            assert forall|pf: spec_fn(P) -> bool, pb: spec_fn(AABB<D>) -> bool|
                computes_prim(fi, intersecter, pf) && computes_box(
                    fbv,
                    intersecter,
                    pb,
                ) implies #[trigger] query_inv(n, pb, pf, queue@, derefs(out@)) by {
                assert(fbv.ensures((&intersecter, &n[0].data.bv), passes));
                assert(queue@[0] == 0);
                assert(reached(n, pb, 0));
                assert(queue@.drop_last() =~= Seq::<usize>::empty());
                assert(queue_hits(n, pb, pf, queue@.drop_last()) == Multiset::<P>::empty());
                assert(queue_hits(n, pb, pf, queue@) =~= hits(n, pb, pf).to_multiset());
                assert(derefs(out@) =~= Seq::<P>::empty());
                assert(derefs(out@).to_multiset() =~= Multiset::<P>::empty());
                assert(root_queue(n, pb) == queue@);
                assert(query_hits(n, pb, pf) =~= derefs(out@) + hits_along(
                    n,
                    pf,
                    bfs_walk(n, box_keep(n, pb), queue@),
                ));
            }
            assert(queue@.drop_last() =~= Seq::<usize>::empty());
            assert(queue_size(n, Seq::<usize>::empty()) == 0);
        }
        while queue.len() > 0
            invariant
                n == self.tree.data@,
                len == n.len(),
                md == self.tree.max_depth,
                self.tree.wf(),
                forall|p: &P| #[trigger] fi.requires((&intersecter, p)),
                forall|b: &AABB<D>| #[trigger] fbv.requires((&intersecter, b)),
                forall|k: int| 0 <= k < queue@.len() ==> #[trigger] queue@[k] < n.len(),
                forall|pf: spec_fn(P) -> bool, pb: spec_fn(AABB<D>) -> bool|
                    computes_prim(fi, intersecter, pf) && computes_box(fbv, intersecter, pb)
                        ==> #[trigger] query_inv(n, pb, pf, queue@, derefs(out@)),
            decreases queue_size(n, queue@),
        {
            let ghost q0 = queue@;
            let ghost out0 = out@;
            proof {
                crate::tree::lemma_queue_size_front(n, q0);
            }
            let i = queue.pop_front().unwrap();
            let node = &self.tree.data[i];
            proof {
                lemma_preorder_unfold(n, md, i as int);
                assert(crate::tree::down_ok(n, i as int, md));
            }
            let found = match &node.data.primitives {
                Some(prims) => first_match(prims, &intersecter, &fi),
                None => None,
            };
            if let Some(p) = found {
                out.push(p);
            }
            let ghost q1 = queue@;
            let mut take_left = false;
            if let Some(l) = node.left {
                take_left = fbv(&intersecter, &self.tree.data[l].data.bv);
                if take_left {
                    queue.push_back(l);
                    assert(queue@.drop_last() =~= q1);
                }
            }
            let ghost q2 = queue@;
            assert(take_left ==> node.left.is_some() && q2 == q1.push(node.left.unwrap()));
            assert(!take_left ==> q2 == q1);
            let mut take_right = false;
            if let Some(r) = node.right {
                take_right = fbv(&intersecter, &self.tree.data[r].data.bv);
                if take_right {
                    queue.push_back(r);
                    assert(queue@.drop_last() =~= q2);
                }
            }
            assert(take_right ==> node.right.is_some() && queue@ == q2.push(node.right.unwrap()));
            assert(!take_right ==> queue@ == q2);
            proof {
                assert forall|k: int| 0 <= k < queue@.len() implies #[trigger] queue@[k] < n.len() by {
                    if k < q1.len() {
                        assert(queue@[k] == q0[k + 1]);
                    }
                }
                assert forall|pf: spec_fn(P) -> bool, pb: spec_fn(AABB<D>) -> bool|
                    computes_prim(fi, intersecter, pf) && computes_box(
                        fbv,
                        intersecter,
                        pb,
                    ) implies #[trigger] query_inv(n, pb, pf, queue@, derefs(out@)) by {
                    assert(query_inv(n, pb, pf, q0, derefs(out0)));
                    assert(reached(n, pb, q0[0] as int));
                    lemma_queue_hits_front(n, pb, pf, q0);
                    lemma_hits_unfold(n, md, pb, pf, i as int);
                    let hl = hits_over(n, pb, pf, slot_preorder(n, node.left));
                    let hr = hits_over(n, pb, pf, slot_preorder(n, node.right));
                    let hi = hit_at(n, pb, pf, i as int);
                    if found.is_some() {
                        assert(hi =~= seq![*found.unwrap()]);
                    } else {
                        assert(hi =~= Seq::<P>::empty());
                    }
                    assert(derefs(out@) =~= derefs(out0) + hi);
                    vstd::seq_lib::lemma_multiset_commutative(derefs(out0), hi);
                    vstd::seq_lib::lemma_multiset_commutative(hi + hl, hr);
                    vstd::seq_lib::lemma_multiset_commutative(hi, hl);
                    if node.left.is_some() {
                        let c = node.left.unwrap() as int;
                        assert(crate::tree::up_ok(n, c));
                        assert(fbv.ensures((&intersecter, &n[c].data.bv), take_left));
                        if !take_left {
                            lemma_unreached_subtree(n, md, pb, pf, c);
                        }
                    } else {
                        assert(hl =~= Seq::<P>::empty());
                    }
                    if node.right.is_some() {
                        let c = node.right.unwrap() as int;
                        assert(crate::tree::up_ok(n, c));
                        assert(fbv.ensures((&intersecter, &n[c].data.bv), take_right));
                        if !take_right {
                            lemma_unreached_subtree(n, md, pb, pf, c);
                        }
                    } else {
                        assert(hr =~= Seq::<P>::empty());
                    }
                    if !take_left {
                        assert(q2 == q1);
                        assert(hl =~= Seq::<P>::empty());
                        lemma_empty_ms(hl);
                    } else {
                        assert(q2.drop_last() =~= q1);
                        assert(slot_preorder(n, node.left) == preorder(n, q2.last() as int));
                        assert(queue_hits(n, pb, pf, q2) == queue_hits(n, pb, pf, q2.drop_last()).add(
                            hits_over(n, pb, pf, preorder(n, q2.last() as int)).to_multiset(),
                        ));
                    }
                    assert(queue_hits(n, pb, pf, q2) == queue_hits(n, pb, pf, q1).add(
                        hl.to_multiset(),
                    ));
                    if !take_right {
                        assert(queue@ == q2);
                        assert(hr =~= Seq::<P>::empty());
                        lemma_empty_ms(hr);
                    } else {
                        assert(queue@.drop_last() =~= q2);
                        assert(slot_preorder(n, node.right) == preorder(n, queue@.last() as int));
                        assert(queue_hits(n, pb, pf, queue@) == queue_hits(
                            n,
                            pb,
                            pf,
                            queue@.drop_last(),
                        ).add(hits_over(n, pb, pf, preorder(n, queue@.last() as int)).to_multiset()));
                    }
                    assert(queue_hits(n, pb, pf, queue@) == queue_hits(n, pb, pf, q2).add(
                        hr.to_multiset(),
                    ));
                    lemma_kept_children(n, md, box_keep(n, pb), i as int);
                    if node.left.is_some() {
                        assert(box_keep(n, pb)(node.left.unwrap() as int) == take_left);
                    }
                    if node.right.is_some() {
                        assert(box_keep(n, pb)(node.right.unwrap() as int) == take_right);
                    }
                    assert(queue@ =~= q0.drop_first() + kept_children(n, box_keep(n, pb), i as int));
                    assert(bfs_walk(n, box_keep(n, pb), q0) == seq![i] + bfs_walk(
                        n,
                        box_keep(n, pb),
                        queue@,
                    ));
                    let w = bfs_walk(n, box_keep(n, pb), queue@);
                    assert((seq![i] + w).drop_first() =~= w);
                    assert((seq![i] + w)[0] == i);
                    assert(leaf_hit(n, pf, i as int) == hi);
                    assert(hits_along(n, pf, seq![i] + w) == hi + hits_along(n, pf, w));
                    assert(query_hits(n, pb, pf) =~= derefs(out@) + hits_along(n, pf, w));
                    assert forall|k: int|
                        0 <= k < queue@.len() implies #[trigger] reached(n, pb, queue@[k] as int) by {
                        if k < q1.len() {
                            assert(queue@[k] == q0[k + 1]);
                        }
                    }
                    assert(hits(n, pb, pf).to_multiset() =~= derefs(out@).to_multiset().add(
                        queue_hits(n, pb, pf, queue@),
                    ));
                }
                if take_left {
                    assert(queue_size(n, q2) == queue_size(n, q1) + preorder(
                        n,
                        node.left.unwrap() as int,
                    ).len());
                }
                if take_right {
                    assert(queue_size(n, queue@) == queue_size(n, q2) + preorder(
                        n,
                        node.right.unwrap() as int,
                    ).len());
                }
                assert(queue_size(n, queue@) < queue_size(n, q0));
            }
        }
        proof {
            assert forall|pf: spec_fn(P) -> bool, pb: spec_fn(AABB<D>) -> bool|
                computes_prim(fi, intersecter, pf) && computes_box(
                    fbv,
                    intersecter,
                    pb,
                ) implies #[trigger] query_result(n, pb, pf, derefs(out@)) by {
                assert(queue_hits(n, pb, pf, queue@) == Multiset::<P>::empty());
                assert(query_inv(n, pb, pf, queue@, derefs(out@)));
                assert(queue@ =~= Seq::<usize>::empty());
                assert(bfs_walk(n, box_keep(n, pb), queue@) =~= Seq::<usize>::empty());
                assert(hits_along(n, pf, bfs_walk(n, box_keep(n, pb), queue@)) =~= Seq::<P>::empty());
                assert(query_hits(n, pb, pf) =~= derefs(out@));
                assert(hits(n, pb, pf).to_multiset() =~= derefs(out@).to_multiset());
                assert(derefs(out@) + hits_along(n, pf, Seq::<usize>::empty()) =~= derefs(out@));
            }
        }
        out
    }

    /// The primitives `intersecter` finds, with its own tests on boxes and
    /// on primitives: `intersect_by` with those tests.
    pub fn intersect<'a, I: Intersect<AABB<D>> + Intersect<P>>(&'a self, intersecter: I) -> (r: Vec<
        &'a P,
    >)
        requires
            self.tree.wf(),
        ensures
            query_result(
                self.tree.data@,
                |b: AABB<D>| <I as Intersect<AABB<D>>>::meets_spec(&intersecter, &b),
                |p: P| <I as Intersect<P>>::meets_spec(&intersecter, &p),
                derefs(r@),
            ),
    {
        let fi = |i: &I, p: &P| -> (r: bool)
            ensures
                r == <I as Intersect<P>>::meets_spec(i, p),
            { <I as Intersect<P>>::intersect(i, p) };
        let fbv = |i: &I, b: &AABB<D>| -> (r: bool)
            ensures
                r == <I as Intersect<AABB<D>>>::meets_spec(i, b),
            { <I as Intersect<AABB<D>>>::intersect(i, b) };
        let ghost q = intersecter;
        let r = self.intersect_by(intersecter, fi, fbv);
        proof {
            let pf = |p: P| <I as Intersect<P>>::meets_spec(&q, &p);
            let pb = |b: AABB<D>| <I as Intersect<AABB<D>>>::meets_spec(&q, &b);
            assert(computes_prim(fi, q, pf));
            assert(computes_box(fbv, q, pb));
            assert(query_result(self.tree.data@, pb, pf, derefs(r@)));
        }
        r
    }
}

/// Each element of `v` passed through `f`, in order.
fn map_vec<P, T, F: Fn(P) -> T>(v: Vec<P>, f: &F) -> (r: Vec<T>)
    requires
        forall|p: P| #[trigger] f.requires((p,)),
    ensures
        r@.len() == v@.len(),
        forall|k: int| 0 <= k < v@.len() ==> #[trigger] f.ensures((v@[k],), r@[k]),
{
    let ghost orig = v@;
    let ghost n = orig.len();
    let mut rev = reversed(v);
    let mut r: Vec<T> = Vec::new();
    while rev.len() > 0
        invariant
            n == orig.len(),
            r@.len() + rev@.len() == n,
            forall|p: P| #[trigger] f.requires((p,)),
            forall|j: int| 0 <= j < rev@.len() ==> #[trigger] rev@[j] == orig[n - 1 - j],
            forall|k: int| 0 <= k < r@.len() ==> #[trigger] f.ensures((orig[k],), r@[k]),
        decreases rev@.len(),
    {
        let x = rev.pop().unwrap();
        let ghost k = r@.len() as int;
        assert(x == orig[k]);
        let y = f(x);
        r.push(y);
    }
    r
}

/// Node `dst` is node `src` with its leaf primitives passed through `f`.
pub open spec fn mapped<const D: usize, P, T, F: Fn(P) -> T>(
    src: Node<BvhNodeData<D, P>>,
    dst: Node<BvhNodeData<D, T>>,
    f: F,
) -> bool {
    &&& dst.depth == src.depth
    &&& dst.parent == src.parent
    &&& dst.left == src.left
    &&& dst.right == src.right
    &&& dst.data.bv == src.data.bv
    &&& dst.data.primitives.is_some() == src.data.primitives.is_some()
    &&& src.data.primitives.is_some() ==> {
        let v = src.data.primitives.unwrap()@;
        let w = dst.data.primitives.unwrap()@;
        &&& w.len() == v.len()
        &&& forall|k: int| 0 <= k < v.len() ==> #[trigger] f.ensures((v[k],), w[k])
    }
}

impl<const D: usize, P> Bvh<D, P> {
    /// The same hierarchy with every leaf primitive passed through `f`:
    /// shape, depths and boxes stay as they are.
    pub fn transform_by<T, F: Fn(P) -> T>(self, f: F) -> (r: Bvh<D, T>)
        requires
            self.tree.wf(),
            forall|p: P| #[trigger] f.requires((p,)),
        ensures
            r.tree.wf(),
            r.tree.max_depth == self.tree.max_depth,
            r.tree.data@.len() == self.tree.data@.len(),
            forall|i: int|
                0 <= i < self.tree.data@.len() ==> mapped(
                    self.tree.data@[i],
                    #[trigger] r.tree.data@[i],
                    f,
                ),
    {
        let max_depth = self.tree.max_depth;
        let ghost orig = self.tree.data@;
        let ghost n = orig.len();
        let mut rev = reversed(self.tree.data);
        let mut data: Vec<Node<BvhNodeData<D, T>>> = Vec::new();
        while rev.len() > 0
            invariant
                n == orig.len(),
                data@.len() + rev@.len() == n,
                forall|p: P| #[trigger] f.requires((p,)),
                forall|j: int| 0 <= j < rev@.len() ==> #[trigger] rev@[j] == orig[n - 1 - j],
                forall|k: int| 0 <= k < data@.len() ==> mapped(orig[k], #[trigger] data@[k], f),
            decreases rev@.len(),
        {
            let node = rev.pop().unwrap();
            let ghost k = data@.len() as int;
            assert(node == orig[k]);
            let Node { data: d, depth, parent, left, right } = node;
            let BvhNodeData { bv, primitives } = d;
            let primitives = match primitives {
                Some(v) => Some(map_vec(v, &f)),
                None => None,
            };
            data.push(Node { data: BvhNodeData { bv, primitives }, depth, parent, left, right });
        }
        proof {
            lemma_same_shape_wf(orig, data@, max_depth);
        }
        Bvh { tree: Tree { data, max_depth } }
    }
}

/// Well-formedness of an arena depends on its shape alone.
proof fn lemma_same_shape_wf<A, B>(n: Seq<Node<A>>, m: Seq<Node<B>>, max_depth: usize)
    requires
        crate::tree::nodes_wf(n, max_depth),
        m.len() == n.len(),
        forall|i: int|
            0 <= i < n.len() ==> (#[trigger] m[i]).depth == n[i].depth && m[i].parent == n[i].parent
                && m[i].left == n[i].left && m[i].right == n[i].right,
    ensures
        crate::tree::nodes_wf(m, max_depth),
{
    assert forall|i: int| 0 < i < m.len() implies #[trigger] crate::tree::up_ok(m, i) by {
        assert(crate::tree::up_ok(n, i));
        assert(m[i].depth == n[i].depth);
        let p = n[i].parent as int;
        assert(m[p].depth == n[p].depth);
    }
    assert forall|i: int| 0 <= i < m.len() implies #[trigger] crate::tree::down_ok(m, i, max_depth) by {
        assert(crate::tree::down_ok(n, i, max_depth));
        assert(m[i].depth == n[i].depth);
        if n[i].left.is_some() {
            let c = n[i].left.unwrap() as int;
            assert(m[c].parent == n[c].parent);
        }
        if n[i].right.is_some() {
            let c = n[i].right.unwrap() as int;
            assert(m[c].parent == n[c].parent);
        }
    }
    if n.len() > 0 {
        assert(m[0].depth == n[0].depth);
        let w = choose|w: int| 0 <= w < n.len() && n[w].depth == max_depth;
        assert(m[w].depth == n[w].depth);
    }
}

} // verus!
