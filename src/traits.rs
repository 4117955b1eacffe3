//! What a primitive offers to the hierarchy, what a query offers, and the
//! triangle and point that the library brings.
use crate::bv::{ints, BoxView, AABB};
use vstd::prelude::*;

verus! {

/// A primitive that a hierarchy can index: it has a bounding box and a
/// center along every axis. The center is the centroid multiplied by a
/// fixed positive factor, `center_scale`, so that it can stay exact in
/// integers; the box is at the coordinates' own scale.
pub trait Bounded<const D: usize> {
    /// The factor between the center and the centroid.
    spec fn center_scale_spec() -> int;

    /// The factor between the center and the centroid.
    fn center_scale() -> (r: i64)
        ensures
            r == Self::center_scale_spec(),
            1 <= r <= 0x7fff_ffff,
    ;

    /// The primitive has the shape its operations expect.
    spec fn prim_wf(&self) -> bool;

    /// The tightest box around the primitive.
    spec fn box_spec(&self) -> BoxView;

    /// The center, one entry per axis: the centroid times `center_scale`.
    spec fn center_spec(&self) -> Seq<int>;

    proof fn lemma_shape(&self)
        requires
            self.prim_wf(),
        ensures
            self.box_spec().has_dim(D as nat),
            self.center_spec().len() == D,
            forall|i: int|
                0 <= i < D ==> i64::MIN <= #[trigger] self.center_spec()[i] <= i64::MAX,
    ;

    /// The tightest box around the primitive.
    fn bv(&self) -> (r: AABB<D>)
        requires
            self.prim_wf(),
        ensures
            r.wf(),
            r@ == self.box_spec(),
    ;

    /// The center, one entry per axis.
    fn center(&self) -> (r: Vec<i64>)
        requires
            self.prim_wf(),
        ensures
            r@.len() == D,
            ints(r@) == self.center_spec(),
    ;

    /// The center along one axis.
    fn center_at_axis(&self, axis: usize) -> (r: i64)
        requires
            self.prim_wf(),
            axis < D,
        ensures
            r == self.center_spec()[axis as int],
    ;
}

/// A test of a query value against a primitive or a box.
pub trait Intersect<I> {
    /// Whether the query meets `p`.
    spec fn meets_spec(&self, p: &I) -> bool;

    /// Whether the query meets `p`.
    fn intersect(&self, p: &I) -> (r: bool)
        ensures
            r == self.meets_spec(p),
    ;
}

/// A triangle in `D` dimensions, each vertex one coordinate per axis.
#[derive(Clone, Debug)]
pub struct Triangle<const D: usize> {
    pub a: Vec<i32>,
    pub b: Vec<i32>,
    pub c: Vec<i32>,
}

/// A sequence of small machine integers read as mathematical integers.
pub open spec fn ints32(s: Seq<i32>) -> Seq<int> {
    Seq::new(s.len(), |i: int| s[i] as int)
}

impl<const D: usize> Triangle<D> {
    /// The three vertices.
    pub fn new(a: Vec<i32>, b: Vec<i32>, c: Vec<i32>) -> (r: Self)
        ensures
            r.a == a,
            r.b == b,
            r.c == c,
    {
        Triangle { a, b, c }
    }

    /// Every vertex has `D` coordinates.
    pub open spec fn wf(&self) -> bool {
        self.a@.len() == D && self.b@.len() == D && self.c@.len() == D
    }

    /// The tightest box around the three vertices.
    pub open spec fn box_of(&self) -> BoxView {
        crate::bv::empty_box(D as nat).grow(ints32(self.a@)).grow(ints32(self.b@)).grow(
            ints32(self.c@),
        )
    }

    /// The sum of the three vertices: the centroid, the mean of the three
    /// vertices, times three, which keeps it exact in integers.
    pub open spec fn center_of(&self) -> Seq<int> {
        Seq::new(D as nat, |i: int| self.a@[i] + self.b@[i] + self.c@[i])
    }
}

/// A vertex widened to the box's coordinates.
fn widen(v: &Vec<i32>) -> (r: Vec<i64>)
    ensures
        ints(r@) == ints32(v@),
        r@.len() == v@.len(),
{
    let mut r: Vec<i64> = Vec::new();
    let mut i: usize = 0;
    while i < v.len()
        invariant
            i <= v@.len(),
            r@.len() == i,
            forall|j: int| 0 <= j < i ==> #[trigger] r@[j] == v@[j] as i64,
        decreases v@.len() - i,
    {
        r.push(v[i] as i64);
        i += 1;
    }
    assert(ints(r@) =~= ints32(v@));
    r
}

impl<const D: usize> Bounded<D> for Triangle<D> {
    open spec fn center_scale_spec() -> int {
        3
    }

    fn center_scale() -> (r: i64) {
        3
    }

    open spec fn prim_wf(&self) -> bool {
        self.wf()
    }

    open spec fn box_spec(&self) -> BoxView {
        self.box_of()
    }

    open spec fn center_spec(&self) -> Seq<int> {
        self.center_of()
    }

    proof fn lemma_shape(&self) {
    }

    fn bv(&self) -> (r: AABB<D>) {
        let mut r = AABB::new();
        r.grow(&widen(&self.a));
        r.grow(&widen(&self.b));
        r.grow(&widen(&self.c));
        r
    }

    fn center(&self) -> (r: Vec<i64>) {
        let mut r: Vec<i64> = Vec::new();
        let mut i: usize = 0;
        while i < D
            invariant
                self.wf(),
                i <= D,
                r@.len() == i,
                forall|j: int| 0 <= j < i ==> #[trigger] r@[j] == self.center_of()[j],
            decreases D - i,
        {
            r.push(self.a[i] as i64 + self.b[i] as i64 + self.c[i] as i64);
            i += 1;
        }
        assert(ints(r@) =~= self.center_of());
        r
    }

    fn center_at_axis(&self, axis: usize) -> (r: i64) {
        self.a[axis] as i64 + self.b[axis] as i64 + self.c[axis] as i64
    }
}

/// A primitive carried together with the triangle that bounds it.
impl<P, const D: usize> Bounded<D> for (P, Triangle<D>) {
    open spec fn center_scale_spec() -> int {
        3
    }

    fn center_scale() -> (r: i64) {
        3
    }

    open spec fn prim_wf(&self) -> bool {
        self.1.wf()
    }

    open spec fn box_spec(&self) -> BoxView {
        self.1.box_of()
    }

    open spec fn center_spec(&self) -> Seq<int> {
        self.1.center_of()
    }

    proof fn lemma_shape(&self) {
    }

    fn bv(&self) -> (r: AABB<D>) {
        self.1.bv()
    }

    fn center(&self) -> (r: Vec<i64>) {
        self.1.center()
    }

    fn center_at_axis(&self, axis: usize) -> (r: i64) {
        self.1.center_at_axis(axis)
    }
}

/// A point in `D` dimensions.
#[derive(Clone, Debug)]
pub struct Point<const D: usize> {
    pub coords: Vec<i64>,
}

impl<const D: usize> Point<D> {
    /// The point with these coordinates.
    pub fn new(coords: Vec<i64>) -> (r: Self)
        ensures
            r.coords == coords,
    {
        Point { coords }
    }
}

/// A point meets a box that holds it, border included.
impl<const D: usize> Intersect<AABB<D>> for Point<D> {
    open spec fn meets_spec(&self, p: &AABB<D>) -> bool {
        p.wf() && p@.holds(ints(self.coords@))
    }

    fn intersect(&self, p: &AABB<D>) -> (r: bool) {
        if self.coords.len() != D || p.min.len() != D || p.max.len() != D {
            return false;
        }
        let mut i: usize = 0;
        while i < D
            invariant
                i <= D,
                self.coords@.len() == D,
                p.wf(),
                forall|j: int|
                    0 <= j < i ==> #[trigger] p@.lo[j] <= ints(self.coords@)[j] <= p@.hi[j],
            decreases D - i,
        {
            if self.coords[i] < p.min[i] || self.coords[i] > p.max[i] {
                assert(!(p@.lo[i as int] <= ints(self.coords@)[i as int] <= p@.hi[i as int]));
                assert(!p@.holds(ints(self.coords@)));
                return false;
            }
            i += 1;
        }
        true
    }
}

/// A box meets a point it holds, border included.
impl<const D: usize> Intersect<Point<D>> for AABB<D> {
    open spec fn meets_spec(&self, p: &Point<D>) -> bool {
        p.meets_spec(self)
    }

    fn intersect(&self, p: &Point<D>) -> (r: bool) {
        p.intersect(self)
    }
}

/// A box meets a box when they share an open region.
impl<const D: usize> Intersect<AABB<D>> for AABB<D> {
    open spec fn meets_spec(&self, p: &AABB<D>) -> bool {
        self.wf() && p.wf() && self@.meets(p@)
    }

    fn intersect(&self, p: &AABB<D>) -> (r: bool) {
        if self.min.len() != D || self.max.len() != D || p.min.len() != D || p.max.len() != D {
            return false;
        }
        self.intersect_aabb(p)
    }
}

/// Twice the signed area of the triangle `a`, `b`, `p` in the plane:
/// positive when the turn from `a` to `b` to `p` is counter-clockwise.
pub open spec fn cross(a: Seq<int>, b: Seq<int>, p: Seq<int>) -> int {
    (b[0] - a[0]) * (p[1] - a[1]) - (b[1] - a[1]) * (p[0] - a[0])
}

/// Whether the plane point `p` lies in the triangle `a`, `b`, `c`, border
/// included. A triangle without area holds no point.
pub open spec fn in_triangle(a: Seq<int>, b: Seq<int>, c: Seq<int>, p: Seq<int>) -> bool {
    let area = cross(a, b, c);
    let u = cross(a, b, p);
    let v = cross(b, c, p);
    let w = cross(c, a, p);
    (area > 0 && u >= 0 && v >= 0 && w >= 0) || (area < 0 && u <= 0 && v <= 0 && w <= 0)
}

/// `cross` on machine values, in a width where nothing overflows.
fn cross_exec(a_x: i64, a_y: i64, b_x: i64, b_y: i64, p_x: i64, p_y: i64) -> (r: i128)
    requires
        -0x8000_0000 <= a_x < 0x8000_0000,
        -0x8000_0000 <= a_y < 0x8000_0000,
        -0x8000_0000 <= b_x < 0x8000_0000,
        -0x8000_0000 <= b_y < 0x8000_0000,
    ensures
        r == cross(seq![a_x as int, a_y as int], seq![b_x as int, b_y as int], seq![p_x as int, p_y as int]),
{
    let x1 = b_x as i128 - a_x as i128;
    let y2 = p_y as i128 - a_y as i128;
    let y1 = b_y as i128 - a_y as i128;
    let x2 = p_x as i128 - a_x as i128;
    assert(-0x1_0000_0000 <= x1 <= 0x1_0000_0000);
    assert(-0x1_0000_0000 <= y1 <= 0x1_0000_0000);
    assert(-0x1_0000_0000_0000_0000 <= x2 <= 0x1_0000_0000_0000_0000);
    assert(-0x1_0000_0000_0000_0000 <= y2 <= 0x1_0000_0000_0000_0000);
    assert(-0x1_0000_0000_0000_0000_0000_0000 <= x1 * y2 <= 0x1_0000_0000_0000_0000_0000_0000)
        by (nonlinear_arith)
        requires
            -0x1_0000_0000 <= x1 <= 0x1_0000_0000,
            -0x1_0000_0000_0000_0000 <= y2 <= 0x1_0000_0000_0000_0000,
    ;
    assert(-0x1_0000_0000_0000_0000_0000_0000 <= y1 * x2 <= 0x1_0000_0000_0000_0000_0000_0000)
        by (nonlinear_arith)
        requires
            -0x1_0000_0000 <= y1 <= 0x1_0000_0000,
            -0x1_0000_0000_0000_0000 <= x2 <= 0x1_0000_0000_0000_0000,
    ;
    x1 * y2 - y1 * x2
}

/// A plane point meets a triangle that holds it, border included.
impl Intersect<Triangle<2>> for Point<2> {
    open spec fn meets_spec(&self, t: &Triangle<2>) -> bool {
        &&& t.wf()
        &&& self.coords@.len() == 2
        &&& in_triangle(ints32(t.a@), ints32(t.b@), ints32(t.c@), ints(self.coords@))
    }

    fn intersect(&self, t: &Triangle<2>) -> (r: bool) {
        if self.coords.len() != 2 || t.a.len() != 2 || t.b.len() != 2 || t.c.len() != 2 {
            return false;
        }
        let (a_x, a_y) = (t.a[0] as i64, t.a[1] as i64);
        let (b_x, b_y) = (t.b[0] as i64, t.b[1] as i64);
        let (c_x, c_y) = (t.c[0] as i64, t.c[1] as i64);
        let (p_x, p_y) = (self.coords[0], self.coords[1]);
        let area = cross_exec(a_x, a_y, b_x, b_y, c_x, c_y);
        let u = cross_exec(a_x, a_y, b_x, b_y, p_x, p_y);
        let v = cross_exec(b_x, b_y, c_x, c_y, p_x, p_y);
        let w = cross_exec(c_x, c_y, a_x, a_y, p_x, p_y);
        proof {
            assert(ints32(t.a@) =~= seq![a_x as int, a_y as int]);
            assert(ints32(t.b@) =~= seq![b_x as int, b_y as int]);
            assert(ints32(t.c@) =~= seq![c_x as int, c_y as int]);
            assert(ints(self.coords@) =~= seq![p_x as int, p_y as int]);
        }
        (area > 0 && u >= 0 && v >= 0 && w >= 0) || (area < 0 && u <= 0 && v <= 0 && w <= 0)
    }
}

/// A plane point meets a carried triangle that holds it.
impl<P> Intersect<(P, Triangle<2>)> for Point<2> {
    open spec fn meets_spec(&self, t: &(P, Triangle<2>)) -> bool {
        self.meets_spec(&t.1)
    }

    fn intersect(&self, t: &(P, Triangle<2>)) -> (r: bool) {
        self.intersect(&t.1)
    }
}

} // verus!
