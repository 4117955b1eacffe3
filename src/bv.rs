//! The axis-aligned bounding box and its mathematical model.
use vstd::prelude::*;

verus! {

/// A box as a pair of corner sequences, one entry per axis.
pub struct BoxView {
    pub lo: Seq<int>,
    pub hi: Seq<int>,
}

/// The smaller of two integers.
pub open spec fn min_int(a: int, b: int) -> int {
    if a <= b {
        a
    } else {
        b
    }
}

/// The larger of two integers.
pub open spec fn max_int(a: int, b: int) -> int {
    if a >= b {
        a
    } else {
        b
    }
}

/// On axis `i`, `a` reaches at least as far as `b` both ways.
pub open spec fn axis_covers(a: BoxView, b: BoxView, i: int) -> bool {
    a.lo[i] <= b.lo[i] && a.hi[i] >= b.hi[i]
}

impl BoxView {
    /// Both corners have one entry per axis of `d`, each a machine integer.
    pub open spec fn has_dim(self, d: nat) -> bool {
        &&& self.lo.len() == d
        &&& self.hi.len() == d
        &&& forall|i: int| 0 <= i < d ==> i64::MIN <= #[trigger] self.lo[i] <= i64::MAX
        &&& forall|i: int| 0 <= i < d ==> i64::MIN <= #[trigger] self.hi[i] <= i64::MAX
    }

    /// `self` contains all of `other`, axis by axis.
    pub open spec fn covers(self, other: BoxView) -> bool {
        &&& self.lo.len() == other.lo.len()
        &&& self.hi.len() == other.lo.len()
        &&& other.hi.len() == other.lo.len()
        &&& forall|i: int| 0 <= i < self.lo.len() ==> #[trigger] axis_covers(self, other, i)
    }

    /// `self` holds the point `p`.
    pub open spec fn holds(self, p: Seq<int>) -> bool {
        &&& p.len() == self.lo.len()
        &&& forall|i: int| 0 <= i < p.len() ==> #[trigger] self.lo[i] <= p[i] <= self.hi[i]
    }

    /// The smallest box that holds both.
    pub open spec fn merge(self, other: BoxView) -> BoxView {
        BoxView {
            lo: Seq::new(self.lo.len(), |i: int| min_int(self.lo[i], other.lo[i])),
            hi: Seq::new(self.lo.len(), |i: int| max_int(self.hi[i], other.hi[i])),
        }
    }

    /// The smallest box that holds `self` and the point `p`.
    pub open spec fn grow(self, p: Seq<int>) -> BoxView {
        BoxView {
            lo: Seq::new(self.lo.len(), |i: int| min_int(self.lo[i], p[i])),
            hi: Seq::new(self.lo.len(), |i: int| max_int(self.hi[i], p[i])),
        }
    }

    /// The two boxes share an open region: on every axis the larger lower
    /// corner lies strictly below the smaller upper corner. A box that holds
    /// nothing meets no box, and boxes that only touch do not meet.
    pub open spec fn meets(self, other: BoxView) -> bool {
        forall|i: int|
            0 <= i < self.lo.len() ==> #[trigger] max_int(self.lo[i], other.lo[i]) < min_int(
                self.hi[i],
                other.hi[i],
            )
    }
}

/// The length of a box along axis `i`.
pub open spec fn extent(b: BoxView, i: int) -> int {
    b.hi[i] - b.lo[i]
}

/// `a` is the first axis of `b` of largest positive length, or axis 0
/// where no axis has a positive length.
pub open spec fn is_longest_axis(b: BoxView, d: nat, a: int) -> bool {
    &&& 0 <= a < d
    &&& forall|i: int| 0 <= i < d ==> #[trigger] extent(b, i) <= max_int(extent(b, a), 0)
    &&& forall|i: int| 0 <= i < a ==> #[trigger] extent(b, i) < extent(b, a)
    &&& a > 0 ==> extent(b, a) > 0
}

/// The box of `d` axes that holds nothing.
pub open spec fn empty_box(d: nat) -> BoxView {
    BoxView { lo: Seq::new(d, |i: int| i64::MAX as int), hi: Seq::new(d, |i: int| i64::MIN as int) }
}

/// A sequence of machine integers read as mathematical integers.
pub open spec fn ints(s: Seq<i64>) -> Seq<int> {
    Seq::new(s.len(), |i: int| s[i] as int)
}

/// An axis-aligned box in `D` dimensions. The box that holds nothing has
/// `min` at the largest and `max` at the smallest coordinate on every axis,
/// so that growing it needs no special case and it meets no box.
#[derive(Clone, Debug)]
pub struct AABB<const D: usize> {
    pub min: Vec<i64>,
    pub max: Vec<i64>,
}

impl<const D: usize> View for AABB<D> {
    type V = BoxView;

    open spec fn view(&self) -> BoxView {
        BoxView { lo: ints(self.min@), hi: ints(self.max@) }
    }
}

impl<const D: usize> AABB<D> {
    /// Both corners have `D` entries.
    pub open spec fn wf(&self) -> bool {
        self.min@.len() == D && self.max@.len() == D
    }

    /// The box that holds nothing.
    pub fn new() -> (r: Self)
        ensures
            r.wf(),
            r@ == empty_box(D as nat),
    {
        let mut min: Vec<i64> = Vec::new();
        let mut max: Vec<i64> = Vec::new();
        let mut i: usize = 0;
        while i < D
            invariant
                i <= D,
                min@.len() == i,
                max@.len() == i,
                forall|j: int| 0 <= j < i ==> #[trigger] min@[j] == i64::MAX,
                forall|j: int| 0 <= j < i ==> #[trigger] max@[j] == i64::MIN,
            decreases D - i,
        {
            min.push(i64::MAX);
            max.push(i64::MIN);
            i += 1;
        }
        let r = AABB { min, max };
        assert(r@.lo =~= empty_box(D as nat).lo);
        assert(r@.hi =~= empty_box(D as nat).hi);
        r
    }

    /// Extends the box to hold `point`.
    pub fn grow(&mut self, point: &Vec<i64>)
        requires
            old(self).wf(),
            point@.len() == D,
        ensures
            final(self).wf(),
            final(self)@ == old(self)@.grow(ints(point@)),
    {
        let mut i: usize = 0;
        while i < D
            invariant
                i <= D,
                self.wf(),
                point@.len() == D,
                forall|j: int|
                    0 <= j < i ==> #[trigger] self.min@[j] == min_int(
                        old(self).min@[j] as int,
                        point@[j] as int,
                    ),
                forall|j: int|
                    0 <= j < i ==> #[trigger] self.max@[j] == max_int(
                        old(self).max@[j] as int,
                        point@[j] as int,
                    ),
                forall|j: int| i <= j < D ==> #[trigger] self.min@[j] == old(self).min@[j],
                forall|j: int| i <= j < D ==> #[trigger] self.max@[j] == old(self).max@[j],
            decreases D - i,
        {
            if point[i] < self.min[i] {
                self.min.set(i, point[i]);
            }
            if point[i] > self.max[i] {
                self.max.set(i, point[i]);
            }
            i += 1;
        }
        assert(self@.lo =~= old(self)@.grow(ints(point@)).lo);
        assert(self@.hi =~= old(self)@.grow(ints(point@)).hi);
    }

    /// Extends the box to hold `other`.
    pub fn merge(&mut self, other: &Self)
        requires
            old(self).wf(),
            other.wf(),
        ensures
            final(self).wf(),
            final(self)@ == old(self)@.merge(other@),
    {
        let mut i: usize = 0;
        while i < D
            invariant
                i <= D,
                self.wf(),
                other.wf(),
                forall|j: int|
                    0 <= j < i ==> #[trigger] self.min@[j] == min_int(
                        old(self).min@[j] as int,
                        other.min@[j] as int,
                    ),
                forall|j: int|
                    0 <= j < i ==> #[trigger] self.max@[j] == max_int(
                        old(self).max@[j] as int,
                        other.max@[j] as int,
                    ),
                forall|j: int| i <= j < D ==> #[trigger] self.min@[j] == old(self).min@[j],
                forall|j: int| i <= j < D ==> #[trigger] self.max@[j] == old(self).max@[j],
            decreases D - i,
        {
            if other.min[i] < self.min[i] {
                self.min.set(i, other.min[i]);
            }
            if other.max[i] > self.max[i] {
                self.max.set(i, other.max[i]);
            }
            i += 1;
        }
        assert(self@.lo =~= old(self)@.merge(other@).lo);
        assert(self@.hi =~= old(self)@.merge(other@).hi);
    }

    /// Whether the two boxes share an open region. A box that holds nothing
    /// meets no box, another such box included.
    pub fn intersect_aabb(&self, other: &Self) -> (r: bool)
        requires
            self.wf(),
            other.wf(),
        ensures
            r == self@.meets(other@),
    {
        let mut i: usize = 0;
        while i < D
            invariant
                i <= D,
                self.wf(),
                other.wf(),
                forall|j: int|
                    0 <= j < i ==> #[trigger] max_int(self@.lo[j], other@.lo[j]) < min_int(
                        self@.hi[j],
                        other@.hi[j],
                    ),
            decreases D - i,
        {
            let lo = if self.min[i] >= other.min[i] {
                self.min[i]
            } else {
                other.min[i]
            };
            let hi = if self.max[i] <= other.max[i] {
                self.max[i]
            } else {
                other.max[i]
            };
            if lo >= hi {
                assert(!(max_int(self@.lo[i as int], other@.lo[i as int]) < min_int(
                    self@.hi[i as int],
                    other@.hi[i as int],
                )));
                return false;
            }
            i += 1;
        }
        true
    }

    /// The midpoint of every axis, times two so that it stays exact in
    /// integers.
    pub fn center(&self) -> (r: Vec<i128>)
        requires
            self.wf(),
        ensures
            r@.len() == D,
            forall|i: int| 0 <= i < D ==> #[trigger] r@[i] == self@.lo[i] + self@.hi[i],
    {
        let mut r: Vec<i128> = Vec::new();
        let mut i: usize = 0;
        while i < D
            invariant
                self.wf(),
                i <= D,
                r@.len() == i,
                forall|j: int| 0 <= j < i ==> #[trigger] r@[j] == self@.lo[j] + self@.hi[j],
            decreases D - i,
        {
            r.push(self.min[i] as i128 + self.max[i] as i128);
            i += 1;
        }
        r
    }

    /// The first axis of largest positive length, or axis 0 where no axis
    /// has a positive length.
    pub fn longest_dimension(&self) -> (r: usize)
        requires
            self.wf(),
            D >= 1,
        ensures
            is_longest_axis(self@, D as nat, r as int),
    {
        let mut best: i128 = 0;
        let mut a: usize = 0;
        let mut i: usize = 0;
        while i < D
            invariant
                self.wf(),
                i <= D,
                a < D,
                best >= 0,
                forall|j: int| 0 <= j < i ==> #[trigger] extent(self@, j) <= best,
                best > 0 ==> extent(self@, a as int) == best && a < i,
                best == 0 ==> a == 0,
                forall|j: int| 0 <= j < a ==> #[trigger] extent(self@, j) < best,
            decreases D - i,
        {
            let d = self.max[i] as i128 - self.min[i] as i128;
            if d > best {
                a = i;
                best = d;
            }
            i += 1;
        }
        a
    }

    /// Extends the box to hold the three vertices of `triangle`.
    pub fn grow_from_triangle(&mut self, triangle: &[Vec<i64>; 3])
        requires
            old(self).wf(),
            triangle@[0]@.len() == D,
            triangle@[1]@.len() == D,
            triangle@[2]@.len() == D,
        ensures
            final(self).wf(),
            final(self)@ == old(self)@.grow(ints(triangle@[0]@)).grow(ints(triangle@[1]@)).grow(
                ints(triangle@[2]@),
            ),
    {
        self.grow(&triangle[0]);
        self.grow(&triangle[1]);
        self.grow(&triangle[2]);
    }

    /// The smallest box that holds the three vertices of `triangle`.
    pub fn from_triangle(triangle: &[Vec<i64>; 3]) -> (r: Self)
        requires
            triangle@[0]@.len() == D,
            triangle@[1]@.len() == D,
            triangle@[2]@.len() == D,
        ensures
            r.wf(),
            r@ == empty_box(D as nat).grow(ints(triangle@[0]@)).grow(ints(triangle@[1]@)).grow(
                ints(triangle@[2]@),
            ),
    {
        let mut aabb = AABB::new();
        aabb.grow_from_triangle(triangle);
        aabb
    }

    /// Extends the box to hold `aabb`.
    pub fn grow_from_aabb(&mut self, aabb: &AABB<D>)
        requires
            old(self).wf(),
            aabb.wf(),
        ensures
            final(self).wf(),
            final(self)@ == old(self)@.merge(aabb@),
    {
        self.merge(aabb);
    }
}

impl<const D: usize> Default for AABB<D> {
    fn default() -> (r: Self)
        ensures
            r.wf(),
            r@ == empty_box(D as nat),
    {
        AABB::new()
    }
}

/// A box that holds nothing meets no box, in either order, another such
/// box included.
pub proof fn lemma_empty_box_meets_nothing(d: nat, b: BoxView)
    requires
        d >= 1,
        b.has_dim(d),
    ensures
        !empty_box(d).meets(b),
        !b.meets(empty_box(d)),
{
    let e = empty_box(d);
    assert(!(max_int(e.lo[0], b.lo[0]) < min_int(e.hi[0], b.hi[0])));
    assert(!(max_int(b.lo[0], e.lo[0]) < min_int(b.hi[0], e.hi[0])));
}

} // verus!
