//! Axis-aligned rectangular regions of the 2D integer plane, with the
//! containment and intersection predicates every tree operation builds on.

use vstd::prelude::*;

verus! {

/// A position in the plane, as a pair of integer coordinates.
pub type Point = (i64, i64);

/// An axis-aligned rectangle anchored at its minimum corner `pos`,
/// extending `x` along the first axis and `y` along the second.
///
/// A rectangle covers the half-open ranges `[pos.0, pos.0 + x)` and
/// `[pos.1, pos.1 + y)`, so sibling rectangles that share an edge never
/// share a point.
#[derive(Clone, Copy, PartialEq, Eq, Debug)]
pub struct Bound {
    pub pos: Point,
    pub x: i64,
    pub y: i64,
}

impl Bound {
    /// Extents are non-negative and the far corner is still representable.
    pub open spec fn wf(self) -> bool {
        &&& 0 <= self.x
        &&& 0 <= self.y
        &&& self.pos.0 + self.x <= i64::MAX
        &&& self.pos.1 + self.y <= i64::MAX
    }

    /// Membership of a point, half-open on both axes.
    pub open spec fn spec_contains(self, p: Point) -> bool {
        &&& self.pos.0 <= p.0
        &&& p.0 < self.pos.0 + self.x
        &&& self.pos.1 <= p.1
        &&& p.1 < self.pos.1 + self.y
    }

    /// Rectangle overlap: the rectangles do not overlap exactly when one
    /// rectangle's minimum exceeds the other's maximum on some axis.
    pub open spec fn spec_intersects(self, other: Bound) -> bool {
        !(self.pos.0 > other.pos.0 + other.x || other.pos.0 > self.pos.0 + self.x
            || self.pos.1 > other.pos.1 + other.y || other.pos.1 > self.pos.1 + self.y)
    }

    /// A rectangle can be split into four quadrants only when both extents
    /// leave room for two non-empty halves.
    pub open spec fn splittable(self) -> bool {
        2 <= self.x && 2 <= self.y
    }

    /// The quadrant of index `i`, in the canonical order: 0 top-left,
    /// 1 top-right, 2 bottom-left, 3 bottom-right. Extents are halved,
    /// with the right and bottom halves absorbing any odd remainder.
    pub open spec fn quadrant(self, i: int) -> Bound {
        let hx = (self.x / 2) as i64;
        let hy = (self.y / 2) as i64;
        let rx = (self.x - hx) as i64;
        let ry = (self.y - hy) as i64;
        if i == 0 {
            Bound { pos: self.pos, x: hx, y: hy }
        } else if i == 1 {
            Bound { pos: ((self.pos.0 + hx) as i64, self.pos.1), x: rx, y: hy }
        } else if i == 2 {
            Bound { pos: (self.pos.0, (self.pos.1 + hy) as i64), x: hx, y: ry }
        } else {
            Bound { pos: ((self.pos.0 + hx) as i64, (self.pos.1 + hy) as i64), x: rx, y: ry }
        }
    }

    /// The index of the quadrant that a point of the rectangle falls in.
    pub open spec fn quadrant_of(self, p: Point) -> int {
        let right = p.0 >= self.pos.0 + self.x / 2;
        let bottom = p.1 >= self.pos.1 + self.y / 2;
        if !right && !bottom {
            0
        } else if right && !bottom {
            1
        } else if !right && bottom {
            2
        } else {
            3
        }
    }

    /// Builds the rectangle with anchor `pos` and extents `x`, `y`.
    /// Negative extents are a caller error and are excluded up front;
    /// the remaining conditions only keep the far corner representable.
    pub fn new(pos: Point, x: i64, y: i64) -> (b: Bound)
        requires
            0 <= x,
            0 <= y,
            pos.0 + x <= i64::MAX,
            pos.1 + y <= i64::MAX,
        ensures
            b == (Bound { pos, x, y }),
            b.wf(),
    {
        Bound { pos, x, y }
    }

    /// True exactly when the rectangle contains `point`.
    pub fn contains(&self, point: &Point) -> (r: bool)
        ensures
            r == self.spec_contains(*point),
    {
        (point.0 as i128) >= (self.pos.0 as i128)
            && (point.0 as i128) < (self.pos.0 as i128) + (self.x as i128)
            && (point.1 as i128) >= (self.pos.1 as i128)
            && (point.1 as i128) < (self.pos.1 as i128) + (self.y as i128)
    }

    /// True exactly when the two rectangles overlap.
    pub fn intersects(&self, other: &Bound) -> (r: bool)
        ensures
            r == self.spec_intersects(*other),
    {
        !((self.pos.0 as i128) > (other.pos.0 as i128) + (other.x as i128)
            || (other.pos.0 as i128) > (self.pos.0 as i128) + (self.x as i128)
            || (self.pos.1 as i128) > (other.pos.1 as i128) + (other.y as i128)
            || (other.pos.1 as i128) > (self.pos.1 as i128) + (self.y as i128))
    }

    /// True exactly when the rectangle can be subdivided.
    pub fn can_split(&self) -> (r: bool)
        ensures
            r == self.splittable(),
    {
        self.x >= 2 && self.y >= 2
    }
}

/// Each quadrant of a splittable rectangle is itself well-formed, strictly
/// smaller on both axes, and no quadrant is empty.
pub proof fn lemma_quadrant_wf(b: Bound, i: int)
    requires
        b.wf(),
        b.splittable(),
        0 <= i < 4,
    ensures
        b.quadrant(i).wf(),
        1 <= b.quadrant(i).x < b.x,
        1 <= b.quadrant(i).y < b.y,
{
}

/// Law of the partition: a splittable rectangle's four quadrants cover it
/// exactly. A quadrant contains a point precisely when the parent contains
/// the point and the quadrant's index is the point's quadrant index, so a
/// contained point — one on a shared edge included — lies in exactly one
/// quadrant, and a point outside the parent lies in none.
pub proof fn lemma_quadrant_partition(b: Bound, p: Point, i: int)
    requires
        b.wf(),
        b.splittable(),
        0 <= i < 4,
    ensures
        b.quadrant(i).spec_contains(p) <==> (b.spec_contains(p) && i == b.quadrant_of(p)),
        0 <= b.quadrant_of(p) < 4,
{
}

/// The four quadrants of a splittable rectangle are pairwise disjoint:
/// no point lies in two distinct quadrants.
pub proof fn lemma_quadrants_disjoint(b: Bound, p: Point, i: int, j: int)
    requires
        b.wf(),
        b.splittable(),
        0 <= i < 4,
        0 <= j < 4,
        i != j,
    ensures
        !(b.quadrant(i).spec_contains(p) && b.quadrant(j).spec_contains(p)),
{
    lemma_quadrant_partition(b, p, i);
    lemma_quadrant_partition(b, p, j);
}

/// The four quadrants of a splittable rectangle cover it: a point lies in
/// the parent exactly when it lies in some quadrant.
pub proof fn lemma_quadrants_cover(b: Bound, p: Point)
    requires
        b.wf(),
        b.splittable(),
    ensures
        b.spec_contains(p) <==> exists|i: int|
            0 <= i < 4 && #[trigger] b.quadrant(i).spec_contains(p),
{
    lemma_quadrant_partition(b, p, b.quadrant_of(p));
    if exists|i: int| 0 <= i < 4 && #[trigger] b.quadrant(i).spec_contains(p) {
        let i = choose|i: int| 0 <= i < 4 && #[trigger] b.quadrant(i).spec_contains(p);
        lemma_quadrant_partition(b, p, i);
    }
}

/// Rectangles that do not intersect have no point in common.
pub proof fn lemma_disjoint_bounds(a: Bound, b: Bound, p: Point)
    requires
        !a.spec_intersects(b),
    ensures
        !(a.spec_contains(p) && b.spec_contains(p)),
{
}

} // verus!
