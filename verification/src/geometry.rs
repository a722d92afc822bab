use vstd::prelude::*;
use vstd::std_specs::cmp::PartialEqSpecImpl;
use crate::coord::Coord;

verus! {

/// A point (or an extent) in the plane.
#[derive(Clone, Copy, Debug)]
pub struct Vec2 {
    pub x: Coord,
    pub y: Coord,
}

impl Vec2 {
    /// Both coordinates equal as numbers (what `==` computes).
    pub open spec fn spec_same(self, other: Vec2) -> bool {
        self.x.spec_num_eq(other.x) && self.y.spec_num_eq(other.y)
    }

    /// Neither coordinate is a NaN.
    pub open spec fn is_number(self) -> bool {
        !self.x.spec_is_nan() && !self.y.spec_is_nan()
    }

    pub fn new(x: Coord, y: Coord) -> (v: Vec2)
        ensures
            v.x == x,
            v.y == y,
    {
        Vec2 { x, y }
    }

    /// The origin, both coordinates positive zero.
    pub fn zero() -> (v: Vec2)
        ensures
            v.x.bits == 0,
            v.y.bits == 0,
    {
        Vec2 { x: Coord::zero(), y: Coord::zero() }
    }
}

/// `==` compares both coordinates as numbers.
impl PartialEq for Vec2 {
    fn eq(&self, other: &Vec2) -> (r: bool) {
        self.x.num_eq(&other.x) && self.y.num_eq(&other.y)
    }
}

impl PartialEqSpecImpl for Vec2 {
    open spec fn obeys_eq_spec() -> bool {
        true
    }

    open spec fn eq_spec(&self, other: &Vec2) -> bool {
        self.spec_same(*other)
    }
}

/// Axis-aligned bounding box, closed on every side.
#[derive(Clone, Copy, Debug)]
pub struct AABB {
    pub min: Vec2,
    pub max: Vec2,
}

impl AABB {
    pub open spec fn spec_contains(self, point: Vec2) -> bool {
        &&& self.min.x.spec_le(point.x)
        &&& point.x.spec_le(self.max.x)
        &&& self.min.y.spec_le(point.y)
        &&& point.y.spec_le(self.max.y)
    }

    pub open spec fn spec_intersects(self, other: AABB) -> bool {
        &&& self.min.x.spec_le(other.max.x)
        &&& other.min.x.spec_le(self.max.x)
        &&& self.min.y.spec_le(other.max.y)
        &&& other.min.y.spec_le(self.max.y)
    }

    pub open spec fn spec_merge(self, other: AABB) -> AABB {
        AABB {
            min: Vec2 { x: self.min.x.spec_min(other.min.x), y: self.min.y.spec_min(other.min.y) },
            max: Vec2 { x: self.max.x.spec_max(other.max.x), y: self.max.y.spec_max(other.max.y) },
        }
    }

    pub open spec fn spec_expand(self, point: Vec2) -> AABB {
        AABB {
            min: Vec2 { x: self.min.x.spec_min(point.x), y: self.min.y.spec_min(point.y) },
            max: Vec2 { x: self.max.x.spec_max(point.x), y: self.max.y.spec_max(point.y) },
        }
    }

    /// The extent of the box, summed over both axes, counted in steps between
    /// adjacent binary64 numbers.
    pub open spec fn span(self) -> int {
        (self.max.x.rank() - self.min.x.rank()) + (self.max.y.rank() - self.min.y.rank())
    }

    /// The extent of the box, summed over both axes, counted in steps between
    /// adjacent binary64 numbers.
    pub fn span_exec(&self) -> (s: i128)
        ensures
            s == self.span(),
    {
        (self.max.x.rank_exec() as i128 - self.min.x.rank_exec() as i128) + (self.max.y.rank_exec() as i128
            - self.min.y.rank_exec() as i128)
    }

    pub fn new(min: Vec2, max: Vec2) -> (b: AABB)
        ensures
            b.min == min,
            b.max == max,
    {
        AABB { min, max }
    }

    /// Whether `point` lies in the box, borders included.
    pub fn contains(&self, point: Vec2) -> (r: bool)
        ensures
            r == self.spec_contains(point),
    {
        point.x.le(&self.max.x) && self.min.x.le(&point.x) && point.y.le(&self.max.y)
            && self.min.y.le(&point.y)
    }

    /// Whether the two boxes share at least one point.
    pub fn intersects(&self, other: &AABB) -> (r: bool)
        ensures
            r == self.spec_intersects(*other),
    {
        self.min.x.le(&other.max.x) && other.min.x.le(&self.max.x) && self.min.y.le(&other.max.y)
            && other.min.y.le(&self.max.y)
    }

    /// The smallest box around both boxes.
    pub fn merge(&self, other: &AABB) -> (b: AABB)
        ensures
            b == self.spec_merge(*other),
    {
        AABB {
            min: Vec2::new(self.min.x.min(&other.min.x), self.min.y.min(&other.min.y)),
            max: Vec2::new(self.max.x.max(&other.max.x), self.max.y.max(&other.max.y)),
        }
    }

    /// The smallest box around this box and `point`.
    pub fn expand(&self, point: Vec2) -> (b: AABB)
        ensures
            b == self.spec_expand(point),
    {
        AABB {
            min: Vec2::new(self.min.x.min(&point.x), self.min.y.min(&point.y)),
            max: Vec2::new(self.max.x.max(&point.x), self.max.y.max(&point.y)),
        }
    }
}

/// `==` compares both corners as numbers.
impl PartialEq for AABB {
    fn eq(&self, other: &AABB) -> (r: bool) {
        self.min.eq(&other.min) && self.max.eq(&other.max)
    }
}

impl PartialEqSpecImpl for AABB {
    open spec fn obeys_eq_spec() -> bool {
        true
    }

    open spec fn eq_spec(&self, other: &AABB) -> bool {
        self.min.spec_same(other.min) && self.max.spec_same(other.max)
    }
}

/// Whether `a <= b`, unless `b` is a NaN.
pub open spec fn below_unless_nan(a: Coord, b: Coord) -> bool {
    b.spec_is_nan() || a.spec_le(b)
}

/// Whether `outer` reaches at least as far as `inner` on every side on which
/// `inner`'s corner coordinate is a number.
pub open spec fn encloses(outer: AABB, inner: AABB) -> bool {
    &&& below_unless_nan(outer.min.x, inner.min.x)
    &&& below_unless_nan(outer.min.y, inner.min.y)
    &&& (inner.max.x.spec_is_nan() || inner.max.x.spec_le(outer.max.x))
    &&& (inner.max.y.spec_is_nan() || inner.max.y.spec_le(outer.max.y))
}

/// A box that meets an enclosed box meets the enclosing one.
pub proof fn law_enclosed_meets(outer: AABB, inner: AABB, range: AABB)
    requires
        encloses(outer, inner),
        range.spec_intersects(inner),
    ensures
        range.spec_intersects(outer),
{
}

/// A point in an enclosed box lies in the enclosing one.
pub proof fn law_enclosed_contains(outer: AABB, inner: AABB, p: Vec2)
    requires
        encloses(outer, inner),
        inner.spec_contains(p),
    ensures
        outer.spec_contains(p),
{
}

/// A box that contains a point has a span of at least zero.
pub proof fn law_span_of_nonempty_box(b: AABB, p: Vec2)
    requires
        b.spec_contains(p),
    ensures
        b.span() >= 0,
{
}

/// Intersection does not depend on the order of the two boxes.
pub proof fn law_intersects_symmetric(a: AABB, b: AABB)
    ensures
        a.spec_intersects(b) == b.spec_intersects(a),
{
}

/// Two boxes that contain a common point intersect.
pub proof fn law_common_point_intersects(a: AABB, b: AABB, p: Vec2)
    requires
        a.spec_contains(p),
        b.spec_contains(p),
    ensures
        a.spec_intersects(b),
{
}

/// Containment looks at the numbers only: points whose coordinates are equal
/// as numbers (such as the two zeros) are contained in the same boxes.
pub proof fn law_contains_by_value(b: AABB, p: Vec2, q: Vec2)
    requires
        p.spec_same(q),
    ensures
        b.spec_contains(p) == b.spec_contains(q),
{
}

/// The merge of two boxes contains every point that either box contains.
pub proof fn law_merge_covers(a: AABB, b: AABB, p: Vec2)
    requires
        a.spec_contains(p) || b.spec_contains(p),
    ensures
        a.spec_merge(b).spec_contains(p),
{
}

/// Merging does not depend on the order of the two boxes: with no NaN among
/// their corner coordinates, `a.merge(b)` and `b.merge(a)` have corners equal
/// as numbers (they can differ only in the sign of a zero).
pub proof fn law_merge_symmetric(a: AABB, b: AABB)
    requires
        a.min.is_number(),
        a.max.is_number(),
        b.min.is_number(),
        b.max.is_number(),
    ensures
        a.spec_merge(b).min.spec_same(b.spec_merge(a).min),
        a.spec_merge(b).max.spec_same(b.spec_merge(a).max),
{
}

/// The merge is the smallest box around both boxes: with no NaN among their
/// corner coordinates, any box that contains the corners of both boxes
/// contains the corners of their merge, and so reaches at least as far on
/// every side.
pub proof fn law_merge_smallest(a: AABB, b: AABB, c: AABB)
    requires
        a.min.is_number(),
        a.max.is_number(),
        b.min.is_number(),
        b.max.is_number(),
        c.spec_contains(a.min),
        c.spec_contains(a.max),
        c.spec_contains(b.min),
        c.spec_contains(b.max),
    ensures
        c.spec_contains(a.spec_merge(b).min),
        c.spec_contains(a.spec_merge(b).max),
        encloses(c, a.spec_merge(b)),
{
}

/// A box contains its corners when it is not empty, and no point that lies
/// below, above, left or right of it.
pub proof fn law_contains_corners_and_nothing_outside(b: AABB, p: Vec2)
    ensures
        b.min.x.spec_le(b.max.x) && b.min.y.spec_le(b.max.y) ==> b.spec_contains(b.min) && b.spec_contains(
            b.max,
        ),
        p.x.spec_lt(b.min.x) || b.max.x.spec_lt(p.x) || p.y.spec_lt(b.min.y) || b.max.y.spec_lt(p.y)
            ==> !b.spec_contains(p),
{
}

/// Two boxes that intersect share a point, provided neither is empty (its
/// minimum at most its maximum on both axes).
pub proof fn law_intersecting_boxes_share_a_point(a: AABB, b: AABB)
    requires
        a.min.x.spec_le(a.max.x),
        a.min.y.spec_le(a.max.y),
        b.min.x.spec_le(b.max.x),
        b.min.y.spec_le(b.max.y),
        a.spec_intersects(b),
    ensures
        exists|p: Vec2| a.spec_contains(p) && b.spec_contains(p),
{
    let p = Vec2 { x: a.min.x.spec_max(b.min.x), y: a.min.y.spec_max(b.min.y) };
    assert(a.spec_contains(p) && b.spec_contains(p));
}

/// Boxes whose extents are disjoint on one axis (one lies wholly below, above,
/// left or right of the other) do not intersect.
pub proof fn law_separated_boxes_do_not_intersect(a: AABB, b: AABB)
    requires
        a.max.x.spec_lt(b.min.x) || b.max.x.spec_lt(a.min.x) || a.max.y.spec_lt(b.min.y) || b.max.y.spec_lt(
            a.min.y,
        ),
    ensures
        !a.spec_intersects(b),
{
}

/// Expanding gives the smallest box around the box and the point: with no
/// NaN among the coordinates, any box that contains the box's corners and the
/// point contains the corners of the expanded box, and so reaches at least as
/// far on every side.
pub proof fn law_expand_smallest(a: AABB, p: Vec2, c: AABB)
    requires
        a.min.is_number(),
        a.max.is_number(),
        p.is_number(),
        c.spec_contains(a.min),
        c.spec_contains(a.max),
        c.spec_contains(p),
    ensures
        c.spec_contains(a.spec_expand(p).min),
        c.spec_contains(a.spec_expand(p).max),
        encloses(c, a.spec_expand(p)),
{
}

/// Expanding a box by a point (neither of whose coordinates is a NaN) yields a
/// box that contains that point and every point the box contained.
pub proof fn law_expand_covers(a: AABB, p: Vec2, q: Vec2)
    requires
        p.is_number(),
    ensures
        a.spec_expand(p).spec_contains(p),
        a.spec_contains(q) ==> a.spec_expand(p).spec_contains(q),
{
}

} // verus!
