//! Two-dimensional rectangle for collision detection.

use vstd::prelude::*;

verus! {

/// A position or an extent on the integer grid.
#[derive(Clone, Copy, Debug, PartialEq, Eq, Structural)]
pub struct Point {
    /// Horizontal coordinate.
    pub x: i64,
    /// Vertical coordinate.
    pub y: i64,
}

/// The midpoint of two coordinates, rounded towards negative infinity.
pub open spec fn spec_midpoint(a: int, b: int) -> int {
    (a + b) / 2
}

/// Computes the midpoint of two coordinates without overflow.
pub fn midpoint(a: i64, b: i64) -> (m: i64)
    ensures
        m == spec_midpoint(a as int, b as int),
{
    let sum: i128 = a as i128 + b as i128;
    let half: i128 = if sum >= 0 {
        sum / 2
    } else {
        -((1 - sum) / 2)
    };
    half as i64
}

/// Two-dimensional rectangle for collision detection. Both corners belong to
/// the rectangle.
#[derive(Clone, Copy, Debug, PartialEq, Eq, Structural)]
pub struct Rect2D {
    /// Top-left corner of the rectangle
    pub min: Point,
    /// Bottom-right corner of the rectangle
    pub max: Point,
}

impl Rect2D {
    /// The minimum corner does not exceed the maximum corner on either axis.
    pub open spec fn well_formed(self) -> bool {
        self.min.x <= self.max.x && self.min.y <= self.max.y
    }

    /// The closed intervals of the two rectangles overlap on both axes.
    pub open spec fn spec_intersect(self, other: Rect2D) -> bool {
        &&& self.min.x <= other.max.x
        &&& self.max.x >= other.min.x
        &&& self.min.y <= other.max.y
        &&& self.max.y >= other.min.y
    }

    /// The midpoint of the two corners.
    pub open spec fn spec_center(self) -> Point {
        Point {
            x: spec_midpoint(self.min.x as int, self.max.x as int) as i64,
            y: spec_midpoint(self.min.y as int, self.max.y as int) as i64,
        }
    }

    /// The four sub-rectangles around the center: top-left, top-right,
    /// bottom-left, bottom-right.
    pub open spec fn spec_quadrants(self) -> Seq<Rect2D> {
        let c = self.spec_center();
        seq![
            Rect2D { min: self.min, max: c },
            Rect2D { min: Point { x: c.x, y: self.min.y }, max: Point { x: self.max.x, y: c.y } },
            Rect2D { min: Point { x: self.min.x, y: c.y }, max: Point { x: c.x, y: self.max.y } },
            Rect2D { min: c, max: self.max },
        ]
    }

    /// The point `(x, y)` lies in the rectangle, edges included.
    pub open spec fn contains_point(self, x: int, y: int) -> bool {
        self.min.x <= x <= self.max.x && self.min.y <= y <= self.max.y
    }

    /// Every point of `self` lies in `outer`.
    pub open spec fn within(self, outer: Rect2D) -> bool {
        &&& outer.min.x <= self.min.x
        &&& self.max.x <= outer.max.x
        &&& outer.min.y <= self.min.y
        &&& self.max.y <= outer.max.y
    }

    /// Creates a new Rect2D
    pub fn new(min: Point, max: Point) -> (r: Self)
        ensures
            r.min == min,
            r.max == max,
    {
        Self { min, max }
    }

    /// Checks if this rect intersects with other
    pub fn intersect(&self, other: &Self) -> (b: bool)
        ensures
            b == self.spec_intersect(*other),
    {
        self.min.x <= other.max.x && self.max.x >= other.min.x && self.min.y <= other.max.y
            && self.max.y >= other.min.y
    }

    /// Calculates the center coordinates of this rect
    pub fn center(&self) -> (c: Point)
        ensures
            c == self.spec_center(),
            c.x == spec_midpoint(self.min.x as int, self.max.x as int),
            c.y == spec_midpoint(self.min.y as int, self.max.y as int),
    {
        Point { x: midpoint(self.min.x, self.max.x), y: midpoint(self.min.y, self.max.y) }
    }

    /// Divides this rect2D into its quadrants.
    pub fn quadrants(&self) -> (q: Vec<Self>)
        ensures
            q@ == self.spec_quadrants(),
    {
        let center = self.center();
        let mut q: Vec<Self> = Vec::new();
        // top-left
        q.push(Self::new(self.min, center));
        // top-right
        q.push(
            Self::new(
                Point { x: center.x, y: self.min.y },
                Point { x: self.max.x, y: center.y },
            ),
        );
        // bottom-left
        q.push(
            Self::new(
                Point { x: self.min.x, y: center.y },
                Point { x: center.x, y: self.max.y },
            ),
        );
        // bottom-right
        q.push(Self::new(center, self.max));
        assert(q@ =~= self.spec_quadrants());
        q
    }
}

/// Intersection is symmetric: `a` overlaps `b` exactly when `b` overlaps `a`.
pub proof fn lemma_intersect_symmetric(a: Rect2D, b: Rect2D)
    ensures
        a.spec_intersect(b) == b.spec_intersect(a),
{
}

/// A well-formed rectangle overlaps itself.
pub proof fn lemma_intersect_reflexive(a: Rect2D)
    requires
        a.well_formed(),
    ensures
        a.spec_intersect(a),
{
}

/// The center of a well-formed rectangle lies between its corners.
pub proof fn lemma_center_between(a: Rect2D)
    requires
        a.well_formed(),
    ensures
        a.min.x <= a.spec_center().x <= a.max.x,
        a.min.y <= a.spec_center().y <= a.max.y,
{
}

/// Each quadrant of a well-formed rectangle is well formed and lies within
/// the rectangle.
pub proof fn lemma_quadrants_within(a: Rect2D, i: int)
    requires
        a.well_formed(),
        0 <= i < 4,
    ensures
        a.spec_quadrants().len() == 4,
        a.spec_quadrants()[i].well_formed(),
        a.spec_quadrants()[i].within(a),
{
    lemma_center_between(a);
}

/// The quadrants of a well-formed rectangle cover it without gaps and without
/// excess: a point lies in the rectangle exactly when it lies in at least one
/// quadrant.
pub proof fn lemma_quadrants_cover(a: Rect2D, x: int, y: int)
    requires
        a.well_formed(),
    ensures
        a.contains_point(x, y) <==> exists|i: int|
            0 <= i < 4 && #[trigger] a.spec_quadrants()[i].contains_point(x, y),
{
    lemma_center_between(a);
    let q = a.spec_quadrants();
    let c = a.spec_center();
    if a.contains_point(x, y) {
        if x <= c.x && y <= c.y {
            assert(q[0].contains_point(x, y));
        } else if y <= c.y {
            assert(q[1].contains_point(x, y));
        } else if x <= c.x {
            assert(q[2].contains_point(x, y));
        } else {
            assert(q[3].contains_point(x, y));
        }
    }
}

/// Two different quadrants of a well-formed rectangle share edges only: a
/// point that lies in both lies on one of the two lines through the center.
pub proof fn lemma_quadrants_share_edges_only(a: Rect2D, i: int, j: int, x: int, y: int)
    requires
        a.well_formed(),
        0 <= i < 4,
        0 <= j < 4,
        i != j,
        a.spec_quadrants()[i].contains_point(x, y),
        a.spec_quadrants()[j].contains_point(x, y),
    ensures
        x == a.spec_center().x || y == a.spec_center().y,
{
    lemma_center_between(a);
}

/// A rectangle that overlaps a part of another overlaps the whole of it.
pub proof fn lemma_intersect_outer(inner: Rect2D, outer: Rect2D, target: Rect2D)
    requires
        inner.within(outer),
        inner.spec_intersect(target),
    ensures
        outer.spec_intersect(target),
{
}

/// The width of a rectangle: how far its corners are apart horizontally.
pub open spec fn spec_width(a: Rect2D) -> int {
    a.max.x - a.min.x
}

/// The height of a rectangle: how far its corners are apart vertically.
pub open spec fn spec_height(a: Rect2D) -> int {
    a.max.y - a.min.y
}

/// The four quadrants of a rectangle are of equal size where its width and
/// its height are even: each is half as wide and half as high. Where one of
/// them is odd, the quadrants on the two sides differ by one step.
pub proof fn lemma_quadrants_equal(a: Rect2D, i: int)
    requires
        a.well_formed(),
        0 <= i < 4,
    ensures
        spec_width(a) % 2 == 0 ==> 2 * spec_width(a.spec_quadrants()[i]) == spec_width(a),
        spec_height(a) % 2 == 0 ==> 2 * spec_height(a.spec_quadrants()[i]) == spec_height(a),
        spec_width(a) / 2 <= spec_width(a.spec_quadrants()[i]) <= spec_width(a) / 2 + 1,
        spec_height(a) / 2 <= spec_height(a.spec_quadrants()[i]) <= spec_height(a) / 2 + 1,
{
    lemma_center_between(a);
}

} // verus!
