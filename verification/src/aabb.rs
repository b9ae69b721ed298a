//! Detect collisions with Axis-aligned bounding boxes (AABB)

use crate::rect2d::{midpoint, spec_midpoint, Point, Rect2D};
use vstd::prelude::*;

verus! {

/// Defines an axis-aligned bounding box (AABB) for
/// collision detection of an entity
#[derive(Clone, Copy, Debug)]
pub struct AxisAlignedBoundingBox {
    /// Stores the size of the parent entity,
    /// wherever position it is rendered in space
    half_size: Point,
}

impl AxisAlignedBoundingBox {
    /// Half of the width and half of the height of the box.
    pub closed spec fn spec_half_size(self) -> Point {
        self.half_size
    }

    /// The corners of the box around `translate` can be written as
    /// coordinates.
    pub open spec fn can_place(self, translate: Point) -> bool {
        &&& i64::MIN <= translate.x - self.spec_half_size().x <= i64::MAX
        &&& i64::MIN <= translate.x + self.spec_half_size().x <= i64::MAX
        &&& i64::MIN <= translate.y - self.spec_half_size().y <= i64::MAX
        &&& i64::MIN <= translate.y + self.spec_half_size().y <= i64::MAX
    }

    /// The box around `translate`: its corners are `translate` less the
    /// half size and `translate` plus the half size.
    pub open spec fn spec_as_rect(self, translate: Point) -> Rect2D {
        Rect2D {
            min: Point {
                x: (translate.x - self.spec_half_size().x) as i64,
                y: (translate.y - self.spec_half_size().y) as i64,
            },
            max: Point {
                x: (translate.x + self.spec_half_size().x) as i64,
                y: (translate.y + self.spec_half_size().y) as i64,
            },
        }
    }

    /// Creates a new AABB
    pub fn new(width: i64, height: i64) -> (aabb: Self)
        ensures
            aabb.spec_half_size().x == spec_midpoint(0, width as int),
            aabb.spec_half_size().y == spec_midpoint(0, height as int),
    {
        Self { half_size: Point { x: midpoint(0, width), y: midpoint(0, height) } }
    }

    /// Half of the width and half of the height of the box.
    pub fn half_size(&self) -> (half: Point)
        ensures
            half == self.spec_half_size(),
    {
        self.half_size
    }

    /// Says whether the corners of the box around `translate` can be written
    /// as coordinates.
    pub fn fits_at(&self, translate: Point) -> (fits: bool)
        ensures
            fits == self.can_place(translate),
    {
        translate.x.checked_sub(self.half_size.x).is_some() && translate.x.checked_add(
            self.half_size.x,
        ).is_some() && translate.y.checked_sub(self.half_size.y).is_some()
            && translate.y.checked_add(self.half_size.y).is_some()
    }

    /// Converts an AABB with a position into a Rect2D
    pub fn as_rect(&self, translate: Point) -> (rect: Rect2D)
        requires
            self.can_place(translate),
        ensures
            rect == self.spec_as_rect(translate),
            rect.min.x == translate.x - self.spec_half_size().x,
            rect.min.y == translate.y - self.spec_half_size().y,
            rect.max.x == translate.x + self.spec_half_size().x,
            rect.max.y == translate.y + self.spec_half_size().y,
    {
        Rect2D::new(
            Point { x: translate.x - self.half_size.x, y: translate.y - self.half_size.y },
            Point { x: translate.x + self.half_size.x, y: translate.y + self.half_size.y },
        )
    }
}

/// A box with a half size that is not negative gives a well-formed
/// rectangle wherever it is placed.
pub proof fn lemma_as_rect_well_formed(aabb: AxisAlignedBoundingBox, translate: Point)
    requires
        aabb.spec_half_size().x >= 0,
        aabb.spec_half_size().y >= 0,
        aabb.can_place(translate),
    ensures
        aabb.spec_as_rect(translate).well_formed(),
{
}

} // verus!
