//! Axis-aligned bounding boxes.
use vstd::prelude::*;

use crate::geom::Point;
use crate::util::{intervals_meet, segments_intersect};

verus! {

/// AABB: axis-aligned bounding box.
#[derive(Clone, Copy, Debug, PartialEq, Eq, Structural)]
pub struct BoundingBox {
    /// Bottom left corner of the box.
    pub min: Point,
    /// Top right corner of the box.
    pub max: Point,
}

impl BoundingBox {
    /// The corners are in order on both axes.
    pub open spec fn wf(&self) -> bool {
        self.min.x <= self.max.x && self.min.y <= self.max.y
    }

    /// Both axes' intervals of `self` and `o` meet, touching ends included.
    pub open spec fn meets(&self, o: BoundingBox) -> bool {
        intervals_meet((self.min.x as int, self.max.x as int), (o.min.x as int, o.max.x as int))
            && intervals_meet(
            (self.min.y as int, self.max.y as int),
            (o.min.y as int, o.max.y as int),
        )
    }

    /// Constructs a bounding box from its bottom left and top right corners.
    pub fn from_min_max(min_point: Point, max_point: Point) -> (r: BoundingBox)
        ensures
            r.min == min_point,
            r.max == max_point,
    {
        BoundingBox { min: min_point, max: max_point }
    }

    /// Returns whether two bounding boxes collide.
    pub fn collides(&self, other: &BoundingBox) -> (r: bool)
        requires
            self.wf(),
            other.wf(),
        ensures
            r == self.meets(*other),
    {
        segments_intersect(
            (self.min.x as i128, self.max.x as i128),
            (other.min.x as i128, other.max.x as i128),
        ) && segments_intersect(
            (self.min.y as i128, self.max.y as i128),
            (other.min.y as i128, other.max.y as i128),
        )
    }
}

/// The box of a single point at the origin, which a collider holds until its
/// first update.
pub open spec fn origin_box() -> BoundingBox {
    BoundingBox { min: Point { x: 0, y: 0 }, max: Point { x: 0, y: 0 } }
}

impl Default for BoundingBox {
    fn default() -> (r: BoundingBox)
        ensures
            r == origin_box(),
    {
        BoundingBox { min: Point { x: 0, y: 0 }, max: Point { x: 0, y: 0 } }
    }
}

} // verus!
