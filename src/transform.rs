//! Placement of a local-space shape in the world: scale, then turn by whole
//! quarter turns counter-clockwise, then translate.
use vstd::prelude::*;

use crate::geom::{point_within, within, Point, COORD_LIMIT};

verus! {

#[derive(Clone, Copy, Debug, PartialEq, Eq, Structural)]
pub struct Transform {
    pub translation: Point,
    /// Counter-clockwise quarter turns; only the value modulo 4 matters.
    pub quarter_turns: u8,
    pub scale: Point,
}

/// `v` turned `q` quarter turns counter-clockwise.
pub open spec fn turned(q: int, v: (int, int)) -> (int, int) {
    let k = q % 4;
    if k == 0 {
        v
    } else if k == 1 {
        (-v.1, v.0)
    } else if k == 2 {
        (-v.0, -v.1)
    } else {
        (v.1, -v.0)
    }
}

/// Where `t` takes the local point `p`, over unbounded integers.
pub open spec fn apply(t: Transform, p: Point) -> (int, int) {
    let s = (t.scale.x * p.x, t.scale.y * p.y);
    let r = turned(t.quarter_turns as int, s);
    (r.0 + t.translation.x, r.1 + t.translation.y)
}

/// `t` takes `p` to a point inside the world's coordinate limit.
pub open spec fn fits(t: Transform, p: Point) -> bool {
    within(apply(t, p).0, COORD_LIMIT as int) && within(apply(t, p).1, COORD_LIMIT as int)
}

pub open spec fn applied(t: Transform, p: Point) -> Point {
    Point { x: apply(t, p).0 as i64, y: apply(t, p).1 as i64 }
}

/// `t` scales both axes alike.
pub open spec fn uniform(t: Transform) -> bool {
    t.scale.x == t.scale.y
}

/// The size of `t`'s uniform scale factor.
pub open spec fn scale_size(t: Transform) -> int {
    if t.scale.x < 0 {
        -t.scale.x
    } else {
        t.scale.x as int
    }
}

pub open spec fn is_identity(t: Transform) -> bool {
    t.translation.x == 0 && t.translation.y == 0 && t.quarter_turns % 4 == 0 && t.scale.x == 1
        && t.scale.y == 1
}

impl Transform {
    /// The transform that leaves every point where it is.
    pub fn identity() -> (r: Transform)
        ensures
            is_identity(r),
    {
        Transform { translation: Point { x: 0, y: 0 }, quarter_turns: 0, scale: Point { x: 1, y: 1 } }
    }

    /// A pure translation.
    pub fn from_translation(translation: Point) -> (r: Transform)
        ensures
            r.translation == translation,
            r.quarter_turns == 0,
            r.scale == (Point { x: 1, y: 1 }),
    {
        Transform { translation, quarter_turns: 0, scale: Point { x: 1, y: 1 } }
    }

    /// Applies the transform to a point.
    pub fn apply_to(&self, p: Point) -> (r: Point)
        requires
            fits(*self, p),
        ensures
            r == applied(*self, p),
            r.x == apply(*self, p).0,
            r.y == apply(*self, p).1,
            point_within(r, COORD_LIMIT as int),
    {
        proof {
            crate::geom::lemma_mul_within(self.scale.x as int, p.x as int, 0x8000_0000_0000_0000, 0x8000_0000_0000_0000);
            crate::geom::lemma_mul_within(self.scale.y as int, p.y as int, 0x8000_0000_0000_0000, 0x8000_0000_0000_0000);
        }
        let sx: i128 = (self.scale.x as i128) * (p.x as i128);
        let sy: i128 = (self.scale.y as i128) * (p.y as i128);
        let k: u8 = self.quarter_turns % 4;
        let (rx, ry): (i128, i128) = if k == 0 {
            (sx, sy)
        } else if k == 1 {
            (-sy, sx)
        } else if k == 2 {
            (-sx, -sy)
        } else {
            (sy, -sx)
        };
        let x: i128 = rx + self.translation.x as i128;
        let y: i128 = ry + self.translation.y as i128;
        Point { x: x as i64, y: y as i64 }
    }
}

/// The unit vector at `q` quarter turns counter-clockwise from the x axis.
pub open spec fn quarter_dir(q: int) -> (int, int) {
    turned(q, (1, 0))
}

impl Transform {
    fn direction(&self, extra: u8) -> (r: Point)
        requires
            extra < 4,
        ensures
            r.x == quarter_dir(self.quarter_turns as int + extra as int).0,
            r.y == quarter_dir(self.quarter_turns as int + extra as int).1,
    {
        let k: u8 = (self.quarter_turns % 4 + extra) % 4;
        if k == 0 {
            Point { x: 1, y: 0 }
        } else if k == 1 {
            Point { x: 0, y: 1 }
        } else if k == 2 {
            Point { x: -1, y: 0 }
        } else {
            Point { x: 0, y: -1 }
        }
    }

    /// The direction the transform faces: the y axis, turned.
    pub fn forward(&self) -> (r: Point)
        ensures
            r.x == quarter_dir(self.quarter_turns as int + 1).0,
            r.y == quarter_dir(self.quarter_turns as int + 1).1,
    {
        self.direction(1)
    }

    /// The direction to the left of the facing one: the negative x axis,
    /// turned.
    pub fn left(&self) -> (r: Point)
        ensures
            r.x == quarter_dir(self.quarter_turns as int + 2).0,
            r.y == quarter_dir(self.quarter_turns as int + 2).1,
    {
        self.direction(2)
    }

    /// The direction opposite to the facing one.
    pub fn backward(&self) -> (r: Point)
        ensures
            r.x == quarter_dir(self.quarter_turns as int + 3).0,
            r.y == quarter_dir(self.quarter_turns as int + 3).1,
    {
        self.direction(3)
    }

    /// The direction to the right of the facing one: the x axis, turned.
    pub fn right(&self) -> (r: Point)
        ensures
            r.x == quarter_dir(self.quarter_turns as int).0,
            r.y == quarter_dir(self.quarter_turns as int).1,
    {
        self.direction(0)
    }

    /// The transform with its scale multiplied by `scale_factor`, axis by axis.
    pub fn scaled(self, scale_factor: Point) -> (r: Transform)
        requires
            within(self.scale.x * scale_factor.x, i64::MAX as int),
            within(self.scale.y * scale_factor.y, i64::MAX as int),
        ensures
            r.translation == self.translation,
            r.quarter_turns == self.quarter_turns,
            r.scale.x == self.scale.x * scale_factor.x,
            r.scale.y == self.scale.y * scale_factor.y,
    {
        Transform {
            translation: self.translation,
            quarter_turns: self.quarter_turns,
            scale: Point { x: self.scale.x * scale_factor.x, y: self.scale.y * scale_factor.y },
        }
    }

    /// Moves the transform by `translation`.
    pub fn translate(&mut self, translation: Point)
        requires
            within(old(self).translation.x + translation.x, i64::MAX as int),
            within(old(self).translation.y + translation.y, i64::MAX as int),
        ensures
            final(self).translation.x == old(self).translation.x + translation.x,
            final(self).translation.y == old(self).translation.y + translation.y,
            final(self).quarter_turns == old(self).quarter_turns,
            final(self).scale == old(self).scale,
    {
        self.translation = Point {
            x: self.translation.x + translation.x,
            y: self.translation.y + translation.y,
        };
    }

    /// Moves the transform to `translation`.
    pub fn translate_to(&mut self, translation: Point)
        ensures
            final(self).translation == translation,
            final(self).quarter_turns == old(self).quarter_turns,
            final(self).scale == old(self).scale,
    {
        self.translation = translation;
    }
}

/// The identity transform leaves every point where it is.
pub proof fn lemma_identity_apply(t: Transform, p: Point)
    requires
        is_identity(t),
    ensures
        apply(t, p) == (p.x as int, p.y as int),
        applied(t, p) == p,
{
}

} // verus!
