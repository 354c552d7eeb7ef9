//! Integer points and vectors of the plane, and the arithmetic on them that the
//! collision code needs.
use vstd::prelude::*;

verus! {

/// Every world-space coordinate and radius that the collision code works on
/// lies within `[-COORD_LIMIT, COORD_LIMIT]`; this keeps every product the
/// separating-axis test forms inside `i128`.
pub const COORD_LIMIT: i64 = 65536;

/// A point, or a vector, with integer coordinates.
#[derive(Clone, Copy, Debug, PartialEq, Eq, Structural)]
pub struct Point {
    pub x: i64,
    pub y: i64,
}

pub open spec fn within(v: int, lim: int) -> bool {
    -lim <= v <= lim
}

/// Both coordinates of `p` lie within `[-lim, lim]`.
pub open spec fn point_within(p: Point, lim: int) -> bool {
    within(p.x as int, lim) && within(p.y as int, lim)
}

pub open spec fn dot(a: Point, b: Point) -> int {
    a.x * b.x + a.y * b.y
}

pub open spec fn cross(a: Point, b: Point) -> int {
    a.x * b.y - a.y * b.x
}

pub open spec fn norm2(a: Point) -> int {
    dot(a, a)
}

pub open spec fn is_zero(a: Point) -> bool {
    a.x == 0 && a.y == 0
}

pub open spec fn diff(a: Point, b: Point) -> Point {
    Point { x: (a.x - b.x) as i64, y: (a.y - b.y) as i64 }
}

pub open spec fn negated(a: Point) -> Point {
    Point { x: (-a.x) as i64, y: (-a.y) as i64 }
}

/// `a` turned a quarter turn clockwise.
pub open spec fn rot_cw(a: Point) -> Point {
    Point { x: a.y, y: (-a.x) as i64 }
}

pub proof fn lemma_mul_within(a: int, b: int, la: int, lb: int)
    requires
        within(a, la),
        within(b, lb),
    ensures
        within(a * b, la * lb),
{
    assert(within(a * b, la * lb)) by (nonlinear_arith)
        requires
            -la <= a <= la,
            -lb <= b <= lb,
    ;
}

pub proof fn lemma_dot_within(a: Point, b: Point, la: int, lb: int)
    requires
        point_within(a, la),
        point_within(b, lb),
    ensures
        within(dot(a, b), 2 * la * lb),
{
    lemma_mul_within(a.x as int, b.x as int, la, lb);
    lemma_mul_within(a.y as int, b.y as int, la, lb);
    assert(2 * la * lb == la * lb + la * lb) by (nonlinear_arith);
}

pub proof fn lemma_norm2_nonneg(a: Point)
    ensures
        norm2(a) >= 0,
        norm2(a) == 0 <==> is_zero(a),
{
    assert(norm2(a) >= 0 && (norm2(a) == 0 <==> is_zero(a))) by (nonlinear_arith)
        requires
            norm2(a) == a.x * a.x + a.y * a.y,
            is_zero(a) == (a.x == 0 && a.y == 0),
    ;
}

impl Point {
    pub fn new(x: i64, y: i64) -> (r: Point)
        ensures
            r.x == x,
            r.y == y,
    {
        Point { x, y }
    }

    pub fn zero() -> (r: Point)
        ensures
            is_zero(r),
    {
        Point { x: 0, y: 0 }
    }

    pub fn is_zero(&self) -> (r: bool)
        ensures
            r == is_zero(*self),
    {
        self.x == 0 && self.y == 0
    }

    /// `self - o`.
    pub fn sub(&self, o: &Point) -> (r: Point)
        requires
            point_within(*self, 0x4000_0000_0000_0000),
            point_within(*o, 0x3fff_ffff_ffff_ffff),
        ensures
            r == diff(*self, *o),
            r.x == self.x - o.x,
            r.y == self.y - o.y,
    {
        Point { x: self.x - o.x, y: self.y - o.y }
    }

    /// `-self`.
    pub fn neg(&self) -> (r: Point)
        requires
            point_within(*self, i64::MAX as int),
        ensures
            r == negated(*self),
            r.x == -self.x,
            r.y == -self.y,
    {
        Point { x: -self.x, y: -self.y }
    }

    /// `self` turned a quarter turn clockwise.
    pub fn rotate_clockwise_90(&self) -> (r: Point)
        requires
            point_within(*self, i64::MAX as int),
        ensures
            r == rot_cw(*self),
    {
        Point { x: self.y, y: -self.x }
    }

    /// The dot product, for coordinates of at most 2^40 in size.
    pub fn dot(&self, o: &Point) -> (r: i128)
        requires
            point_within(*self, 0x100_0000_0000),
            point_within(*o, 0x100_0000_0000),
        ensures
            r == dot(*self, *o),
    {
        proof {
            lemma_mul_within(self.x as int, o.x as int, 0x100_0000_0000, 0x100_0000_0000);
            lemma_mul_within(self.y as int, o.y as int, 0x100_0000_0000, 0x100_0000_0000);
        }
        (self.x as i128) * (o.x as i128) + (self.y as i128) * (o.y as i128)
    }

    /// The cross product `self.x * o.y - self.y * o.x`, for coordinates of at
    /// most 2^40 in size.
    pub fn cross(&self, o: &Point) -> (r: i128)
        requires
            point_within(*self, 0x100_0000_0000),
            point_within(*o, 0x100_0000_0000),
        ensures
            r == cross(*self, *o),
    {
        proof {
            lemma_mul_within(self.x as int, o.y as int, 0x100_0000_0000, 0x100_0000_0000);
            lemma_mul_within(self.y as int, o.x as int, 0x100_0000_0000, 0x100_0000_0000);
        }
        (self.x as i128) * (o.y as i128) - (self.y as i128) * (o.x as i128)
    }

    /// `self` and `other` point the same way: they are parallel, not zero,
    /// and not opposite.
    pub fn collinear(&self, other: &Point) -> (r: bool)
        requires
            point_within(*self, 0x100_0000_0000),
            point_within(*other, 0x100_0000_0000),
        ensures
            r == (cross(*self, *other) == 0 && dot(*self, *other) > 0),
    {
        self.cross(other) == 0 && self.dot(other) > 0
    }

    /// The squared length.
    pub fn length_squared(&self) -> (r: i128)
        requires
            point_within(*self, 0x100_0000_0000),
        ensures
            r == norm2(*self),
            r >= 0,
    {
        proof {
            lemma_norm2_nonneg(*self);
        }
        self.dot(self)
    }
}


/// A point of space with integer coordinates.
#[derive(Clone, Copy, Debug, PartialEq, Eq, Structural)]
pub struct Point3 {
    pub x: i64,
    pub y: i64,
    pub z: i64,
}

pub open spec fn point3_within(p: Point3, lim: int) -> bool {
    within(p.x as int, lim) && within(p.y as int, lim) && within(p.z as int, lim)
}

pub open spec fn dot3(a: Point3, b: Point3) -> int {
    a.x * b.x + a.y * b.y + a.z * b.z
}

/// The cross product of `a` and `b`, over unbounded integers.
pub open spec fn cross3(a: Point3, b: Point3) -> (int, int, int) {
    (a.y * b.z - a.z * b.y, a.z * b.x - a.x * b.z, a.x * b.y - a.y * b.x)
}

pub trait Vec3Ext: Sized {
    /// The coordinates are small enough for `collinear`.
    spec fn in_range(&self) -> bool;

    /// `self` and `other` point the same way: they are parallel, not zero,
    /// and not opposite.
    spec fn same_direction(&self, other: &Self) -> bool;

    /// Tests whether `self` and `other` point the same way.
    fn collinear(self, other: Self) -> (r: bool)
        requires
            self.in_range(),
            other.in_range(),
        ensures
            r == self.same_direction(&other),
    ;
}

impl Vec3Ext for Point3 {
    open spec fn in_range(&self) -> bool {
        point3_within(*self, 0x100_0000_0000)
    }

    open spec fn same_direction(&self, other: &Point3) -> bool {
        cross3(*self, *other) == (0int, 0int, 0int) && dot3(*self, *other) > 0
    }

    fn collinear(self, other: Point3) -> (r: bool) {
        point3_collinear(&self, &other)
    }
}

/// Tests whether `a` and `b` point the same way.
pub fn point3_collinear(a: &Point3, b: &Point3) -> (r: bool)
    requires
        point3_within(*a, 0x100_0000_0000),
        point3_within(*b, 0x100_0000_0000),
    ensures
        r == (cross3(*a, *b) == (0int, 0int, 0int) && dot3(*a, *b) > 0),
{
    proof {
        let lim: int = 0x100_0000_0000int;
        lemma_mul_within(a.x as int, b.x as int, lim, lim);
        lemma_mul_within(a.y as int, b.y as int, lim, lim);
        lemma_mul_within(a.z as int, b.z as int, lim, lim);
        lemma_mul_within(a.x as int, b.y as int, lim, lim);
        lemma_mul_within(a.x as int, b.z as int, lim, lim);
        lemma_mul_within(a.y as int, b.x as int, lim, lim);
        lemma_mul_within(a.y as int, b.z as int, lim, lim);
        lemma_mul_within(a.z as int, b.x as int, lim, lim);
        lemma_mul_within(a.z as int, b.y as int, lim, lim);
    }
    let (ax, ay, az) = (a.x as i128, a.y as i128, a.z as i128);
    let (bx, by, bz) = (b.x as i128, b.y as i128, b.z as i128);
    let cx = ay * bz - az * by;
    let cy = az * bx - ax * bz;
    let cz = ax * by - ay * bx;
    let d = ax * bx + ay * by + az * bz;
    cx == 0 && cy == 0 && cz == 0 && d > 0
}

} // verus!
