//! 2D shapes: circles and convex polygons.
use vstd::prelude::*;

use crate::geom::{
    cross, diff, dot, is_zero, lemma_dot_within, negated, norm2, point_within, rot_cw, within,
    Point, COORD_LIMIT,
};
use crate::util::{ceil_sqrt, is_ceil_sqrt, isqrt_ceil};
use crate::transform::{
    applied, fits, is_identity, lemma_identity_apply, scale_size, uniform, Transform,
};

verus! {

#[derive(Clone, Copy, Debug, PartialEq, Eq, Structural)]
pub struct CircleShape {
    pub radius: i64,
    pub center: Point,
}

impl CircleShape {
    pub fn new(radius: i64, center: Point) -> (r: CircleShape)
        ensures
            r.radius == radius,
            r.center == center,
    {
        CircleShape { radius, center }
    }
}

/// A convex polygon. Points and their edges are ordered counter-clockwise;
/// edge `i` runs from point `i` to the next point, and normal `i` is edge `i`
/// turned a quarter turn clockwise, so it points out of the polygon.
#[derive(Debug)]
pub struct PolyShape {
    points: Vec<Point>,
    edges: Vec<Point>,
    normals: Vec<Point>,
}

/// A shape as a mathematical value: what the collision code reads of it.
pub enum ShapeView {
    Circle { radius: i64, center: Point },
    Poly { points: Seq<Point> },
}

/// The edge of the closed polygon `pts` that leaves point `i`.
pub open spec fn edge_at(pts: Seq<Point>, i: int) -> Point {
    diff(pts[(i + 1) % pts.len() as int], pts[i])
}

/// Every point of `pts` lies within the coordinate limit.
pub open spec fn points_within(pts: Seq<Point>) -> bool {
    forall|i: int| 0 <= i < pts.len() ==> point_within(#[trigger] pts[i], COORD_LIMIT as int)
}

/// The direction of the non-zero vector `v` lies in the half turn
/// `[0, pi)` counted counter-clockwise from the positive x direction.
pub open spec fn upper_half(v: Point) -> bool {
    v.y > 0 || (v.y == 0 && v.x > 0)
}

/// The direction of `u` comes before that of `v`, both counted
/// counter-clockwise from the positive x direction in `[0, 2 pi)`.
pub open spec fn angle_before(u: Point, v: Point) -> bool {
    if upper_half(u) == upper_half(v) {
        cross(u, v) > 0
    } else {
        upper_half(u)
    }
}

/// How many of the first `k` turns of the closed polygon `pts`, from edge `i`
/// to edge `i + 1`, carry the edge direction past the positive x direction.
pub open spec fn wraps(pts: Seq<Point>, k: int) -> int
    decreases k,
{
    if k <= 0 {
        0
    } else {
        wraps(pts, k - 1) + if angle_before(edge_at(pts, k % (pts.len() as int)), edge_at(pts, k - 1)) {
            1int
        } else {
            0int
        }
    }
}

/// `pts` is a convex polygon ordered counter-clockwise: it has at least two
/// points, no edge is empty, and turning counter-clockwise from each edge to
/// the next, the edge direction goes round exactly once; that is, the turning
/// angles, each in `[0, 2 pi)`, sum to `2 pi`.
pub open spec fn is_convex(pts: Seq<Point>) -> bool {
    &&& pts.len() >= 2
    &&& forall|i: int| 0 <= i < pts.len() ==> !is_zero(#[trigger] edge_at(pts, i))
    &&& wraps(pts, pts.len() as int) == 1
}

impl View for PolyShape {
    type V = Seq<Point>;

    closed spec fn view(&self) -> Seq<Point> {
        self.points@
    }
}

impl PolyShape {
    /// The cached edges and normals agree with the points.
    pub closed spec fn wf(&self) -> bool {
        &&& self.points@.len() >= 1
        &&& points_within(self.points@)
        &&& self.edges@.len() == self.points@.len()
        &&& self.normals@.len() == self.points@.len()
        &&& forall|i: int|
            0 <= i < self.points@.len() ==> #[trigger] self.edges@[i] == edge_at(self.points@, i)
        &&& forall|i: int|
            0 <= i < self.points@.len() ==> #[trigger] self.normals@[i] == rot_cw(
                edge_at(self.points@, i),
            )
    }
}

proof fn lemma_edge_within(pts: Seq<Point>, i: int)
    requires
        points_within(pts),
        0 <= i < pts.len(),
    ensures
        point_within(edge_at(pts, i), 2 * COORD_LIMIT as int),
        (edge_at(pts, i).x as int) == pts[(i + 1) % pts.len() as int].x - pts[i].x,
        (edge_at(pts, i).y as int) == pts[(i + 1) % pts.len() as int].y - pts[i].y,
{
    let n = pts.len() as int;
    assert(0 <= (i + 1) % n < n) by {
        vstd::arithmetic::div_mod::lemma_mod_bound(i + 1, n);
    }
    assert(point_within(pts[(i + 1) % n], COORD_LIMIT as int));
}

/// Edges of the closed polygon through `points`, and their outward normals.
fn edges_and_normals(points: &Vec<Point>) -> (r: (Vec<Point>, Vec<Point>))
    requires
        points@.len() >= 1,
        points_within(points@),
    ensures
        r.0@.len() == points@.len(),
        r.1@.len() == points@.len(),
        forall|i: int| 0 <= i < points@.len() ==> #[trigger] r.0@[i] == edge_at(points@, i),
        forall|i: int| 0 <= i < points@.len() ==> #[trigger] r.1@[i] == rot_cw(edge_at(points@, i)),
{
    let n = points.len();
    let mut edges: Vec<Point> = Vec::with_capacity(n);
    let mut normals: Vec<Point> = Vec::with_capacity(n);
    let mut i: usize = 0;
    while i < n
        invariant
            n == points@.len(),
            n >= 1,
            points_within(points@),
            i <= n,
            edges@.len() == i,
            normals@.len() == i,
            forall|k: int| 0 <= k < i ==> #[trigger] edges@[k] == edge_at(points@, k),
            forall|k: int| 0 <= k < i ==> #[trigger] normals@[k] == rot_cw(edge_at(points@, k)),
        decreases n - i,
    {
        let next: usize = if i + 1 == n { 0 } else { i + 1 };
        proof {
            if i + 1 < n {
                vstd::arithmetic::div_mod::lemma_small_mod((i + 1) as nat, n as nat);
            } else {
                vstd::arithmetic::div_mod::lemma_mod_self_0(n as int);
            }
            lemma_edge_within(points@, i as int);
            assert(point_within(points@[next as int], COORD_LIMIT as int));
            assert(point_within(points@[i as int], COORD_LIMIT as int));
        }
        let e = points[next].sub(&points[i]);
        edges.push(e);
        normals.push(e.rotate_clockwise_90());
        i = i + 1;
    }
    (edges, normals)
}

/// The direction of `u` comes before that of `v`, as `angle_before` says.
fn angle_before_exec(u: &Point, v: &Point) -> (r: bool)
    requires
        point_within(*u, 2 * COORD_LIMIT as int),
        point_within(*v, 2 * COORD_LIMIT as int),
    ensures
        r == angle_before(*u, *v),
{
    let hu = u.y > 0 || (u.y == 0 && u.x > 0);
    let hv = v.y > 0 || (v.y == 0 && v.x > 0);
    if hu == hv {
        u.cross(v) > 0
    } else {
        hu
    }
}

/// The edge of the closed polygon `points` that leaves point `i`.
fn edge_exec(points: &Vec<Point>, i: usize) -> (r: Point)
    requires
        i < points@.len(),
        points_within(points@),
    ensures
        r == edge_at(points@, i as int),
        point_within(r, 2 * COORD_LIMIT as int),
{
    let n = points.len();
    let next: usize = if i + 1 == n { 0 } else { i + 1 };
    proof {
        if i + 1 < n {
            vstd::arithmetic::div_mod::lemma_small_mod((i + 1) as nat, n as nat);
        } else {
            vstd::arithmetic::div_mod::lemma_mod_self_0(n as int);
        }
        lemma_edge_within(points@, i as int);
        assert(point_within(points@[next as int], COORD_LIMIT as int));
        assert(point_within(points@[i as int], COORD_LIMIT as int));
    }
    points[next].sub(&points[i])
}

/// Tests whether `points` is a convex polygon ordered counter-clockwise.
pub fn is_convex_polygon(points: &Vec<Point>) -> (r: bool)
    requires
        points_within(points@),
    ensures
        r == is_convex(points@),
{
    let n = points.len();
    if n < 2 {
        return false;
    }
    let mut count: usize = 0;
    let mut i: usize = 0;
    while i < n
        invariant
            n == points@.len(),
            n >= 2,
            points_within(points@),
            i <= n,
            count <= i,
            count == wraps(points@, i as int),
            forall|k: int| 0 <= k < i ==> !is_zero(#[trigger] edge_at(points@, k)),
        decreases n - i,
    {
        let e = edge_exec(points, i);
        if e.is_zero() {
            return false;
        }
        let e_next = edge_exec(points, if i + 1 == n { 0 } else { i + 1 });
        proof {
            let k = (i + 1) as int;
            if i + 1 < n {
                vstd::arithmetic::div_mod::lemma_small_mod(k as nat, n as nat);
            } else {
                vstd::arithmetic::div_mod::lemma_mod_self_0(n as int);
            }
            assert(edge_at(points@, k % (n as int)) == e_next);
        }
        if angle_before_exec(&e_next, &e) {
            count = count + 1;
        }
        i = i + 1;
    }
    count == 1
}

/// `v` in the opposite order.
fn reversed(v: &Vec<Point>) -> (r: Vec<Point>)
    ensures
        r@ == v@.reverse(),
{
    let n = v.len();
    let mut r: Vec<Point> = Vec::with_capacity(n);
    let mut i: usize = 0;
    while i < n
        invariant
            n == v@.len(),
            i <= n,
            r@.len() == i,
            forall|k: int| 0 <= k < i ==> #[trigger] r@[k] == v@[n - 1 - k],
        decreases n - i,
    {
        r.push(v[n - 1 - i]);
        i = i + 1;
    }
    assert(r@ =~= v@.reverse());
    r
}

impl PolyShape {
    fn from_points(points: Vec<Point>) -> (r: PolyShape)
        requires
            points@.len() >= 1,
            points_within(points@),
        ensures
            r.wf(),
            r@ == points@,
    {
        let (edges, normals) = edges_and_normals(&points);
        PolyShape { points, edges, normals }
    }

    /// Creates a polygon, reversing the order of `points` where that makes
    /// them a convex polygon ordered counter-clockwise.
    pub fn new(points: Vec<Point>) -> (r: PolyShape)
        requires
            points_within(points@),
            is_convex(points@) || is_convex(points@.reverse()),
        ensures
            r.wf(),
            r@ == if is_convex(points@) {
                points@
            } else {
                points@.reverse()
            },
            is_convex(r@),
    {
        if is_convex_polygon(&points) {
            PolyShape::from_points(points)
        } else {
            let rev = reversed(&points);
            proof {
                assert forall|i: int| 0 <= i < rev@.len() implies point_within(
                    #[trigger] rev@[i],
                    COORD_LIMIT as int,
                ) by {
                    assert(rev@[i] == points@[points@.len() - 1 - i]);
                }
            }
            PolyShape::from_points(rev)
        }
    }

    /// Like `new`, but returns `None` where neither order of `points` is a
    /// convex polygon.
    pub fn try_new(points: Vec<Point>) -> (r: Option<PolyShape>)
        requires
            points_within(points@),
        ensures
            r.is_some() <==> is_convex(points@) || is_convex(points@.reverse()),
            r.is_some() ==> r.unwrap().wf() && r.unwrap()@ == if is_convex(points@) {
                points@
            } else {
                points@.reverse()
            },
    {
        let rev = reversed(&points);
        proof {
            assert forall|i: int| 0 <= i < rev@.len() implies point_within(
                #[trigger] rev@[i],
                COORD_LIMIT as int,
            ) by {
                assert(rev@[i] == points@[points@.len() - 1 - i]);
            }
        }
        if is_convex_polygon(&points) || is_convex_polygon(&rev) {
            Some(PolyShape::new(points))
        } else {
            None
        }
    }

    /// The points, counter-clockwise.
    pub fn points(&self) -> (r: &Vec<Point>)
        ensures
            r@ == self@,
    {
        &self.points
    }
}


fn copy_points(v: &Vec<Point>) -> (r: Vec<Point>)
    ensures
        r@ == v@,
{
    let n = v.len();
    let mut r: Vec<Point> = Vec::with_capacity(n);
    let mut i: usize = 0;
    while i < n
        invariant
            n == v@.len(),
            i <= n,
            r@ == v@.subrange(0, i as int),
        decreases n - i,
    {
        r.push(v[i]);
        i = i + 1;
        assert(r@ =~= v@.subrange(0, i as int));
    }
    assert(r@ =~= v@);
    r
}

impl PolyShape {
    fn copy(&self) -> (r: PolyShape)
        ensures
            r@ == self@,
            self.wf() ==> r.wf(),
    {
        PolyShape {
            points: copy_points(&self.points),
            edges: copy_points(&self.edges),
            normals: copy_points(&self.normals),
        }
    }
}

#[derive(Debug)]
pub enum Shape {
    Circle(CircleShape),
    Poly(PolyShape),
}

impl View for Shape {
    type V = ShapeView;

    open spec fn view(&self) -> ShapeView {
        match self {
            Shape::Circle(c) => ShapeView::Circle { radius: c.radius, center: c.center },
            Shape::Poly(p) => ShapeView::Poly { points: p@ },
        }
    }
}

/// A circle's radius is non-negative, and it and the centre lie within the
/// coordinate limit; a polygon has at least one point, all within the limit.
pub open spec fn shape_within(s: ShapeView) -> bool {
    match s {
        ShapeView::Circle { radius, center } => 0 <= radius <= COORD_LIMIT && point_within(
            center,
            COORD_LIMIT as int,
        ),
        ShapeView::Poly { points } => points.len() >= 1 && points_within(points),
    }
}

impl Shape {
    pub open spec fn wf(&self) -> bool {
        match self {
            Shape::Circle(c) => shape_within(self@),
            Shape::Poly(p) => p.wf(),
        }
    }

    fn copy(&self) -> (r: Shape)
        ensures
            r@ == self@,
            self.wf() ==> r.wf(),
    {
        match self {
            Shape::Circle(c) => Shape::Circle(*c),
            Shape::Poly(p) => Shape::Poly(p.copy()),
        }
    }
}

pub proof fn lemma_wf_within(s: &Shape)
    requires
        s.wf(),
    ensures
        shape_within(s@),
{
    if let Shape::Poly(p) = s {
        reveal_poly_wf(p);
    }
}

proof fn reveal_poly_wf(p: &PolyShape)
    requires
        p.wf(),
    ensures
        p@.len() >= 1,
        points_within(p@),
{
}

/// The least of `dot(p, a)` over the points `p` of `pts`.
pub open spec fn min_dot(pts: Seq<Point>, a: Point) -> int
    decreases pts.len(),
{
    if pts.len() <= 1 {
        dot(pts[0], a)
    } else {
        let m = min_dot(pts.drop_last(), a);
        let d = dot(pts.last(), a);
        if d < m {
            d
        } else {
            m
        }
    }
}

/// The greatest of `dot(p, a)` over the points `p` of `pts`.
pub open spec fn max_dot(pts: Seq<Point>, a: Point) -> int
    decreases pts.len(),
{
    if pts.len() <= 1 {
        dot(pts[0], a)
    } else {
        let m = max_dot(pts.drop_last(), a);
        let d = dot(pts.last(), a);
        if d > m {
            d
        } else {
            m
        }
    }
}

pub open spec fn x_axis() -> Point {
    Point { x: 1, y: 0 }
}

pub open spec fn y_axis() -> Point {
    Point { x: 0, y: 1 }
}

/// The bottom left and top right corners of the smallest axis-aligned box
/// that holds the shape.
pub open spec fn extents(s: ShapeView) -> (Point, Point) {
    match s {
        ShapeView::Circle { radius, center } => (
            Point { x: (center.x - radius) as i64, y: (center.y - radius) as i64 },
            Point { x: (center.x + radius) as i64, y: (center.y + radius) as i64 },
        ),
        ShapeView::Poly { points } => (
            Point { x: min_dot(points, x_axis()) as i64, y: min_dot(points, y_axis()) as i64 },
            Point { x: max_dot(points, x_axis()) as i64, y: max_dot(points, y_axis()) as i64 },
        ),
    }
}

/// `t` can be applied to the shape: it takes every point into the coordinate
/// limit, and it scales a circle uniformly, into the limit.
pub open spec fn fits_shape(s: ShapeView, t: Transform) -> bool {
    match s {
        ShapeView::Circle { radius, center } => uniform(t) && fits(t, center) && radius
            * scale_size(t) <= COORD_LIMIT,
        ShapeView::Poly { points } => forall|i: int|
            0 <= i < points.len() ==> fits(t, #[trigger] points[i]),
    }
}

/// The shape placed in the world by `t`: a circle's radius is scaled by the size
/// of the scale factor and its centre moved; every point of a polygon is moved.
pub open spec fn transformed(s: ShapeView, t: Transform) -> ShapeView {
    match s {
        ShapeView::Circle { radius, center } => ShapeView::Circle {
            radius: (radius * scale_size(t)) as i64,
            center: applied(t, center),
        },
        ShapeView::Poly { points } => ShapeView::Poly {
            points: points.map_values(|p: Point| applied(t, p)),
        },
    }
}


/// Every axis the collision test uses lies within this limit.
pub const AXIS_LIMIT: i64 = 131072;

/// Every projected coordinate lies within this limit.
pub const PROJ_LIMIT: i128 = 0x8_0000_0000;

/// Lowest and highest of `dot(p, a)` over the points `p` of `pts`.
fn dot_range(pts: &Vec<Point>, a: Point) -> (r: (i128, i128))
    requires
        pts@.len() >= 1,
        points_within(pts@),
        point_within(a, AXIS_LIMIT as int),
    ensures
        r.0 == min_dot(pts@, a),
        r.1 == max_dot(pts@, a),
        r.0 <= r.1,
        within(r.0 as int, 0x4_0000_0000),
        within(r.1 as int, 0x4_0000_0000),
{
    proof {
        lemma_dot_within(pts@[0], a, COORD_LIMIT as int, AXIS_LIMIT as int);
        assert(pts@.subrange(0, 1) =~= seq![pts@[0]]);
    }
    let d0 = pts[0].dot(&a);
    let mut mn: i128 = d0;
    let mut mx: i128 = d0;
    let n = pts.len();
    let mut i: usize = 1;
    while i < n
        invariant
            n == pts@.len(),
            1 <= i <= n,
            points_within(pts@),
            point_within(a, AXIS_LIMIT as int),
            mn == min_dot(pts@.subrange(0, i as int), a),
            mx == max_dot(pts@.subrange(0, i as int), a),
            mn <= mx,
            within(mn as int, 0x4_0000_0000),
            within(mx as int, 0x4_0000_0000),
        decreases n - i,
    {
        proof {
            lemma_dot_within(pts@[i as int], a, COORD_LIMIT as int, AXIS_LIMIT as int);
            assert(pts@.subrange(0, i + 1).drop_last() =~= pts@.subrange(0, i as int));
        }
        let d = pts[i].dot(&a);
        if d < mn {
            mn = d;
        }
        if d > mx {
            mx = d;
        }
        i = i + 1;
    }
    proof {
        assert(pts@.subrange(0, n as int) =~= pts@);
    }
    (mn, mx)
}

/// Where the shape lies along the axis `a`, in units of `|a|`, as
/// `(lo, hi, r)`: it covers `[lo - r |a|, hi + r |a|]`. A circle covers its
/// centre's position widened by its radius; a polygon covers the positions of
/// its points.
pub open spec fn projection(s: ShapeView, a: Point) -> (int, int, int) {
    match s {
        ShapeView::Circle { radius, center } => (dot(center, a), dot(center, a), radius as int),
        ShapeView::Poly { points } => (min_dot(points, a), max_dot(points, a), 0),
    }
}

/// `x < y * sqrt(n)`, for `n >= 0`, decided on integers.
pub open spec fn below_root(x: int, y: int, n: int) -> bool {
    if y >= 0 {
        x < 0 || x * x < y * y * n
    } else {
        x < 0 && x * x > y * y * n
    }
}

/// How far the later-starting of two projections along an axis with
/// `|a|^2 == n` reaches into the other, as `(x, y)` standing for
/// `x + y |a|`; `y` is the sum of the radii.
pub open spec fn overlap_of(p: (int, int, int), q: (int, int, int), n: int) -> (int, int) {
    if below_root(p.0 - q.0, p.2 - q.2, n) {
        (p.1 - q.0, p.2 + q.2)
    } else {
        (q.1 - p.0, p.2 + q.2)
    }
}

/// The axes that `s` offers against `o`: between two circles the line
/// through both centres; from a circle to a polygon the line from the centre
/// to each point; from a polygon its outward normals.
pub open spec fn axes(s: ShapeView, o: ShapeView) -> Seq<Point> {
    match s {
        ShapeView::Circle { radius, center } => match o {
            ShapeView::Circle { radius: r2, center: c2 } => seq![diff(c2, center)],
            ShapeView::Poly { points } => points.map_values(|p: Point| diff(p, center)),
        },
        ShapeView::Poly { points } => Seq::new(
            points.len(),
            |i: int| rot_cw(edge_at(points, i)),
        ),
    }
}

pub proof fn lemma_axes_within(s: ShapeView, o: ShapeView)
    requires
        shape_within(s),
        shape_within(o),
    ensures
        forall|i: int|
            0 <= i < axes(s, o).len() ==> point_within(
                #[trigger] axes(s, o)[i],
                AXIS_LIMIT as int,
            ),
{
    match s {
        ShapeView::Circle { radius, center } => match o {
            ShapeView::Circle { radius: r2, center: c2 } => {},
            ShapeView::Poly { points } => {
                assert forall|i: int| 0 <= i < axes(s, o).len() implies point_within(
                    #[trigger] axes(s, o)[i],
                    AXIS_LIMIT as int,
                ) by {
                    assert(point_within(points[i], COORD_LIMIT as int));
                }
            },
        },
        ShapeView::Poly { points } => {
            assert forall|i: int| 0 <= i < axes(s, o).len() implies point_within(
                #[trigger] axes(s, o)[i],
                AXIS_LIMIT as int,
            ) by {
                lemma_edge_within(points, i);
            }
        },
    }
}

/// Where `s` lies along `a`, as `projection` says.
fn project_shape(s: &Shape, a: Point) -> (r: (i128, i128, i64))
    requires
        s.wf(),
        point_within(a, AXIS_LIMIT as int),
    ensures
        r.0 == projection(s@, a).0,
        r.1 == projection(s@, a).1,
        r.2 == projection(s@, a).2,
        r.0 <= r.1,
        within(r.0 as int, 0x4_0000_0000),
        within(r.1 as int, 0x4_0000_0000),
        0 <= r.2 <= COORD_LIMIT,
{
    match s {
        Shape::Circle(c) => {
            proof {
                lemma_dot_within(c.center, a, COORD_LIMIT as int, AXIS_LIMIT as int);
            }
            let d = c.center.dot(&a);
            (d, d, c.radius)
        },
        Shape::Poly(p) => {
            proof {
                reveal_poly_wf(p);
            }
            let (lo, hi) = dot_range(&p.points, a);
            (lo, hi, 0)
        },
    }
}

/// `x < y * sqrt(n)`, as `below_root` says.
fn below_root_exec(x: i128, y: i128, n: i128) -> (r: bool)
    requires
        within(x as int, 0x10_0000_0000),
        within(y as int, 0x4_0000),
        0 <= n <= 0x10_0000_0000,
    ensures
        r == below_root(x as int, y as int, n as int),
{
    proof {
        crate::geom::lemma_mul_within(x as int, x as int, 0x10_0000_0000, 0x10_0000_0000);
        crate::geom::lemma_mul_within(y as int, y as int, 0x4_0000, 0x4_0000);
        assert(0 <= y * y <= 0x10_0000_0000) by (nonlinear_arith)
            requires
                -0x4_0000 <= y <= 0x4_0000,
        ;
        crate::geom::lemma_mul_within(y * y, n as int, 0x10_0000_0000, 0x10_0000_0000);
    }
    if y >= 0 {
        x < 0 || x * x < y * y * n
    } else {
        x < 0 && x * x > y * y * n
    }
}

/// Tests one axis with `|a|^2 == n`: `None` where the projections `p` and `q`
/// are apart, else the depth of their overlap rounded up.
fn axis_test(p: (i128, i128, i64), q: (i128, i128, i64), n: i128) -> (r: Option<i128>)
    requires
        p.0 <= p.1,
        q.0 <= q.1,
        within(p.0 as int, 0x4_0000_0000),
        within(p.1 as int, 0x4_0000_0000),
        within(q.0 as int, 0x4_0000_0000),
        within(q.1 as int, 0x4_0000_0000),
        0 <= p.2 <= COORD_LIMIT,
        0 <= q.2 <= COORD_LIMIT,
        0 <= n <= 2 * (AXIS_LIMIT as int) * (AXIS_LIMIT as int),
    ensures
        ({
            let o = overlap_of((p.0 as int, p.1 as int, p.2 as int), (q.0 as int, q.1 as int, q.2 as int), n as int);
            &&& r.is_none() <==> below_root(o.0, -o.1, n as int)
            &&& r.is_some() ==> r.unwrap() == o.0 + ceil_sqrt(o.1 * o.1 * n)
            &&& r.is_some() ==> 0 <= r.unwrap() <= 2 * PROJ_LIMIT
        }),
{
    let ahead = below_root_exec(p.0 - q.0, (p.2 - q.2) as i128, n);
    let x: i128 = if ahead {
        p.1 - q.0
    } else {
        q.1 - p.0
    };
    let y: i128 = (p.2 + q.2) as i128;
    if below_root_exec(x, -y, n) {
        None
    } else {
        proof {
            assert(0 <= y * y <= 0x4_0000_0000) by (nonlinear_arith)
                requires
                    0 <= y <= 0x2_0000,
            ;
            assert(0 <= y * y * n <= 0x8_0000_0000 * 0x8_0000_0000) by (nonlinear_arith)
                requires
                    0 <= y <= 0x2_0000,
                    0 <= n <= 2 * 131072 * 131072,
            ;
            assert((-y) * (-y) == y * y) by (nonlinear_arith);
            assert(!(x < 0 && x * x > y * y * n));
        }
        let h = isqrt_ceil(y * y * n);
        proof {
            lemma_ceil_sqrt_le(h as int, (y * y * n) as int, 0x8_0000_0000);
            assert(x + h >= 0) by (nonlinear_arith)
                requires
                    !(x < 0 && x * x > y * y * n),
                    h * h >= y * y * n,
                    h >= 0,
            ;
        }
        Some(x + h)
    }
}

proof fn lemma_ceil_sqrt_le(h: int, x: int, m: int)
    requires
        is_ceil_sqrt(h, x),
        0 <= m,
        x <= m * m,
    ensures
        h <= m,
{
    if h > m {
        assert((h - 1) * (h - 1) >= m * m) by (nonlinear_arith)
            requires
                h - 1 >= m >= 0,
        ;
    }
}


/// Moves every point of `pts` by `t`.
fn transform_points(pts: &Vec<Point>, t: &Transform) -> (r: Vec<Point>)
    requires
        forall|i: int| 0 <= i < pts@.len() ==> fits(*t, #[trigger] pts@[i]),
    ensures
        r@ == pts@.map_values(|p: Point| applied(*t, p)),
        points_within(r@),
{
    let n = pts.len();
    let mut r: Vec<Point> = Vec::with_capacity(n);
    let mut i: usize = 0;
    while i < n
        invariant
            n == pts@.len(),
            i <= n,
            forall|k: int| 0 <= k < pts@.len() ==> fits(*t, #[trigger] pts@[k]),
            r@ == pts@.subrange(0, i as int).map_values(|p: Point| applied(*t, p)),
            points_within(r@),
        decreases n - i,
    {
        let q = t.apply_to(pts[i]);
        r.push(q);
        i = i + 1;
        assert(r@ =~= pts@.subrange(0, i as int).map_values(|p: Point| applied(*t, p)));
    }
    assert(pts@.subrange(0, n as int) =~= pts@);
    r
}

impl Shape {
    /// The corners of the smallest axis-aligned box that holds the shape.
    pub fn extents(&self) -> (r: (Point, Point))
        requires
            self.wf(),
        ensures
            r == extents(self@),
    {
        match self {
            Shape::Circle(c) => (
                Point { x: c.center.x - c.radius, y: c.center.y - c.radius },
                Point { x: c.center.x + c.radius, y: c.center.y + c.radius },
            ),
            Shape::Poly(p) => {
                proof {
                    reveal_poly_wf(p);
                }
                let (min_x, max_x) = dot_range(&p.points, Point { x: 1, y: 0 });
                let (min_y, max_y) = dot_range(&p.points, Point { x: 0, y: 1 });
                (
                    Point { x: min_x as i64, y: min_y as i64 },
                    Point { x: max_x as i64, y: max_y as i64 },
                )
            },
        }
    }
}

/// A shape that moves. The current shape is always the original shape placed
/// by the transform last given to `update`.
#[derive(Debug)]
pub struct ShiftedShape {
    original_shape: Shape,
    shape: Shape,
}

impl ShiftedShape {
    /// The shape in its own local space.
    pub closed spec fn original(&self) -> ShapeView {
        self.original_shape@
    }

    /// The shape as it stands in the world.
    pub closed spec fn current(&self) -> ShapeView {
        self.shape@
    }

    /// Both shapes are well formed and of the same kind.
    pub closed spec fn wf(&self) -> bool {
        &&& self.original_shape.wf()
        &&& self.shape.wf()
        &&& match (self.original_shape, self.shape) {
            (Shape::Circle(_), Shape::Circle(_)) => true,
            (Shape::Poly(_), Shape::Poly(_)) => true,
            _ => false,
        }
    }

    pub proof fn lemma_wf(&self)
        requires
            self.wf(),
        ensures
            shape_within(self.original()),
            shape_within(self.current()),
    {
        lemma_wf_within(&self.original_shape);
        lemma_wf_within(&self.shape);
    }

    /// Starts out with the original shape as the current one.
    pub fn from_original_shape(original_shape: Shape) -> (r: ShiftedShape)
        requires
            original_shape.wf(),
        ensures
            r.wf(),
            r.original() == original_shape@,
            r.current() == original_shape@,
    {
        ShiftedShape { shape: original_shape.copy(), original_shape }
    }

    /// A copy of the shape in its local space.
    pub fn original_shape_copy(&self) -> (r: Shape)
        requires
            self.wf(),
        ensures
            r@ == self.original(),
            r.wf(),
    {
        self.original_shape.copy()
    }

    /// Places the original shape by `transform`, and returns the bottom left
    /// and top right corners of the new shape's bounding box.
    pub fn update(&mut self, transform: &Transform) -> (r: (Point, Point))
        requires
            old(self).wf(),
            fits_shape(old(self).original(), *transform),
        ensures
            final(self).wf(),
            final(self).original() == old(self).original(),
            final(self).current() == transformed(old(self).original(), *transform),
            r == extents(final(self).current()),
    {
        let new_shape = match &self.original_shape {
            Shape::Circle(c) => {
                let size: i128 = if transform.scale.x < 0 {
                    -(transform.scale.x as i128)
                } else {
                    transform.scale.x as i128
                };
                proof {
                    assert(0 <= c.radius * size) by (nonlinear_arith)
                        requires
                            c.radius >= 0,
                            size >= 0,
                    ;
                }
                let radius: i64 = ((c.radius as i128) * size) as i64;
                let center = transform.apply_to(c.center);
                Shape::Circle(CircleShape { radius, center })
            },
            Shape::Poly(p) => {
                proof {
                    reveal_poly_wf(p);
                }
                let pts = transform_points(&p.points, transform);
                Shape::Poly(PolyShape::from_points(pts))
            },
        };
        let ext = new_shape.extents();
        self.shape = new_shape;
        ext
    }
}


/// A push vector: `axis` scaled by `depth / |axis|^2`. The axis is never zero.
#[derive(Clone, Copy, Debug, PartialEq, Eq, Structural)]
pub struct Push {
    pub axis: Point,
    pub depth: i128,
}

/// `p` is shorter than `q`: `|depth_p| / |axis_p| < |depth_q| / |axis_q|`.
pub open spec fn push_less(p: Push, q: Push) -> bool {
    p.depth * p.depth * norm2(q.axis) < q.depth * q.depth * norm2(p.axis)
}

/// The axis and depth lie within the limits the collision test keeps to.
pub open spec fn push_bounded(p: Push) -> bool {
    point_within(p.axis, AXIS_LIMIT as int) && !is_zero(p.axis) && within(
        p.depth as int,
        2 * PROJ_LIMIT as int,
    )
}

impl Push {
    /// Compares the lengths of two pushes, as `push_less` says.
    pub fn shorter_than(&self, other: &Push) -> (r: bool)
        requires
            push_bounded(*self),
            push_bounded(*other),
        ensures
            r == push_less(*self, *other),
    {
        let n1 = self.axis.length_squared();
        let n2 = other.axis.length_squared();
        proof {
            lemma_dot_within(self.axis, self.axis, AXIS_LIMIT as int, AXIS_LIMIT as int);
            lemma_dot_within(other.axis, other.axis, AXIS_LIMIT as int, AXIS_LIMIT as int);
            lemma_push_product(self.depth as int, n2 as int);
            lemma_push_product(other.depth as int, n1 as int);
        }
        self.depth * self.depth * n2 < other.depth * other.depth * n1
    }

    /// The same push, in the opposite direction.
    pub fn reversed(&self) -> (r: Push)
        requires
            push_bounded(*self),
        ensures
            r.axis == negated(self.axis),
            r.depth == self.depth,
            push_bounded(r),
    {
        Push { axis: self.axis.neg(), depth: self.depth }
    }
}

proof fn lemma_push_product(d: int, n: int)
    requires
        within(d, 2 * PROJ_LIMIT as int),
        0 <= n <= 2 * (AXIS_LIMIT as int) * (AXIS_LIMIT as int),
    ensures
        0 <= d * d <= 0x100_0000_0000_0000_0000,
        0 <= d * d * n <= 0x1000_0000_0000_0000_0000_0000_0000,
{
    assert(0 <= d * d <= 0x100_0000_0000_0000_0000) by (nonlinear_arith)
        requires
            -0x10_0000_0000 <= d <= 0x10_0000_0000,
    ;
    assert(0 <= d * d * n <= 0x1000_0000_0000_0000_0000_0000_0000) by (nonlinear_arith)
        requires
            0 <= d * d <= 0x100_0000_0000_0000_0000,
            0 <= n <= 2 * 131072 * 131072,
    ;
}

/// Every axis the test tries for `s1` against `s2`, in order: first those of
/// `s1`, then those of `s2`, marked `true` because a push found along one of
/// them points the other way.
pub open spec fn candidates(s1: ShapeView, s2: ShapeView) -> Seq<(Point, bool)> {
    axes(s1, s2).map_values(|a: Point| (a, false)) + axes(s2, s1).map_values(
        |a: Point| (a, true),
    )
}

/// How far the projections of `s1` and `s2` on `a` reach into each other,
/// as `(x, y)` standing for `x + y |a|`.
pub open spec fn axis_overlap(s1: ShapeView, s2: ShapeView, a: Point) -> (int, int) {
    overlap_of(projection(s1, a), projection(s2, a), norm2(a))
}

/// The projections of `s1` and `s2` on `a` are apart: their overlap is
/// negative.
pub open spec fn axis_separates(s1: ShapeView, s2: ShapeView, a: Point) -> bool {
    below_root(axis_overlap(s1, s2, a).0, -axis_overlap(s1, s2, a).1, norm2(a))
}

/// The overlap of the projections of `s1` and `s2` on `a`, in units of
/// `|a|`, rounded up.
pub open spec fn axis_depth(s1: ShapeView, s2: ShapeView, a: Point) -> int {
    let o = axis_overlap(s1, s2, a);
    o.0 + ceil_sqrt(o.1 * o.1 * norm2(a))
}

/// The push that the candidate axis `c` gives.
pub open spec fn candidate_push(s1: ShapeView, s2: ShapeView, c: (Point, bool)) -> Push {
    Push {
        axis: if c.1 {
            negated(c.0)
        } else {
            c.0
        },
        depth: axis_depth(s1, s2, c.0) as i128,
    }
}

/// The shortest push among the non-zero candidate axes of `cs`, the earliest
/// one where several are shortest.
pub open spec fn shortest_push(s1: ShapeView, s2: ShapeView, cs: Seq<(Point, bool)>) -> Option<
    Push,
>
    decreases cs.len(),
{
    if cs.len() == 0 {
        None
    } else {
        let best = shortest_push(s1, s2, cs.drop_last());
        let c = cs.last();
        if is_zero(c.0) {
            best
        } else {
            let p = candidate_push(s1, s2, c);
            match best {
                None => Some(p),
                Some(q) => if push_less(p, q) {
                    Some(p)
                } else {
                    Some(q)
                },
            }
        }
    }
}

/// Some non-zero candidate axis separates the projections of the shapes.
pub open spec fn separated(s1: ShapeView, s2: ShapeView) -> bool {
    exists|k: int|
        0 <= k < candidates(s1, s2).len() && !is_zero(#[trigger] candidates(s1, s2)[k].0)
            && axis_separates(s1, s2, candidates(s1, s2)[k].0)
}

/// The sum of the radii of the circles among `s1` and `s2`.
pub open spec fn radius_sum(s1: ShapeView, s2: ShapeView) -> int {
    projection(s1, Point { x: 1, y: 0 }).2 + projection(s2, Point { x: 1, y: 0 }).2
}

/// The push given where neither shape offers a non-zero axis (two circles
/// with the same centre): along x, by the sum of the radii.
pub open spec fn fallback_push(s1: ShapeView, s2: ShapeView) -> Push {
    Push { axis: Point { x: 1, y: 0 }, depth: radius_sum(s1, s2) as i128 }
}

/// The separating-axis test: `None` where an axis separates the shapes, and
/// otherwise the shortest push along the candidate axes that moves `s2` out
/// of `s1` (`fallback_push` where there is no non-zero axis).
pub open spec fn shape_collision(s1: ShapeView, s2: ShapeView) -> Option<Push> {
    if separated(s1, s2) {
        None
    } else {
        match shortest_push(s1, s2, candidates(s1, s2)) {
            Some(p) => Some(p),
            None => Some(fallback_push(s1, s2)),
        }
    }
}

impl ShiftedShape {
    /// The axes this shape offers against `other`.
    fn get_normals(&self, other: &ShiftedShape) -> (r: Vec<Point>)
        requires
            self.wf(),
            other.wf(),
        ensures
            r@ == axes(self.current(), other.current()),
    {
        match &self.shape {
            Shape::Circle(c) => match &other.shape {
                Shape::Circle(d) => {
                    let mut r: Vec<Point> = Vec::new();
                    r.push(d.center.sub(&c.center));
                    assert(r@ =~= axes(self.current(), other.current()));
                    r
                },
                Shape::Poly(q) => {
                    proof {
                        reveal_poly_wf(q);
                    }
                    let n = q.points.len();
                    let mut r: Vec<Point> = Vec::with_capacity(n);
                    let mut i: usize = 0;
                    while i < n
                        invariant
                            n == q.points@.len(),
                            points_within(q.points@),
                            point_within(c.center, COORD_LIMIT as int),
                            i <= n,
                            r@ == q.points@.subrange(0, i as int).map_values(
                                |p: Point| diff(p, c.center),
                            ),
                        decreases n - i,
                    {
                        proof {
                            assert(point_within(q.points@[i as int], COORD_LIMIT as int));
                        }
                        r.push(q.points[i].sub(&c.center));
                        i = i + 1;
                        assert(r@ =~= q.points@.subrange(0, i as int).map_values(
                            |p: Point| diff(p, c.center),
                        ));
                    }
                    assert(q.points@.subrange(0, n as int) =~= q.points@);
                    r
                },
            },
            Shape::Poly(p) => {
                let r = copy_points(&p.normals);
                assert(r@ =~= axes(self.current(), other.current()));
                r
            },
        }
    }

    /// Where the current shape lies along `a`.
    fn project(&self, a: Point) -> (r: (i128, i128, i64))
        requires
            self.wf(),
            point_within(a, AXIS_LIMIT as int),
        ensures
            r.0 == projection(self.current(), a).0,
            r.1 == projection(self.current(), a).1,
            r.2 == projection(self.current(), a).2,
            r.0 <= r.1,
            within(r.0 as int, 0x4_0000_0000),
            within(r.1 as int, 0x4_0000_0000),
            0 <= r.2 <= COORD_LIMIT,
    {
        project_shape(&self.shape, a)
    }

    /// The radius of the current shape where it is a circle, else zero.
    fn radius(&self) -> (r: i64)
        requires
            self.wf(),
        ensures
            r == projection(self.current(), Point { x: 1, y: 0 }).2,
            0 <= r <= COORD_LIMIT,
    {
        match &self.shape {
            Shape::Circle(c) => c.radius,
            Shape::Poly(_) => 0,
        }
    }

    /// Returns `Some(mpv)` where the shapes collide and `None` otherwise, `mpv`
    /// being the minimum push vector that moves `other` out of `self`.
    pub fn process_collision(&self, other: &ShiftedShape) -> (r: Option<Push>)
        requires
            self.wf(),
            other.wf(),
        ensures
            r == shape_collision(self.current(), other.current()),
            r.is_some() ==> push_bounded(r.unwrap()),
    {
        let ghost s1 = self.current();
        let ghost s2 = other.current();
        let ghost cs = candidates(s1, s2);
        proof {
            self.lemma_wf();
            other.lemma_wf();
            lemma_axes_within(s1, s2);
            lemma_axes_within(s2, s1);
        }
        let axes1 = self.get_normals(other);
        let axes2 = other.get_normals(self);
        let n1 = axes1.len();
        let n2 = axes2.len();
        let mut best: Option<Push> = None;
        let mut i: usize = 0;
        while i < n1
            invariant
                self.wf(),
                other.wf(),
                s1 == self.current(),
                s2 == other.current(),
                cs == candidates(s1, s2),
                axes1@ == axes(s1, s2),
                axes2@ == axes(s2, s1),
                n1 == axes1@.len(),
                n2 == axes2@.len(),
                cs.len() == n1 + n2,
                forall|k: int| 0 <= k < n1 ==> #[trigger] cs[k] == (axes1@[k], false),
                forall|k: int| 0 <= k < n1 ==> point_within(#[trigger] axes1@[k], AXIS_LIMIT as int),
                i <= n1,
                best == shortest_push(s1, s2, cs.subrange(0, i as int)),
                best.is_some() ==> push_bounded(best.unwrap()),
                forall|k: int|
                    0 <= k < i && !is_zero(#[trigger] cs[k].0) ==> !axis_separates(s1, s2, cs[k].0),
            decreases n1 - i,
        {
            let a = axes1[i];
            proof {
                assert(cs.subrange(0, i + 1).drop_last() =~= cs.subrange(0, i as int));
                assert(cs.subrange(0, i + 1).last() == cs[i as int]);
            }
            if !a.is_zero() {
                let seg1 = self.project(a);
                let seg2 = other.project(a);
                let n2 = a.length_squared();
                proof {
                    lemma_dot_within(a, a, AXIS_LIMIT as int, AXIS_LIMIT as int);
                }
                match axis_test(seg1, seg2, n2) {
                    None => {
                        proof {
                            assert(!is_zero(cs[i as int].0) && axis_separates(s1, s2, cs[i as int].0));
                        }
                        return None;
                    },
                    Some(len) => {
                        let p = Push { axis: a, depth: len };
                        best = match best {
                            None => Some(p),
                            Some(q) => if p.shorter_than(&q) {
                                Some(p)
                            } else {
                                Some(q)
                            },
                        };
                    },
                }
            }
            i = i + 1;
        }
        let mut j: usize = 0;
        while j < n2
            invariant
                self.wf(),
                other.wf(),
                s1 == self.current(),
                s2 == other.current(),
                cs == candidates(s1, s2),
                axes2@ == axes(s2, s1),
                n2 == axes2@.len(),
                cs.len() == n1 + n2,
                forall|k: int| 0 <= k < n2 ==> #[trigger] cs[n1 + k] == (axes2@[k], true),
                forall|k: int| 0 <= k < n2 ==> point_within(#[trigger] axes2@[k], AXIS_LIMIT as int),
                j <= n2,
                best == shortest_push(s1, s2, cs.subrange(0, n1 + j)),
                best.is_some() ==> push_bounded(best.unwrap()),
                forall|k: int|
                    0 <= k < n1 + j && !is_zero(#[trigger] cs[k].0) ==> !axis_separates(s1, s2, cs[k].0),
            decreases n2 - j,
        {
            let a = axes2[j];
            proof {
                assert(cs.subrange(0, n1 + j + 1).drop_last() =~= cs.subrange(0, n1 + j));
                assert(cs.subrange(0, n1 + j + 1).last() == cs[n1 + j]);
            }
            if !a.is_zero() {
                let seg1 = self.project(a);
                let seg2 = other.project(a);
                let n2 = a.length_squared();
                proof {
                    lemma_dot_within(a, a, AXIS_LIMIT as int, AXIS_LIMIT as int);
                }
                match axis_test(seg1, seg2, n2) {
                    None => {
                        proof {
                            assert(!is_zero(cs[n1 + j].0) && axis_separates(s1, s2, cs[n1 + j].0));
                        }
                        return None;
                    },
                    Some(len) => {
                        let p = Push { axis: a.neg(), depth: len };
                        best = match best {
                            None => Some(p),
                            Some(q) => if p.shorter_than(&q) {
                                Some(p)
                            } else {
                                Some(q)
                            },
                        };
                    },
                }
            }
            j = j + 1;
        }
        proof {
            assert(cs.subrange(0, n1 + n2) =~= cs);
        }
        match best {
            Some(p) => Some(p),
            None => {
                let r1 = self.radius();
                let r2 = other.radius();
                Some(Push { axis: Point { x: 1, y: 0 }, depth: (r1 + r2) as i128 })
            },
        }
    }
}


proof fn lemma_min_le_max(pts: Seq<Point>, a: Point)
    requires
        pts.len() >= 1,
    ensures
        min_dot(pts, a) <= max_dot(pts, a),
    decreases pts.len(),
{
    if pts.len() > 1 {
        lemma_min_le_max(pts.drop_last(), a);
    }
}

/// The bottom left corner of a shape's extents lies below and left of the top
/// right one.
pub proof fn lemma_extents_ordered(s: ShapeView)
    requires
        shape_within(s),
    ensures
        extents(s).0.x <= extents(s).1.x,
        extents(s).0.y <= extents(s).1.y,
{
    if let ShapeView::Poly { points } = s {
        lemma_min_le_max(points, x_axis());
        lemma_min_le_max(points, y_axis());
        lemma_dot_range_within(points, x_axis());
        lemma_dot_range_within(points, y_axis());
    }
}

proof fn lemma_dot_axis(p: Point, a: Point)
    requires
        a == x_axis() || a == y_axis(),
    ensures
        dot(p, a) == if a == x_axis() {
            p.x as int
        } else {
            p.y as int
        },
{
    assert(dot(p, a) == if a.x == 1 { p.x as int } else { p.y as int }) by (nonlinear_arith)
        requires
            (a.x == 1 && a.y == 0) || (a.x == 0 && a.y == 1),
            dot(p, a) == p.x * a.x + p.y * a.y,
    ;
}

proof fn lemma_dot_range_within(pts: Seq<Point>, a: Point)
    requires
        pts.len() >= 1,
        points_within(pts),
        a == x_axis() || a == y_axis(),
    ensures
        within(min_dot(pts, a), COORD_LIMIT as int),
        within(max_dot(pts, a), COORD_LIMIT as int),
    decreases pts.len(),
{
    assert(point_within(pts[0], COORD_LIMIT as int));
    lemma_dot_axis(pts[0], a);
    if pts.len() > 1 {
        assert forall|i: int| 0 <= i < pts.drop_last().len() implies point_within(
            #[trigger] pts.drop_last()[i],
            COORD_LIMIT as int,
        ) by {
            assert(pts.drop_last()[i] == pts[i]);
        }
        lemma_dot_range_within(pts.drop_last(), a);
        let l = pts.last();
        assert(l == pts[pts.len() - 1]);
        assert(point_within(l, COORD_LIMIT as int));
        lemma_dot_axis(l, a);
    }
}

/// Placing a shape by the identity transform gives back the shape itself,
/// with the same bounding extents.
pub proof fn lemma_update_identity(s: ShapeView, t: Transform)
    requires
        shape_within(s),
        is_identity(t),
    ensures
        fits_shape(s, t),
        transformed(s, t) == s,
        extents(transformed(s, t)) == extents(s),
{
    match s {
        ShapeView::Circle { radius, center } => {
            lemma_identity_apply(t, center);
            assert(scale_size(t) == 1);
            assert(radius * 1 == radius);
        },
        ShapeView::Poly { points } => {
            assert forall|i: int| 0 <= i < points.len() implies fits(t, #[trigger] points[i]) by {
                lemma_identity_apply(t, points[i]);
            }
            assert forall|i: int| 0 <= i < points.len() implies applied(t, #[trigger] points[i])
                == points[i] by {
                lemma_identity_apply(t, points[i]);
            }
            assert(points.map_values(|p: Point| applied(t, p)) =~= points);
        },
    }
}

} // verus!
