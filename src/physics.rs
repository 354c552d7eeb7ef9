//! The per-frame physics step over an arena of bodies: every body has a
//! collider, and a body with a dynamic object moves; the others are static.
use vstd::prelude::*;

use crate::collider::{collider_collision, pairs_fit, Collider, Collision};
use crate::dynamic_object::{
    accelerated, capped, lemma_trunc_div_bound, trunc_div, trunc_div_exec, DynamicObject,
    MAX_ACCEL, MAX_DT,
};
use crate::geom::{dot, lemma_mul_within, negated, norm2, point_within, within, Point};
use crate::shape::{
    fits_shape, push_bounded, transformed, Push, ShapeView, AXIS_LIMIT, PROJ_LIMIT,
};
use crate::transform::{fits, scale_size, turned, uniform, Transform};

verus! {

/// Positions of bodies lie within `[-WORLD_LIMIT, WORLD_LIMIT]`; a step requires
/// that every body stays there.
pub const WORLD_LIMIT: i64 = 32768;

/// Shapes, once scaled, lie within `[-SHAPE_LIMIT, SHAPE_LIMIT]` of their
/// body's position.
pub const SHAPE_LIMIT: i64 = 32768;

/// Velocities are multiplied by this factor when they bounce.
pub const BOUNCINESS: i64 = 1;

/// An entity of the world.
#[derive(Debug)]
pub struct Body {
    pub transform: Transform,
    pub collider: Collider,
    /// Present on bodies that move.
    pub dynamic: Option<DynamicObject>,
}

/// Scaling the shape by `t` keeps it within `SHAPE_LIMIT` of the body's
/// position, and a circle is scaled uniformly.
pub open spec fn placed_within(s: ShapeView, t: Transform) -> bool {
    match s {
        ShapeView::Circle { radius, center } => uniform(t) && radius * scale_size(t) <= SHAPE_LIMIT
            && within(t.scale.x * center.x, SHAPE_LIMIT as int) && within(
            t.scale.y * center.y,
            SHAPE_LIMIT as int,
        ),
        ShapeView::Poly { points } => forall|i: int|
            0 <= i < points.len() ==> within(
                t.scale.x * (#[trigger] points[i]).x,
                SHAPE_LIMIT as int,
            ) && within(t.scale.y * points[i].y, SHAPE_LIMIT as int),
    }
}

/// The body's collider and dynamic object are well formed, its position lies
/// within the world, and its transform keeps its shapes within reach of it.
pub open spec fn body_wf(b: Body) -> bool {
    &&& b.collider.wf()
    &&& point_within(b.transform.translation, WORLD_LIMIT as int)
    &&& forall|i: int|
        0 <= i < b.collider.originals().len() ==> placed_within(
            #[trigger] b.collider.originals()[i],
            b.transform,
        )
    &&& b.dynamic.is_some() ==> b.dynamic.unwrap().wf()
}

/// The body can be stepped: it is well formed, and a dynamic body's
/// acceleration is within bounds.
pub open spec fn body_ready(b: Body) -> bool {
    &&& body_wf(b)
    &&& b.dynamic.is_some() ==> point_within(b.dynamic.unwrap().accel_spec(), MAX_ACCEL as int)
}

/// The velocity of `d` after `dt` ticks, as `DynamicObject::integrate` gives it.
pub open spec fn integrated_vel(d: DynamicObject, dt: int) -> (int, int) {
    capped(
        (
            accelerated(d.vel_spec().x as int, d.accel_spec().x as int, d.friction_spec(), dt),
            accelerated(d.vel_spec().y as int, d.accel_spec().y as int, d.friction_spec(), dt),
        ),
        d.max_vel_spec(),
    )
}

/// `t` with its translation replaced by `p`.
pub open spec fn at(t: Transform, p: Point) -> Transform {
    Transform { translation: p, quarter_turns: t.quarter_turns, scale: t.scale }
}

/// Where a dynamic body `b` moves to in `dt` ticks, over unbounded integers:
/// its position plus its new velocity times `dt`.
pub open spec fn moved_pos(b: Body, dt: int) -> (int, int) {
    let v = integrated_vel(b.dynamic.unwrap(), dt);
    (b.transform.translation.x + v.0 * dt, b.transform.translation.y + v.1 * dt)
}

/// A dynamic body's move stays within the world.
pub open spec fn moves_in_world(b: Body, dt: int) -> bool {
    b.dynamic.is_some() ==> within(moved_pos(b, dt).0, WORLD_LIMIT as int) && within(
        moved_pos(b, dt).1,
        WORLD_LIMIT as int,
    )
}

/// The transform of `b` after it has moved for `dt` ticks: a dynamic body
/// moves by its new velocity times `dt`.
pub open spec fn moved_transform(b: Body, dt: int) -> Transform {
    match b.dynamic {
        None => b.transform,
        Some(d) => {
            at(b.transform, Point { x: moved_pos(b, dt).0 as i64, y: moved_pos(b, dt).1 as i64 })
        },
    }
}

/// The shapes of body `k` in the world after motion.
pub open spec fn frame_shapes(bs: Seq<Body>, dt: int, k: int) -> Seq<ShapeView> {
    bs[k].collider.originals().map_values(|s: ShapeView| transformed(s, moved_transform(bs[k], dt)))
}

/// `p`, turned round where it points away from `to - from`.
pub open spec fn corrected(p: Push, from: Point, to: Point) -> Push {
    if p.depth * dot(p.axis, Point { x: (to.x - from.x) as i64, y: (to.y - from.y) as i64 }) < 0 {
        Push { axis: negated(p.axis), depth: p.depth }
    } else {
        p
    }
}

/// The push recorded on dynamic body `i` for static body `j`, if they collide.
pub open spec fn pair_push(bs: Seq<Body>, dt: int, i: int, j: int) -> Option<Push> {
    match collider_collision(frame_shapes(bs, dt, i), frame_shapes(bs, dt, j)) {
        Some(p) => Some(
            corrected(
                p,
                moved_transform(bs[i], dt).translation,
                moved_transform(bs[j], dt).translation,
            ),
        ),
        None => None,
    }
}

/// The collisions recorded on dynamic body `i` against the static bodies
/// among the first `n`.
pub open spec fn dynamic_records(bs: Seq<Body>, dt: int, i: int, n: int) -> Seq<Collision>
    decreases n,
{
    if n <= 0 {
        Seq::empty()
    } else {
        let prev = dynamic_records(bs, dt, i, n - 1);
        let j = n - 1;
        if bs[j].dynamic.is_none() && pair_push(bs, dt, i, j).is_some() {
            prev.push(Collision { other_entity: j as usize, mpv: pair_push(bs, dt, i, j).unwrap() })
        } else {
            prev
        }
    }
}

/// The collisions recorded on static body `j` against the dynamic bodies
/// among the first `n`, with their pushes reversed.
pub open spec fn static_records(bs: Seq<Body>, dt: int, j: int, n: int) -> Seq<Collision>
    decreases n,
{
    if n <= 0 {
        Seq::empty()
    } else {
        let prev = static_records(bs, dt, j, n - 1);
        let i = n - 1;
        if bs[i].dynamic.is_some() && pair_push(bs, dt, i, j).is_some() {
            let p = pair_push(bs, dt, i, j).unwrap();
            prev.push(
                Collision { other_entity: i as usize, mpv: Push { axis: negated(p.axis), depth: p.depth } },
            )
        } else {
            prev
        }
    }
}

/// The pushes that bounce dynamic body `i`: those of its first `n` records
/// whose other body is solid, in order.
pub open spec fn bounce_pushes(bs: Seq<Body>, recs: Seq<Collision>, n: int) -> Seq<Push>
    decreases n,
{
    if n <= 0 {
        Seq::empty()
    } else {
        let prev = bounce_pushes(bs, recs, n - 1);
        let c = recs[n - 1];
        if bs[c.other_entity as int].collider.solid() {
            prev.push(c.mpv)
        } else {
            prev
        }
    }
}

/// The push `p` as a vector, each coordinate rounded towards zero.
pub open spec fn push_vec(p: Push) -> (int, int) {
    (
        trunc_div(p.depth * p.axis.x, norm2(p.axis)),
        trunc_div(p.depth * p.axis.y, norm2(p.axis)),
    )
}

/// `v` reflected about the line along `a`, each coordinate rounded towards
/// zero: `v - 2 (v . a) a / |a|^2`.
pub open spec fn reflected(v: Point, a: Point) -> (int, int) {
    (
        trunc_div(v.x * norm2(a) - 2 * dot(v, a) * a.x, norm2(a)),
        trunc_div(v.y * norm2(a) - 2 * dot(v, a) * a.y, norm2(a)),
    )
}

/// The position after bouncing off each push of `ps` in turn, over unbounded
/// integers: each moves the body back by the push.
pub open spec fn bounced_raw(pos: Point, ps: Seq<Push>) -> (int, int)
    decreases ps.len(),
{
    if ps.len() == 0 {
        (pos.x as int, pos.y as int)
    } else {
        let prev = bounced_raw(pos, ps.drop_last());
        let v = push_vec(ps.last());
        (prev.0 - v.0, prev.1 - v.1)
    }
}

/// The position after bouncing off each push of `ps` in turn.
pub open spec fn bounced_pos(pos: Point, ps: Seq<Push>) -> Point {
    Point { x: bounced_raw(pos, ps).0 as i64, y: bounced_raw(pos, ps).1 as i64 }
}

/// Every position the bounces off `ps` pass through stays within the world.
pub open spec fn bounces_in_world(pos: Point, ps: Seq<Push>) -> bool {
    forall|j: int|
        0 <= j <= ps.len() ==> within(
            (#[trigger] bounced_raw(pos, ps.subrange(0, j))).0,
            WORLD_LIMIT as int,
        ) && within(bounced_raw(pos, ps.subrange(0, j)).1, WORLD_LIMIT as int)
}

/// The velocity after bouncing off each push of `ps` in turn: each reflects
/// it about the push's axis and scales it by `BOUNCINESS`, within the cap `m`.
pub open spec fn bounced_vel(vel: Point, m: int, ps: Seq<Push>) -> Point
    decreases ps.len(),
{
    if ps.len() == 0 {
        vel
    } else {
        let prev = bounced_vel(vel, m, ps.drop_last());
        let r = reflected(prev, ps.last().axis);
        let c = capped((BOUNCINESS * r.0, BOUNCINESS * r.1), m);
        Point { x: c.0 as i64, y: c.1 as i64 }
    }
}


/// A shape placed within reach of a position inside the world fits the
/// coordinate limit.
pub proof fn lemma_placed_fits(s: ShapeView, t: Transform)
    requires
        placed_within(s, t),
        point_within(t.translation, WORLD_LIMIT as int),
    ensures
        fits_shape(s, t),
{
    match s {
        ShapeView::Circle { radius, center } => {
            lemma_point_fits(t, center);
        },
        ShapeView::Poly { points } => {
            assert forall|i: int| 0 <= i < points.len() implies fits(t, #[trigger] points[i]) by {
                lemma_point_fits(t, points[i]);
            }
        },
    }
}

proof fn lemma_point_fits(t: Transform, p: Point)
    requires
        within(t.scale.x * p.x, SHAPE_LIMIT as int),
        within(t.scale.y * p.y, SHAPE_LIMIT as int),
        point_within(t.translation, WORLD_LIMIT as int),
    ensures
        fits(t, p),
{
    let v = (t.scale.x * p.x, t.scale.y * p.y);
    let r = turned(t.quarter_turns as int, v);
    assert(within(r.0, SHAPE_LIMIT as int) && within(r.1, SHAPE_LIMIT as int));
}

/// Moves a dynamic body for `dt` ticks.
fn move_body(b: &mut Body, dt: i64)
    requires
        body_ready(*old(b)),
        moves_in_world(*old(b), dt as int),
        0 <= dt <= MAX_DT,
    ensures
        body_wf(*final(b)),
        final(b).transform == moved_transform(*old(b), dt as int),
        final(b).collider == old(b).collider,
        final(b).dynamic.is_some() == old(b).dynamic.is_some(),
        old(b).dynamic.is_some() ==> {
            let d0 = old(b).dynamic.unwrap();
            let d1 = final(b).dynamic.unwrap();
            &&& d1.vel_spec().x == integrated_vel(d0, dt as int).0
            &&& d1.vel_spec().y == integrated_vel(d0, dt as int).1
            &&& d1.accel_spec() == d0.accel_spec()
            &&& d1.max_vel_spec() == d0.max_vel_spec()
            &&& d1.friction_spec() == d0.friction_spec()
        },
{
    if let Some(d0) = b.dynamic {
        let mut d = d0;
        let disp = d.integrate(dt);
        let x = b.transform.translation.x + disp.x;
        let y = b.transform.translation.y + disp.y;
        b.dynamic = Some(d);
        b.transform = Transform {
            translation: Point { x, y },
            quarter_turns: b.transform.quarter_turns,
            scale: b.transform.scale,
        };
    }
}

/// Places the body's collider at the body's transform.
fn refresh_collider(b: &mut Body)
    requires
        body_wf(*old(b)),
    ensures
        body_wf(*final(b)),
        final(b).transform == old(b).transform,
        final(b).dynamic == old(b).dynamic,
        final(b).collider.originals() == old(b).collider.originals(),
        final(b).collider.solid() == old(b).collider.solid(),
        final(b).collider.currents() == old(b).collider.originals().map_values(
            |s: ShapeView| transformed(s, old(b).transform),
        ),
        final(b).collider.recent() == Seq::<Collision>::empty(),
{
    let t = b.transform;
    proof {
        assert forall|i: int| 0 <= i < b.collider.originals().len() implies fits_shape(
            #[trigger] b.collider.originals()[i],
            t,
        ) by {
            lemma_placed_fits(b.collider.originals()[i], t);
        }
    }
    b.collider.update(&t);
}

/// The push `p` as a vector, as `push_vec` says.
fn push_vector(p: &Push) -> (r: (i128, i128))
    requires
        push_bounded(*p),
    ensures
        r.0 == push_vec(*p).0,
        r.1 == push_vec(*p).1,
        within(r.0 as int, 0x40_0000_0000_0000),
        within(r.1 as int, 0x40_0000_0000_0000),
{
    let n2 = p.axis.length_squared();
    proof {
        crate::geom::lemma_norm2_nonneg(p.axis);
        lemma_mul_within(p.depth as int, p.axis.x as int, 2 * PROJ_LIMIT as int, AXIS_LIMIT as int);
        lemma_mul_within(p.depth as int, p.axis.y as int, 2 * PROJ_LIMIT as int, AXIS_LIMIT as int);
        lemma_trunc_div_bound(p.depth * p.axis.x, n2 as int);
        lemma_trunc_div_bound(p.depth * p.axis.y, n2 as int);
    }
    let x = trunc_div_exec(p.depth * (p.axis.x as i128), n2);
    let y = trunc_div_exec(p.depth * (p.axis.y as i128), n2);
    (x, y)
}

/// The larger of the sizes of `v`'s coordinates.
pub open spec fn size_of(v: Point) -> int {
    let ax = if v.x < 0 { -v.x } else { v.x as int };
    let ay = if v.y < 0 { -v.y } else { v.y as int };
    if ax < ay {
        ay
    } else {
        ax
    }
}

proof fn lemma_mul_abs(x: int, y: int, bx: int, ay: int)
    requires
        -bx <= x <= bx,
        ay >= 0,
        y == ay || y == -ay,
    ensures
        -(bx * ay) <= x * y <= bx * ay,
{
    if y == ay {
        assert(-(bx * ay) <= x * y <= bx * ay) by (nonlinear_arith)
            requires
                -bx <= x <= bx,
                y == ay,
                ay >= 0,
        ;
    } else {
        assert(-(bx * ay) <= x * y <= bx * ay) by (nonlinear_arith)
            requires
                -bx <= x <= bx,
                y == -ay,
                ay >= 0,
        ;
    }
}

/// One coordinate of a reflection's numerator, `vc |a|^2 - 2 (v . a) ac`, is
/// at most `4 m |a|^2` in size, where `m` bounds both coordinates of `v`.
proof fn lemma_reflect_numerator(vc: int, vo: int, ac: int, ao: int, m: int)
    requires
        -m <= vc <= m,
        -m <= vo <= m,
    ensures
        within(
            vc * (ac * ac + ao * ao) - 2 * (vc * ac + vo * ao) * ac,
            4 * m * (ac * ac + ao * ao),
        ),
{
    let aa = if ac < 0 { -ac } else { ac };
    let ab = if ao < 0 { -ao } else { ao };
    let n2 = ac * ac + ao * ao;
    assert(aa * aa == ac * ac && ab * ab == ao * ao) by (nonlinear_arith)
        requires
            aa == ac || aa == -ac,
            ab == ao || ab == -ao,
    ;
    lemma_mul_abs(vc, ac, m, aa);
    lemma_mul_abs(vo, ao, m, ab);
    let d = vc * ac + vo * ao;
    let w = m * aa + m * ab;
    lemma_mul_abs(d, ac, w, aa);
    assert(w * aa == m * (aa * aa) + m * (aa * ab)) by (nonlinear_arith)
        requires
            w == m * aa + m * ab,
    ;
    assert(2 * (m * (aa * aa) + m * (aa * ab)) <= 3 * m * n2) by (nonlinear_arith)
        requires
            m >= 0,
            aa >= 0,
            ab >= 0,
            n2 == aa * aa + ab * ab,
    {
        assert((aa - ab) * (aa - ab) >= 0);
        assert(m * ((aa - ab) * (aa - ab) + 2 * (ab * ab)) >= 0);
    }
    lemma_mul_abs(vc, n2, m, n2);
    assert(within(vc * n2 - 2 * d * ac, 4 * m * n2)) by (nonlinear_arith)
        requires
            -(m * n2) <= vc * n2 <= m * n2,
            -(w * aa) <= d * ac <= w * aa,
            2 * (w * aa) <= 3 * m * n2,
    ;
}

/// `q`, the quotient of `n` by `d > 0` rounded towards zero, is at most `b`
/// in size where `n` is at most `b d`.
proof fn lemma_quotient_within(n: int, d: int, b: int)
    requires
        d > 0,
        b >= 0,
        within(n, b * d),
    ensures
        within(trunc_div(n, d), b),
{
    lemma_trunc_div_bound(n, d);
    let q = trunc_div(n, d);
    assert(n * n <= (b * d) * (b * d)) by (nonlinear_arith)
        requires
            -(b * d) <= n <= b * d,
    ;
    assert(q * q * (d * d) <= b * b * (d * d)) by (nonlinear_arith)
        requires
            q * q * d * d <= n * n,
            n * n <= (b * d) * (b * d),
    ;
    assert(q * q <= b * b) by (nonlinear_arith)
        requires
            q * q * (d * d) <= b * b * (d * d),
            d > 0,
    ;
    assert(-b <= q <= b) by (nonlinear_arith)
        requires
            q * q <= b * b,
            b >= 0,
    ;
}

/// `v` reflected about the line along the normal `a`, which need not be of
/// unit length, as `reflected` says. Neither coordinate of the result is
/// more than four times the larger coordinate of `v` in size.
pub fn reflect(v: Point, a: Point) -> (r: Point)
    requires
        point_within(v, 0x100_0000_0000_0000),
        point_within(a, AXIS_LIMIT as int),
        !crate::geom::is_zero(a),
    ensures
        r.x == reflected(v, a).0,
        r.y == reflected(v, a).1,
        point_within(r, 4 * size_of(v)),
{
    let n2 = a.length_squared();
    proof {
        lemma_mul_within(v.x as int, a.x as int, 0x100_0000_0000_0000, AXIS_LIMIT as int);
        lemma_mul_within(v.y as int, a.y as int, 0x100_0000_0000_0000, AXIS_LIMIT as int);
    }
    let d: i128 = (v.x as i128) * (a.x as i128) + (v.y as i128) * (a.y as i128);
    let ghost m = size_of(v);
    proof {
        crate::geom::lemma_norm2_nonneg(a);
        crate::geom::lemma_dot_within(a, a, AXIS_LIMIT as int, AXIS_LIMIT as int);
        lemma_mul_within(v.x as int, n2 as int, 0x100_0000_0000_0000, 0x8_0000_0000);
        lemma_mul_within(v.y as int, n2 as int, 0x100_0000_0000_0000, 0x8_0000_0000);
        lemma_mul_within(2 * d, a.x as int, 0x8000000000000000000, AXIS_LIMIT as int);
        lemma_mul_within(2 * d, a.y as int, 0x8000000000000000000, AXIS_LIMIT as int);
    }
    let nx: i128 = (v.x as i128) * n2 - 2 * d * (a.x as i128);
    let ny: i128 = (v.y as i128) * n2 - 2 * d * (a.y as i128);
    proof {
        lemma_reflect_numerator(v.x as int, v.y as int, a.x as int, a.y as int, m);
        lemma_reflect_numerator(v.y as int, v.x as int, a.y as int, a.x as int, m);
        assert(dot(v, a) == v.y * a.y + v.x * a.x);
        assert(norm2(a) == a.y * a.y + a.x * a.x);
        assert(4 * m * n2 == (4 * m) * n2) by (nonlinear_arith);
        lemma_quotient_within(nx as int, n2 as int, 4 * m);
        lemma_quotient_within(ny as int, n2 as int, 4 * m);
        lemma_trunc_div_bound(nx as int, n2 as int);
        lemma_trunc_div_bound(ny as int, n2 as int);
    }
    let rx = trunc_div_exec(nx, n2);
    let ry = trunc_div_exec(ny, n2);
    Point { x: rx as i64, y: ry as i64 }
}

/// Bounces a dynamic body off each push of `pushes` in turn.
fn bounce_body(b: &mut Body, pushes: &Vec<Push>)
    requires
        body_wf(*old(b)),
        old(b).dynamic.is_some(),
        forall|k: int| 0 <= k < pushes@.len() ==> push_bounded(#[trigger] pushes@[k]),
        bounces_in_world(old(b).transform.translation, pushes@),
    ensures
        body_wf(*final(b)),
        final(b).collider == old(b).collider,
        final(b).transform == at(
            old(b).transform,
            bounced_pos(old(b).transform.translation, pushes@),
        ),
        final(b).dynamic.is_some(),
        ({
            let d0 = old(b).dynamic.unwrap();
            let d1 = final(b).dynamic.unwrap();
            &&& d1.vel_spec() == bounced_vel(d0.vel_spec(), d0.max_vel_spec(), pushes@)
            &&& d1.accel_spec() == d0.accel_spec()
            &&& d1.max_vel_spec() == d0.max_vel_spec()
            &&& d1.friction_spec() == d0.friction_spec()
        }),
{
    let ghost b0 = *b;
    let mut d = b.dynamic.unwrap();
    let n = pushes.len();
    let mut i: usize = 0;
    while i < n
        invariant
            n == pushes@.len(),
            i <= n,
            forall|k: int| 0 <= k < pushes@.len() ==> push_bounded(#[trigger] pushes@[k]),
            bounces_in_world(b0.transform.translation, pushes@),
            body_wf(*b),
            b.collider == b0.collider,
            b.dynamic == b0.dynamic,
            d.wf(),
            b.transform == at(
                b0.transform,
                bounced_pos(b0.transform.translation, pushes@.subrange(0, i as int)),
            ),
            d.vel_spec() == bounced_vel(
                b0.dynamic.unwrap().vel_spec(),
                b0.dynamic.unwrap().max_vel_spec(),
                pushes@.subrange(0, i as int),
            ),
            d.accel_spec() == b0.dynamic.unwrap().accel_spec(),
            d.max_vel_spec() == b0.dynamic.unwrap().max_vel_spec(),
            d.friction_spec() == b0.dynamic.unwrap().friction_spec(),
        decreases n - i,
    {
        let p = pushes[i];
        proof {
            assert(pushes@.subrange(0, i + 1).drop_last() =~= pushes@.subrange(0, i as int));
            assert(pushes@.subrange(0, i + 1).last() == p);
            assert(push_bounded(pushes@[i as int]));
            let _ = bounced_raw(b0.transform.translation, pushes@.subrange(0, i + 1));
            let _ = bounced_raw(b0.transform.translation, pushes@.subrange(0, i as int));
        }
        let (vx, vy) = push_vector(&p);
        let x = (b.transform.translation.x as i128 - vx) as i64;
        let y = (b.transform.translation.y as i128 - vy) as i64;
        b.transform = Transform {
            translation: Point { x, y },
            quarter_turns: b.transform.quarter_turns,
            scale: b.transform.scale,
        };
        let v = d.vel();
        proof {
            crate::dynamic_object::lemma_vel_within(d);
        }
        let rv = reflect(v, p.axis);
        proof {
            lemma_mul_within(BOUNCINESS as int, rv.x as int, 1, 0x1_0000_0000_0000);
            lemma_mul_within(BOUNCINESS as int, rv.y as int, 1, 0x1_0000_0000_0000);
        }
        d.set_vel(Point { x: BOUNCINESS * rv.x, y: BOUNCINESS * rv.y });
        i = i + 1;
    }
    proof {
        assert(pushes@.subrange(0, n as int) =~= pushes@);
    }
    b.dynamic = Some(d);
}


/// Body `k` of `bs`, `b`, stays within the world through the step: its move,
/// and every bounce after it.
pub open spec fn stays_in_world(bs: Seq<Body>, dt: int, b: Body, k: int) -> bool {
    b.dynamic.is_some() ==> {
        &&& moves_in_world(b, dt)
        &&& bounces_in_world(
            moved_transform(b, dt).translation,
            bounce_pushes(bs, records(bs, dt, k), records(bs, dt, k).len() as int),
        )
    }
}

/// The velocity of `d` after `dt` ticks, as a point.
pub open spec fn moved_vel(d: DynamicObject, dt: int) -> Point {
    Point { x: integrated_vel(d, dt).0 as i64, y: integrated_vel(d, dt).1 as i64 }
}

/// `d1` is `d0` with its velocity replaced by `vel`.
pub open spec fn with_vel(d0: DynamicObject, d1: DynamicObject, vel: Point) -> bool {
    &&& d1.vel_spec() == vel
    &&& d1.accel_spec() == d0.accel_spec()
    &&& d1.max_vel_spec() == d0.max_vel_spec()
    &&& d1.friction_spec() == d0.friction_spec()
}

/// Body `k` of `bs`, `b0`, has moved for `dt` ticks and its collider stands
/// at the new place: `b1`.
pub open spec fn framed(bs: Seq<Body>, dt: int, k: int, b1: Body) -> bool {
    let b0 = bs[k];
    &&& body_wf(b1)
    &&& b1.transform == moved_transform(b0, dt)
    &&& b1.collider.originals() == b0.collider.originals()
    &&& b1.collider.solid() == b0.collider.solid()
    &&& b1.collider.currents() == frame_shapes(bs, dt, k)
    &&& b1.dynamic.is_some() == b0.dynamic.is_some()
    &&& b0.dynamic.is_some() ==> with_vel(
        b0.dynamic.unwrap(),
        b1.dynamic.unwrap(),
        moved_vel(b0.dynamic.unwrap(), dt),
    )
}

/// The collisions recorded on body `k` in a step.
pub open spec fn records(bs: Seq<Body>, dt: int, k: int) -> Seq<Collision> {
    if bs[k].dynamic.is_some() {
        dynamic_records(bs, dt, k, bs.len() as int)
    } else {
        static_records(bs, dt, k, bs.len() as int)
    }
}

/// Every recorded push is bounded and names a body of the world.
pub open spec fn records_sound(recs: Seq<Collision>, n: int) -> bool {
    forall|c: int|
        0 <= c < recs.len() ==> push_bounded((#[trigger] recs[c]).mpv) && recs[c].other_entity < n
}

/// `p` corrected as `corrected` says, for positions within the world.
fn correct_push(p: Push, from: Point, to: Point) -> (r: Push)
    requires
        push_bounded(p),
        point_within(from, WORLD_LIMIT as int),
        point_within(to, WORLD_LIMIT as int),
    ensures
        r == corrected(p, from, to),
        push_bounded(r),
{
    let d = to.sub(&from);
    let a = p.axis.dot(&d);
    proof {
        crate::geom::lemma_dot_within(p.axis, d, AXIS_LIMIT as int, 2 * WORLD_LIMIT as int);
        lemma_mul_within(p.depth as int, a as int, 2 * PROJ_LIMIT as int, 0x10_0000_0000);
    }
    if p.depth * a < 0 {
        p.reversed()
    } else {
        p
    }
}

/// One physics step of `dt` ticks over all bodies: dynamic bodies move, every
/// collider is placed anew, each pair of a dynamic and a static body is
/// tested and recorded on both, and dynamic bodies bounce off the solid
/// static bodies they hit.
#[verifier::rlimit(40)]
pub fn update(bodies: &mut Vec<Body>, dt: i64)
    requires
        forall|k: int| 0 <= k < old(bodies)@.len() ==> body_ready(#[trigger] old(bodies)@[k]),
        forall|k: int|
            0 <= k < old(bodies)@.len() ==> stays_in_world(old(bodies)@, dt as int, #[trigger] old(bodies)@[k], k),
        forall|i: int, j: int|
            0 <= i < old(bodies)@.len() && 0 <= j < old(bodies)@.len() ==> pairs_fit(
                (#[trigger] old(bodies)@[i]).collider.originals().len() as int,
                (#[trigger] old(bodies)@[j]).collider.originals().len() as int,
            ),
        0 <= dt <= MAX_DT,
    ensures
        final(bodies)@.len() == old(bodies)@.len(),
        forall|k: int|
            0 <= k < final(bodies)@.len() ==> {
                let b0 = old(bodies)@[k];
                let b1 = #[trigger] final(bodies)@[k];
                let mt = moved_transform(b0, dt as int);
                &&& body_wf(b1)
                &&& b1.collider.originals() == b0.collider.originals()
                &&& b1.collider.solid() == b0.collider.solid()
                &&& b1.collider.currents() == frame_shapes(old(bodies)@, dt as int, k)
                &&& b1.collider.recent() == records(old(bodies)@, dt as int, k)
                &&& b1.dynamic.is_some() == b0.dynamic.is_some()
                &&& b0.dynamic.is_none() ==> b1.transform == b0.transform
                &&& b0.dynamic.is_some() ==> {
                    let ps = bounce_pushes(
                        old(bodies)@,
                        records(old(bodies)@, dt as int, k),
                        records(old(bodies)@, dt as int, k).len() as int,
                    );
                    &&& b1.transform == at(mt, bounced_pos(mt.translation, ps))
                    &&& with_vel(
                        b0.dynamic.unwrap(),
                        b1.dynamic.unwrap(),
                        bounced_vel(
                            moved_vel(b0.dynamic.unwrap(), dt as int),
                            b0.dynamic.unwrap().max_vel_spec(),
                            ps,
                        ),
                    )
                }
            },
{
    let ghost bs = bodies@;
    let n = bodies.len();
    // Movement
    let mut k: usize = 0;
    while k < n
        invariant
            n == bodies@.len(),
            bs.len() == n,
            0 <= dt <= MAX_DT,
            k <= n,
            forall|m: int| 0 <= m < n ==> body_ready(#[trigger] bs[m]),
            forall|m: int| 0 <= m < n ==> stays_in_world(bs, dt as int, #[trigger] bs[m], m),
            forall|m: int| k <= m < n ==> #[trigger] bodies@[m] == bs[m],
            forall|m: int|
                0 <= m < k ==> {
                    let b0 = bs[m];
                    let b1 = #[trigger] bodies@[m];
                    &&& body_wf(b1)
                    &&& b1.transform == moved_transform(b0, dt as int)
                    &&& b1.collider == b0.collider
                    &&& b1.dynamic.is_some() == b0.dynamic.is_some()
                    &&& b0.dynamic.is_some() ==> with_vel(
                        b0.dynamic.unwrap(),
                        b1.dynamic.unwrap(),
                        moved_vel(b0.dynamic.unwrap(), dt as int),
                    )
                },
        decreases n - k,
    {
        if bodies[k].dynamic.is_some() {
            move_body(&mut bodies[k], dt);
        }
        k = k + 1;
    }
    // Colliders follow their bodies
    let mut k: usize = 0;
    while k < n
        invariant
            n == bodies@.len(),
            bs.len() == n,
            k <= n,
            forall|m: int|
                k <= m < n ==> {
                    let b0 = bs[m];
                    let b1 = #[trigger] bodies@[m];
                    &&& body_wf(b1)
                    &&& b1.transform == moved_transform(b0, dt as int)
                    &&& b1.collider == b0.collider
                    &&& b1.dynamic.is_some() == b0.dynamic.is_some()
                    &&& b0.dynamic.is_some() ==> with_vel(
                        b0.dynamic.unwrap(),
                        b1.dynamic.unwrap(),
                        moved_vel(b0.dynamic.unwrap(), dt as int),
                    )
                },
            forall|m: int|
                0 <= m < k ==> framed(bs, dt as int, m, #[trigger] bodies@[m])
                    && bodies@[m].collider.recent() == Seq::<Collision>::empty(),
        decreases n - k,
    {
        refresh_collider(&mut bodies[k]);
        k = k + 1;
    }
    // Each pair of a dynamic and a static body
    let mut i: usize = 0;
    while i < n
        invariant
            n == bodies@.len(),
            bs.len() == n,
            i <= n,
            forall|m: int| 0 <= m < n ==> framed(bs, dt as int, m, #[trigger] bodies@[m]),
            forall|i2: int, j2: int|
                0 <= i2 < n && 0 <= j2 < n ==> pairs_fit(
                    (#[trigger] bs[i2]).collider.originals().len() as int,
                    (#[trigger] bs[j2]).collider.originals().len() as int,
                ),
            forall|m: int|
                0 <= m < n ==> records_sound((#[trigger] bodies@[m]).collider.recent(), n as int),
            forall|m: int|
                0 <= m < n && bs[m].dynamic.is_some() ==> (#[trigger] bodies@[m]).collider.recent()
                    == if m < i {
                    dynamic_records(bs, dt as int, m, n as int)
                } else {
                    Seq::<Collision>::empty()
                },
            forall|m: int|
                0 <= m < n && bs[m].dynamic.is_none() ==> (#[trigger] bodies@[m]).collider.recent()
                    == static_records(bs, dt as int, m, i as int),
        decreases n - i,
    {
        if bodies[i].dynamic.is_some() {
            let mut j: usize = 0;
            while j < n
                invariant
                    n == bodies@.len(),
                    bs.len() == n,
                    i < n,
                    j <= n,
                    bs[i as int].dynamic.is_some(),
                    forall|m: int| 0 <= m < n ==> framed(bs, dt as int, m, #[trigger] bodies@[m]),
                    forall|i2: int, j2: int|
                        0 <= i2 < n && 0 <= j2 < n ==> pairs_fit(
                            (#[trigger] bs[i2]).collider.originals().len() as int,
                            (#[trigger] bs[j2]).collider.originals().len() as int,
                        ),
                    forall|m: int|
                        0 <= m < n ==> records_sound(
                            (#[trigger] bodies@[m]).collider.recent(),
                            n as int,
                        ),
                    forall|m: int|
                        0 <= m < n && bs[m].dynamic.is_some() ==> (#[trigger] bodies@[m]).collider.recent()
                            == if m < i {
                            dynamic_records(bs, dt as int, m, n as int)
                        } else if m == i {
                            dynamic_records(bs, dt as int, m, j as int)
                        } else {
                            Seq::<Collision>::empty()
                        },
                    forall|m: int|
                        0 <= m < n && bs[m].dynamic.is_none() ==> (#[trigger] bodies@[m]).collider.recent()
                            == if m < j {
                            static_records(bs, dt as int, m, i + 1)
                        } else {
                            static_records(bs, dt as int, m, i as int)
                        },
                decreases n - j,
            {
                let ghost before = bodies@;
                if bodies[j].dynamic.is_none() {
                    let r = bodies[i].collider.process_collision(&bodies[j].collider);
                    if let Some(p) = r {
                        let mpv = correct_push(
                            p,
                            bodies[i].transform.translation,
                            bodies[j].transform.translation,
                        );
                        assert(pair_push(bs, dt as int, i as int, j as int) == Some(mpv));
                        bodies[i].collider.add_recent_collision(j, mpv);
                        let back = mpv.reversed();
                        bodies[j].collider.add_recent_collision(i, back);
                        proof {
                            assert(bodies@ == before.update(i as int, bodies@[i as int]).update(j as int, bodies@[j as int]));
                        }
                    } else {
                        assert(pair_push(bs, dt as int, i as int, j as int).is_none());
                    }
                }
                j = j + 1;
            }
        }
        i = i + 1;
    }
    // Bounces
    let ghost w3 = bodies@;
    let mut i: usize = 0;
    while i < n
        invariant
            n == bodies@.len(),
            bs.len() == n,
            w3.len() == n,
            i <= n,
            forall|m: int| 0 <= m < n ==> framed(bs, dt as int, m, #[trigger] w3[m]),
            forall|m: int| 0 <= m < n ==> stays_in_world(bs, dt as int, #[trigger] bs[m], m),
            forall|m: int| 0 <= m < n ==> (#[trigger] w3[m]).collider.recent() == records(bs, dt as int, m),
            forall|m: int| 0 <= m < n ==> records_sound((#[trigger] w3[m]).collider.recent(), n as int),
            forall|m: int| i <= m < n ==> #[trigger] bodies@[m] == w3[m],
            forall|m: int| 0 <= m < n ==> (#[trigger] bodies@[m]).collider == w3[m].collider,
            forall|m: int|
                0 <= m < i ==> {
                    let b0 = bs[m];
                    let b1 = #[trigger] bodies@[m];
                    let mt = moved_transform(b0, dt as int);
                    &&& body_wf(b1)
                    &&& b1.dynamic.is_some() == b0.dynamic.is_some()
                    &&& b0.dynamic.is_none() ==> b1.transform == b0.transform
                    &&& b0.dynamic.is_some() ==> {
                        let ps = bounce_pushes(
                            bs,
                            records(bs, dt as int, m),
                            records(bs, dt as int, m).len() as int,
                        );
                        &&& b1.transform == at(mt, bounced_pos(mt.translation, ps))
                        &&& with_vel(
                            b0.dynamic.unwrap(),
                            b1.dynamic.unwrap(),
                            bounced_vel(
                                moved_vel(b0.dynamic.unwrap(), dt as int),
                                b0.dynamic.unwrap().max_vel_spec(),
                                ps,
                            ),
                        )
                    }
                },
        decreases n - i,
    {
        if bodies[i].dynamic.is_some() {
            let ps = solid_pushes(bodies, i);
            proof {
                lemma_bounce_pushes_solid(bodies@, bs, bodies@[i as int].collider.recent(), bodies@[i as int].collider.recent().len() as int);
            }
            bounce_body(&mut bodies[i], &ps);
        }
        i = i + 1;
    }
}

/// The pushes of body `i`'s records whose other body is solid.
fn solid_pushes(bodies: &Vec<Body>, i: usize) -> (r: Vec<Push>)
    requires
        i < bodies@.len(),
        records_sound(bodies@[i as int].collider.recent(), bodies@.len() as int),
    ensures
        r@ == bounce_pushes(
            bodies@,
            bodies@[i as int].collider.recent(),
            bodies@[i as int].collider.recent().len() as int,
        ),
        forall|k: int| 0 <= k < r@.len() ==> push_bounded(#[trigger] r@[k]),
{
    let recs = bodies[i].collider.get_recent_collisions();
    let ghost rs = bodies@[i as int].collider.recent();
    let mut r: Vec<Push> = Vec::new();
    let mut c: usize = 0;
    while c < recs.len()
        invariant
            recs@ == rs,
            rs == bodies@[i as int].collider.recent(),
            records_sound(rs, bodies@.len() as int),
            c <= rs.len(),
            r@ == bounce_pushes(bodies@, rs, c as int),
            forall|k: int| 0 <= k < r@.len() ==> push_bounded(#[trigger] r@[k]),
        decreases rs.len() - c,
    {
        let col = recs[c];
        proof {
            assert(push_bounded(rs[c as int].mpv) && rs[c as int].other_entity < bodies@.len());
        }
        if bodies[col.other_entity].collider.is_solid() {
            r.push(col.mpv);
        }
        c = c + 1;
    }
    r
}

/// Which pushes bounce depends only on which bodies are solid.
proof fn lemma_bounce_pushes_solid(a: Seq<Body>, b: Seq<Body>, recs: Seq<Collision>, n: int)
    requires
        a.len() == b.len(),
        forall|m: int| 0 <= m < a.len() ==> (#[trigger] a[m]).collider.solid() == b[m].collider.solid(),
        records_sound(recs, a.len() as int),
        n <= recs.len(),
    ensures
        bounce_pushes(a, recs, n) == bounce_pushes(b, recs, n),
    decreases n,
{
    if n > 0 {
        lemma_bounce_pushes_solid(a, b, recs, n - 1);
        assert(recs[n - 1].other_entity < a.len());
    }
}


proof fn lemma_bounce_pushes_prefix(bs: Seq<Body>, recs: Seq<Collision>, c: Collision, m: int)
    requires
        0 <= m <= recs.len(),
    ensures
        bounce_pushes(bs, recs.push(c), m) == bounce_pushes(bs, recs, m),
    decreases m,
{
    if m > 0 {
        lemma_bounce_pushes_prefix(bs, recs, c, m - 1);
        assert(recs.push(c)[m - 1] == recs[m - 1]);
    }
}

proof fn lemma_bounce_pushes_push(bs: Seq<Body>, recs: Seq<Collision>, c: Collision)
    ensures
        bounce_pushes(bs, recs.push(c), recs.len() as int + 1) == if bs[c.other_entity as int].collider.solid() {
            bounce_pushes(bs, recs, recs.len() as int).push(c.mpv)
        } else {
            bounce_pushes(bs, recs, recs.len() as int)
        },
{
    lemma_bounce_pushes_prefix(bs, recs, c, recs.len() as int);
    assert(recs.push(c)[recs.len() as int] == c);
}

/// Whether body `k` stays within the world through a step of `dt` ticks,
/// as `stays_in_world` says.
fn body_stays_in_world(bodies: &Vec<Body>, k: usize, dt: i64) -> (r: bool)
    requires
        k < bodies@.len(),
        forall|m: int| 0 <= m < bodies@.len() ==> body_ready(#[trigger] bodies@[m]),
        forall|i: int, j: int|
            0 <= i < bodies@.len() && 0 <= j < bodies@.len() ==> pairs_fit(
                (#[trigger] bodies@[i]).collider.originals().len() as int,
                (#[trigger] bodies@[j]).collider.originals().len() as int,
            ),
        0 <= dt <= MAX_DT,
    ensures
        r == stays_in_world(bodies@, dt as int, bodies@[k as int], k as int),
{
    let ghost bs = bodies@;
    let n = bodies.len();
    if bodies[k].dynamic.is_none() {
        return true;
    }
    assert(body_ready(bs[k as int]));
    let mut d = bodies[k].dynamic.unwrap();
    let disp = d.integrate(dt);
    let t = bodies[k].transform;
    let mx: i64 = t.translation.x + disp.x;
    let my: i64 = t.translation.y + disp.y;
    if !(-WORLD_LIMIT <= mx && mx <= WORLD_LIMIT && -WORLD_LIMIT <= my && my <= WORLD_LIMIT) {
        return false;
    }
    let moved = Point { x: mx, y: my };
    let mt = Transform { translation: moved, quarter_turns: t.quarter_turns, scale: t.scale };
    assert(mt == moved_transform(bs[k as int], dt as int));
    proof {
        assert forall|i: int| 0 <= i < bs[k as int].collider.originals().len() implies fits_shape(
            #[trigger] bs[k as int].collider.originals()[i],
            mt,
        ) by {
            lemma_placed_fits(bs[k as int].collider.originals()[i], mt);
        }
    }
    let ck = bodies[k].collider.placed(&mt);
    assert(ck.currents() =~= frame_shapes(bs, dt as int, k as int));
    let mut ps: Vec<Push> = Vec::new();
    let mut j: usize = 0;
    while j < n
        invariant
            n == bs.len(),
            bs == bodies@,
            k < n,
            j <= n,
            bs[k as int].dynamic.is_some(),
            forall|m: int| 0 <= m < bs.len() ==> body_ready(#[trigger] bs[m]),
            forall|i: int, j2: int|
                0 <= i < bs.len() && 0 <= j2 < bs.len() ==> pairs_fit(
                    (#[trigger] bs[i]).collider.originals().len() as int,
                    (#[trigger] bs[j2]).collider.originals().len() as int,
                ),
            ck.wf(),
            ck.originals() == bs[k as int].collider.originals(),
            ck.currents() == frame_shapes(bs, dt as int, k as int),
            moved == moved_transform(bs[k as int], dt as int).translation,
            point_within(moved, WORLD_LIMIT as int),
            ps@ == bounce_pushes(
                bs,
                dynamic_records(bs, dt as int, k as int, j as int),
                dynamic_records(bs, dt as int, k as int, j as int).len() as int,
            ),
            forall|q: int| 0 <= q < ps@.len() ==> push_bounded(#[trigger] ps@[q]),
        decreases n - j,
    {
        if bodies[j].dynamic.is_none() {
            let tj = bodies[j].transform;
            proof {
                assert(body_ready(bs[j as int]));
                assert forall|i: int| 0 <= i < bs[j as int].collider.originals().len() implies fits_shape(
                    #[trigger] bs[j as int].collider.originals()[i],
                    tj,
                ) by {
                    lemma_placed_fits(bs[j as int].collider.originals()[i], tj);
                }
            }
            let cj = bodies[j].collider.placed(&tj);
            assert(cj.currents() =~= frame_shapes(bs, dt as int, j as int));
            let r = ck.process_collision(&cj);
            let ghost recs = dynamic_records(bs, dt as int, k as int, j as int);
            match r {
                Some(p) => {
                    let mpv = correct_push(p, moved, tj.translation);
                    proof {
                        assert(pair_push(bs, dt as int, k as int, j as int) == Some(mpv));
                        lemma_bounce_pushes_push(bs, recs, Collision { other_entity: j, mpv });
                    }
                    if bodies[j].collider.is_solid() {
                        ps.push(mpv);
                    }
                },
                None => {
                    assert(pair_push(bs, dt as int, k as int, j as int).is_none());
                },
            }
        }
        j = j + 1;
    }
    let ghost pushes = ps@;
    assert(pushes == bounce_pushes(
        bs,
        records(bs, dt as int, k as int),
        records(bs, dt as int, k as int).len() as int,
    ));
    assert(moves_in_world(bs[k as int], dt as int));
    let mut px: i128 = mx as i128;
    let mut py: i128 = my as i128;
    proof {
        assert(pushes.subrange(0, 0) =~= Seq::<Push>::empty());
    }
    let mut q: usize = 0;
    while q < ps.len()
        invariant
            pushes == ps@,
            bs == bodies@,
            k < bs.len(),
            bs[k as int].dynamic.is_some(),
            moved == moved_transform(bs[k as int], dt as int).translation,
            moves_in_world(bs[k as int], dt as int),
            pushes == bounce_pushes(
                bs,
                records(bs, dt as int, k as int),
                records(bs, dt as int, k as int).len() as int,
            ),
            q <= pushes.len(),
            forall|i: int| 0 <= i < pushes.len() ==> push_bounded(#[trigger] pushes[i]),
            px == bounced_raw(moved, pushes.subrange(0, q as int)).0,
            py == bounced_raw(moved, pushes.subrange(0, q as int)).1,
            within(px as int, WORLD_LIMIT as int),
            within(py as int, WORLD_LIMIT as int),
            forall|i: int|
                0 <= i <= q ==> within(
                    (#[trigger] bounced_raw(moved, pushes.subrange(0, i))).0,
                    WORLD_LIMIT as int,
                ) && within(bounced_raw(moved, pushes.subrange(0, i)).1, WORLD_LIMIT as int),
        decreases pushes.len() - q,
    {
        let p = ps[q];
        proof {
            assert(push_bounded(pushes[q as int]));
            assert(pushes.subrange(0, q + 1).drop_last() =~= pushes.subrange(0, q as int));
            assert(pushes.subrange(0, q + 1).last() == p);
        }
        let (vx, vy) = push_vector(&p);
        px = px - vx;
        py = py - vy;
        if !(-(WORLD_LIMIT as i128) <= px && px <= WORLD_LIMIT as i128 && -(WORLD_LIMIT as i128)
            <= py && py <= WORLD_LIMIT as i128) {
            proof {
                let b = bounced_raw(moved, pushes.subrange(0, q + 1));
                assert(b.0 == px && b.1 == py);
                assert(!(within(b.0, WORLD_LIMIT as int) && within(b.1, WORLD_LIMIT as int)));
                assert(!bounces_in_world(moved, pushes));
            }
            return false;
        }
        q = q + 1;
    }
    proof {
        assert(pushes.subrange(0, pushes.len() as int) =~= pushes);
    }
    true
}

/// Whether every body stays within the world through a step of `dt` ticks:
/// exactly the condition `update` requires beyond well-formedness.
pub fn step_stays_in_world(bodies: &Vec<Body>, dt: i64) -> (r: bool)
    requires
        forall|m: int| 0 <= m < bodies@.len() ==> body_ready(#[trigger] bodies@[m]),
        forall|i: int, j: int|
            0 <= i < bodies@.len() && 0 <= j < bodies@.len() ==> pairs_fit(
                (#[trigger] bodies@[i]).collider.originals().len() as int,
                (#[trigger] bodies@[j]).collider.originals().len() as int,
            ),
        0 <= dt <= MAX_DT,
    ensures
        r == forall|k: int|
            0 <= k < bodies@.len() ==> stays_in_world(bodies@, dt as int, #[trigger] bodies@[k], k),
{
    let n = bodies.len();
    let mut k: usize = 0;
    while k < n
        invariant
            n == bodies@.len(),
            k <= n,
            forall|m: int| 0 <= m < bodies@.len() ==> body_ready(#[trigger] bodies@[m]),
            forall|i: int, j: int|
                0 <= i < bodies@.len() && 0 <= j < bodies@.len() ==> pairs_fit(
                    (#[trigger] bodies@[i]).collider.originals().len() as int,
                    (#[trigger] bodies@[j]).collider.originals().len() as int,
                ),
            0 <= dt <= MAX_DT,
            forall|m: int| 0 <= m < k ==> stays_in_world(bodies@, dt as int, #[trigger] bodies@[m], m),
        decreases n - k,
    {
        if !body_stays_in_world(bodies, k, dt) {
            return false;
        }
        k = k + 1;
    }
    true
}

} // verus!
