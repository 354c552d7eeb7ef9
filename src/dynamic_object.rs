//! Moving objects: acceleration, friction and a speed cap.
use vstd::prelude::*;

use crate::geom::{point_within, within, Point};
use crate::util::{ceil_sqrt, isqrt_ceil};

verus! {

/// No object in the world can exceed this speed, in units per tick.
pub const GLOBAL_MAX_VEL: i64 = 500;

/// Friction coefficients are given in thousandths per tick.
pub const FRICTION_SCALE: i64 = 1000;

/// The largest size of a friction coefficient, in thousandths per tick: as
/// far as the integer arithmetic of a step reaches.
pub const MAX_FRICTION: i64 = 0x10_0000_0000;

/// The largest acceleration along either axis, in units per tick squared.
pub const MAX_ACCEL: i64 = 100_000;

/// The longest time step, in ticks.
pub const MAX_DT: i64 = 1000;

/// Division of `n` by `d > 0`, rounded towards zero.
pub open spec fn trunc_div(n: int, d: int) -> int {
    if n >= 0 {
        n / d
    } else {
        -((-n) / d)
    }
}

pub(crate) fn trunc_div_exec(n: i128, d: i128) -> (r: i128)
    requires
        d > 0,
        n > i128::MIN,
    ensures
        r == trunc_div(n as int, d as int),
{
    if n >= 0 {
        n / d
    } else {
        -((-n) / d)
    }
}

pub proof fn lemma_trunc_div_bound(n: int, d: int)
    requires
        d > 0,
    ensures
        trunc_div(n, d) * trunc_div(n, d) * d * d <= n * n,
        n >= 0 ==> 0 <= trunc_div(n, d) <= n,
        n < 0 ==> n <= trunc_div(n, d) <= 0,
{
    let a = if n >= 0 {
        n
    } else {
        -n
    };
    vstd::arithmetic::div_mod::lemma_fundamental_div_mod(a, d);
    vstd::arithmetic::div_mod::lemma_mod_bound(a, d);
    let q = a / d;
    assert(0 <= q * d <= a) by (nonlinear_arith)
        requires
            a == d * q + a % d,
            0 <= a % d < d,
            a >= 0,
            d > 0,
    ;
    assert(q <= a) by (nonlinear_arith)
        requires
            0 <= q * d <= a,
            d > 0,
    ;
    assert(q * q * d * d <= a * a) by (nonlinear_arith)
        requires
            0 <= q * d <= a,
    ;
    assert(a * a == n * n) by (nonlinear_arith)
        requires
            a == n || a == -n,
    ;
    assert(trunc_div(n, d) * trunc_div(n, d) == q * q) by (nonlinear_arith)
        requires
            trunc_div(n, d) == q || trunc_div(n, d) == -q,
    ;
}

/// The velocity after `dt` ticks of acceleration `a` and friction `f`
/// (thousandths per tick) that opposes the velocity `v`, along one axis:
/// `v + (a - v * f) * dt`, rounded towards zero.
pub open spec fn accelerated(v: int, a: int, f: int, dt: int) -> int {
    v + trunc_div((a * FRICTION_SCALE - v * f) * dt, FRICTION_SCALE as int)
}

/// `v` scaled down to length `m` where it is longer, each coordinate rounded
/// towards zero.
pub open spec fn capped(v: (int, int), m: int) -> (int, int) {
    let n2 = v.0 * v.0 + v.1 * v.1;
    if n2 > m * m {
        let s = ceil_sqrt(n2);
        (trunc_div(v.0 * m, s), trunc_div(v.1 * m, s))
    } else {
        v
    }
}

/// State of an object that moves.
#[derive(Clone, Copy, Debug, PartialEq, Eq, Structural)]
pub struct DynamicObject {
    /// Acceleration asked for from outside; the physics step only reads it.
    accel: Point,
    /// Velocity, owned by the physics step.
    vel: Point,
    /// The speed this object cannot exceed.
    max_vel: i64,
    /// Friction acceleration is `-vel * friction_coeff / FRICTION_SCALE`.
    friction_coeff: i64,
}

impl DynamicObject {
    pub closed spec fn accel_spec(&self) -> Point {
        self.accel
    }

    pub closed spec fn vel_spec(&self) -> Point {
        self.vel
    }

    pub closed spec fn max_vel_spec(&self) -> int {
        self.max_vel as int
    }

    pub closed spec fn friction_spec(&self) -> int {
        self.friction_coeff as int
    }

    /// The speed is within the cap, and the cap within the global one.
    pub open spec fn wf(&self) -> bool {
        &&& 0 <= self.max_vel_spec() <= GLOBAL_MAX_VEL
        &&& -MAX_FRICTION <= self.friction_spec() <= MAX_FRICTION
        &&& self.vel_spec().x * self.vel_spec().x + self.vel_spec().y * self.vel_spec().y
            <= self.max_vel_spec() * self.max_vel_spec()
    }

    /// A resting object with the global maximum speed and no friction.
    pub fn new() -> (r: DynamicObject)
        ensures
            r.wf(),
            r.accel_spec() == (Point { x: 0, y: 0 }),
            r.vel_spec() == (Point { x: 0, y: 0 }),
            r.max_vel_spec() == GLOBAL_MAX_VEL,
            r.friction_spec() == 0,
    {
        DynamicObject {
            accel: Point { x: 0, y: 0 },
            vel: Point { x: 0, y: 0 },
            max_vel: GLOBAL_MAX_VEL,
            friction_coeff: 0,
        }
    }

    /// A resting object with the given maximum speed and friction coefficient
    /// (thousandths per tick). Only the size of `max_vel` matters: the cap is
    /// on the square of the speed.
    pub fn from_max_vel_and_friction_coeff(max_vel: i64, friction_coeff: i64) -> (r: DynamicObject)
        requires
            -GLOBAL_MAX_VEL <= max_vel <= GLOBAL_MAX_VEL,
            -MAX_FRICTION <= friction_coeff <= MAX_FRICTION,
        ensures
            r.wf(),
            r.accel_spec() == (Point { x: 0, y: 0 }),
            r.vel_spec() == (Point { x: 0, y: 0 }),
            r.max_vel_spec() == if max_vel < 0 {
                -max_vel
            } else {
                max_vel as int
            },
            r.max_vel_spec() * r.max_vel_spec() == max_vel * max_vel,
            r.friction_spec() == friction_coeff,
    {
        let m: i64 = if max_vel < 0 {
            -max_vel
        } else {
            max_vel
        };
        assert(m * m == max_vel * max_vel) by (nonlinear_arith)
            requires
                m == max_vel || m == -max_vel,
        ;
        DynamicObject { accel: Point { x: 0, y: 0 }, vel: Point { x: 0, y: 0 }, max_vel: m, friction_coeff }
    }

    /// The acceleration asked for.
    pub fn accel(&self) -> (r: Point)
        ensures
            r == self.accel_spec(),
    {
        self.accel
    }

    /// Sets the acceleration the next step applies.
    pub fn set_accel(&mut self, accel: Point)
        ensures
            final(self).accel_spec() == accel,
            final(self).vel_spec() == old(self).vel_spec(),
            final(self).max_vel_spec() == old(self).max_vel_spec(),
            final(self).friction_spec() == old(self).friction_spec(),
    {
        self.accel = accel;
    }

    /// The velocity.
    pub fn vel(&self) -> (r: Point)
        ensures
            r == self.vel_spec(),
    {
        self.vel
    }

    /// The square of the maximum speed.
    pub fn max_vel_squared(&self) -> (r: i64)
        requires
            self.wf(),
        ensures
            r == self.max_vel_spec() * self.max_vel_spec(),
    {
        proof {
            crate::geom::lemma_mul_within(self.max_vel as int, self.max_vel as int, GLOBAL_MAX_VEL as int, GLOBAL_MAX_VEL as int);
        }
        self.max_vel * self.max_vel
    }

    /// Replaces the velocity, scaled down to the speed cap where it exceeds it.
    pub fn set_vel(&mut self, vel: Point)
        requires
            old(self).wf(),
            point_within(vel, 0x80_0000_0000_0000),
        ensures
            final(self).wf(),
            final(self).accel_spec() == old(self).accel_spec(),
            final(self).max_vel_spec() == old(self).max_vel_spec(),
            final(self).friction_spec() == old(self).friction_spec(),
            final(self).vel_spec().x == capped((vel.x as int, vel.y as int), old(self).max_vel_spec()).0,
            final(self).vel_spec().y == capped((vel.x as int, vel.y as int), old(self).max_vel_spec()).1,
    {
        self.vel = cap_velocity(vel.x as i128, vel.y as i128, self.max_vel);
    }

    /// Advances the velocity by `dt` ticks: friction opposing the velocity is
    /// added to the acceleration, the velocity grows by the total times `dt`,
    /// and is then scaled down to the speed cap where it exceeds it. Returns
    /// how far the object moves: the new velocity times `dt`.
    pub fn integrate(&mut self, dt: i64) -> (displacement: Point)
        requires
            old(self).wf(),
            0 <= dt <= MAX_DT,
            point_within(old(self).accel_spec(), MAX_ACCEL as int),
        ensures
            final(self).wf(),
            final(self).vel_spec().x * final(self).vel_spec().x + final(self).vel_spec().y
                * final(self).vel_spec().y <= final(self).max_vel_spec() * final(self).max_vel_spec(),
            final(self).accel_spec() == old(self).accel_spec(),
            final(self).max_vel_spec() == old(self).max_vel_spec(),
            final(self).friction_spec() == old(self).friction_spec(),
            final(self).vel_spec().x == capped(
                (
                    accelerated(old(self).vel_spec().x as int, old(self).accel_spec().x as int, old(self).friction_spec(), dt as int),
                    accelerated(old(self).vel_spec().y as int, old(self).accel_spec().y as int, old(self).friction_spec(), dt as int),
                ),
                old(self).max_vel_spec(),
            ).0,
            final(self).vel_spec().y == capped(
                (
                    accelerated(old(self).vel_spec().x as int, old(self).accel_spec().x as int, old(self).friction_spec(), dt as int),
                    accelerated(old(self).vel_spec().y as int, old(self).accel_spec().y as int, old(self).friction_spec(), dt as int),
                ),
                old(self).max_vel_spec(),
            ).1,
            displacement.x == final(self).vel_spec().x * dt,
            displacement.y == final(self).vel_spec().y * dt,
            point_within(displacement, GLOBAL_MAX_VEL * MAX_DT),
    {
        proof {
            lemma_speed_bounds(self.vel.x as int, self.vel.y as int, self.max_vel as int);
        }
        let vx = accelerate_axis(self.vel.x, self.accel.x, self.friction_coeff, dt, self.max_vel);
        let vy = accelerate_axis(self.vel.y, self.accel.y, self.friction_coeff, dt, self.max_vel);
        self.vel = cap_velocity(vx, vy, self.max_vel);
        proof {
            lemma_speed_bounds(self.vel.x as int, self.vel.y as int, self.max_vel as int);
            crate::geom::lemma_mul_within(self.vel.x as int, dt as int, GLOBAL_MAX_VEL as int, MAX_DT as int);
            crate::geom::lemma_mul_within(self.vel.y as int, dt as int, GLOBAL_MAX_VEL as int, MAX_DT as int);
        }
        Point { x: self.vel.x * dt, y: self.vel.y * dt }
    }
}

/// A well-formed object's velocity lies within the global speed on each axis.
pub proof fn lemma_vel_within(d: DynamicObject)
    requires
        d.wf(),
    ensures
        point_within(d.vel_spec(), GLOBAL_MAX_VEL as int),
{
    lemma_speed_bounds(d.vel_spec().x as int, d.vel_spec().y as int, d.max_vel_spec());
}

proof fn lemma_speed_bounds(x: int, y: int, m: int)
    requires
        0 <= m <= GLOBAL_MAX_VEL,
        x * x + y * y <= m * m,
    ensures
        within(x, m),
        within(y, m),
{
    assert(within(x, m) && within(y, m)) by (nonlinear_arith)
        requires
            0 <= m,
            x * x + y * y <= m * m,
    ;
}

/// `accelerated` along one axis.
fn accelerate_axis(v: i64, a: i64, f: i64, dt: i64, m: i64) -> (r: i128)
    requires
        0 <= m <= GLOBAL_MAX_VEL,
        within(v as int, m as int),
        within(a as int, MAX_ACCEL as int),
        within(f as int, MAX_FRICTION as int),
        0 <= dt <= MAX_DT,
    ensures
        r == accelerated(v as int, a as int, f as int, dt as int),
        within(r as int, 0x80_0000_0000_0000),
{
    proof {
        crate::geom::lemma_mul_within(a as int, FRICTION_SCALE as int, MAX_ACCEL as int, FRICTION_SCALE as int);
        crate::geom::lemma_mul_within(v as int, f as int, GLOBAL_MAX_VEL as int, MAX_FRICTION as int);
    }
    let t: i128 = (a as i128) * (FRICTION_SCALE as i128) - (v as i128) * (f as i128);
    proof {
        crate::geom::lemma_mul_within(t as int, dt as int, 0x2000_0000_0000, MAX_DT as int);
    }
    let d = trunc_div_exec(t * (dt as i128), FRICTION_SCALE as i128);
    proof {
        lemma_trunc_div_bound(t * dt, FRICTION_SCALE as int);
        assert(within(d as int, 0x2000_0000_0000int * 1000)) by (nonlinear_arith)
            requires
                (t * dt) >= 0 ==> 0 <= d <= t * dt,
                (t * dt) < 0 ==> t * dt <= d <= 0,
                within(t * dt, 0x2000_0000_0000int * 1000),
        ;
    }
    (v as i128) + d
}

/// Scales `(x, y)` down to length `m` where it is longer, as `capped` says.
fn cap_velocity(x: i128, y: i128, m: i64) -> (r: Point)
    requires
        0 <= m <= GLOBAL_MAX_VEL,
        within(x as int, 0x80_0000_0000_0000),
        within(y as int, 0x80_0000_0000_0000),
    ensures
        r.x == capped((x as int, y as int), m as int).0,
        r.y == capped((x as int, y as int), m as int).1,
        r.x * r.x + r.y * r.y <= m * m,
{
    proof {
        crate::geom::lemma_mul_within(x as int, x as int, 0x80_0000_0000_0000, 0x80_0000_0000_0000);
        crate::geom::lemma_mul_within(y as int, y as int, 0x80_0000_0000_0000, 0x80_0000_0000_0000);
        assert(x * x >= 0 && y * y >= 0) by (nonlinear_arith);
    }
    let n2: i128 = x * x + y * y;
    proof {
        crate::geom::lemma_mul_within(m as int, m as int, GLOBAL_MAX_VEL as int, GLOBAL_MAX_VEL as int);
    }
    let mm: i128 = (m as i128) * (m as i128);
    if n2 > mm {
        let s = isqrt_ceil(n2);
        proof {
            assert(s > 0) by (nonlinear_arith)
                requires
                    s * s >= n2,
                    n2 > mm,
                    mm >= 0,
                    s >= 0,
            ;
            crate::geom::lemma_mul_within(x as int, m as int, 0x80_0000_0000_0000, GLOBAL_MAX_VEL as int);
            crate::geom::lemma_mul_within(y as int, m as int, 0x80_0000_0000_0000, GLOBAL_MAX_VEL as int);
        }
        let qx = trunc_div_exec(x * (m as i128), s);
        let qy = trunc_div_exec(y * (m as i128), s);
        proof {
            lemma_cap_within(x as int, y as int, m as int, s as int, qx as int, qy as int);
        }
        Point { x: qx as i64, y: qy as i64 }
    } else {
        proof {
            lemma_speed_bounds(x as int, y as int, m as int);
        }
        Point { x: x as i64, y: y as i64 }
    }
}

/// Scaling a vector by `m / s`, with `s` at least its length and each
/// coordinate rounded towards zero, leaves it no longer than `m`.
proof fn lemma_cap_within(x: int, y: int, m: int, s: int, qx: int, qy: int)
    requires
        s > 0,
        0 <= m <= GLOBAL_MAX_VEL,
        s * s >= x * x + y * y,
        qx == trunc_div(x * m, s),
        qy == trunc_div(y * m, s),
    ensures
        qx * qx + qy * qy <= m * m,
        within(qx, m),
        within(qy, m),
{
    lemma_trunc_div_bound(x * m, s);
    lemma_trunc_div_bound(y * m, s);
    assert((x * m) * (x * m) == x * x * (m * m)) by (nonlinear_arith);
    assert((y * m) * (y * m) == y * y * (m * m)) by (nonlinear_arith);
    assert(qx * qx * s * s + qy * qy * s * s <= (x * x + y * y) * (m * m)) by (nonlinear_arith)
        requires
            qx * qx * s * s <= x * x * (m * m),
            qy * qy * s * s <= y * y * (m * m),
    ;
    assert((x * x + y * y) * (m * m) <= s * s * (m * m)) by (nonlinear_arith)
        requires
            s * s >= x * x + y * y,
    ;
    assert(qx * qx + qy * qy <= m * m) by (nonlinear_arith)
        requires
            qx * qx * s * s + qy * qy * s * s <= s * s * (m * m),
            s > 0,
    {
        assert((qx * qx + qy * qy) * (s * s) <= (m * m) * (s * s));
        assert(s * s > 0);
    }
    lemma_speed_bounds(qx, qy, m);
}

} // verus!
