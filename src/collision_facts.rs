//! Facts about the narrow-phase test on simple pairs of shapes: two circles,
//! and two axis-aligned squares side by side.
use vstd::prelude::*;

use crate::collider::{bbox_of, collider_collision, longest_push, row_fold};
use crate::geom::{
    diff, dot, is_zero, lemma_norm2_nonneg, negated, norm2, point_within, within, Point,
    COORD_LIMIT,
};
use crate::shape::{
    axes, axis_depth, axis_overlap, axis_separates, below_root, candidate_push, candidates,
    edge_at, max_dot, min_dot, projection, push_less, radius_sum, separated, shape_collision,
    shortest_push, Push, ShapeView,
};
use crate::util::{ceil_sqrt, is_ceil_sqrt, lemma_ceil_sqrt_of};

verus! {

/// Along an axis where neither shape is a circle, the overlap is a plain
/// integer: it separates exactly when it is negative, and it is its own depth.
proof fn lemma_flat(o: (int, int), n: int)
    requires
        o.1 == 0,
    ensures
        o.0 + ceil_sqrt(o.1 * o.1 * n) == o.0,
        below_root(o.0, -o.1, n) <==> o.0 < 0,
{
    assert(o.1 * o.1 * n == 0);
    assert(is_ceil_sqrt(0, 0));
    lemma_ceil_sqrt_of(0, 0);
    assert(o.0 * o.0 >= 0) by (nonlinear_arith);
}

/// The projections of two circles on the line through their centres, and on
/// its reverse, overlap as `(-D, R)` or `(D, R)`, standing for `x + y |d|`
/// where `D = |d|^2` and `R` is the sum of the radii; at least one of the two
/// is `(-D, R)`.
proof fn lemma_circle_overlaps(r1: i64, c1: Point, r2: i64, c2: Point)
    requires
        0 <= r1 <= COORD_LIMIT,
        0 <= r2 <= COORD_LIMIT,
        point_within(c1, COORD_LIMIT as int),
        point_within(c2, COORD_LIMIT as int),
        norm2(diff(c2, c1)) > 0,
    ensures
        ({
            let s1 = ShapeView::Circle { radius: r1, center: c1 };
            let s2 = ShapeView::Circle { radius: r2, center: c2 };
            let d = diff(c2, c1);
            let nd = diff(c1, c2);
            let dd = norm2(d);
            let rr = r1 + r2;
            &&& norm2(nd) == dd
            &&& axes(s1, s2) == seq![d]
            &&& axes(s2, s1) == seq![nd]
            &&& axis_overlap(s1, s2, d) == (-dd, rr) || axis_overlap(s1, s2, d) == (dd, rr)
            &&& axis_overlap(s1, s2, nd) == (-dd, rr) || axis_overlap(s1, s2, nd) == (dd, rr)
            &&& axis_overlap(s1, s2, d) == (-dd, rr) || axis_overlap(s1, s2, nd) == (-dd, rr)
        }),
{
    let s1 = ShapeView::Circle { radius: r1, center: c1 };
    let s2 = ShapeView::Circle { radius: r2, center: c2 };
    let d = diff(c2, c1);
    let nd = diff(c1, c2);
    let dd = norm2(d);
    assert(nd == negated(d));
    assert(norm2(nd) == dd) by (nonlinear_arith)
        requires
            nd.x == -d.x,
            nd.y == -d.y,
            norm2(nd) == nd.x * nd.x + nd.y * nd.y,
            dd == d.x * d.x + d.y * d.y,
    ;
    let a = dot(c1, d);
    assert(dot(c2, d) == a + dd) by (nonlinear_arith)
        requires
            c2.x == c1.x + d.x,
            c2.y == c1.y + d.y,
            a == c1.x * d.x + c1.y * d.y,
            dot(c2, d) == c2.x * d.x + c2.y * d.y,
            dd == d.x * d.x + d.y * d.y,
    ;
    assert(dot(c1, nd) == -a) by (nonlinear_arith)
        requires
            nd.x == -d.x,
            nd.y == -d.y,
            a == c1.x * d.x + c1.y * d.y,
            dot(c1, nd) == c1.x * nd.x + c1.y * nd.y,
    ;
    assert(dot(c2, nd) == -a - dd) by (nonlinear_arith)
        requires
            nd.x == -d.x,
            nd.y == -d.y,
            dot(c2, d) == a + dd,
            dot(c2, d) == c2.x * d.x + c2.y * d.y,
            dot(c2, nd) == c2.x * nd.x + c2.y * nd.y,
    ;
    assert(axes(s1, s2) =~= seq![d]);
    assert(axes(s2, s1) =~= seq![nd]);
    assert(projection(s1, d) == (a, a, r1 as int));
    assert(projection(s2, d) == (a + dd, a + dd, r2 as int));
    assert(projection(s1, nd) == (-a, -a, r1 as int));
    assert(projection(s2, nd) == (-a - dd, -a - dd, r2 as int));
    let y = r1 - r2;
    // Both overlaps of the form (dd, rr) would need dd < y * |d| and
    // -dd >= y * |d| at once.
    if below_root(dd, y, dd) {
        assert(y >= 0);
        assert(below_root(-dd, y, dd));
    }
}

/// Two circles whose centres are apart collide exactly when the squared
/// distance between the centres is below the square of the sum of the radii.
/// The push then lies along the line from the first centre to the second, or
/// its reverse, with depth `ceil((r1 + r2) |d|) - |d|^2`: its length is
/// `r1 + r2 - |d|`, rounded up to the next multiple of `1 / |d|`.
pub proof fn lemma_circles_collide(r1: i64, c1: Point, r2: i64, c2: Point)
    requires
        0 <= r1 <= COORD_LIMIT,
        0 <= r2 <= COORD_LIMIT,
        point_within(c1, COORD_LIMIT as int),
        point_within(c2, COORD_LIMIT as int),
        c1 != c2,
    ensures
        ({
            let s1 = ShapeView::Circle { radius: r1, center: c1 };
            let s2 = ShapeView::Circle { radius: r2, center: c2 };
            let dd = norm2(diff(c2, c1));
            let rr = r1 + r2;
            let r = collider_collision(seq![s1], seq![s2]);
            &&& r.is_some() <==> dd < rr * rr
            &&& r.is_some() ==> norm2(r.unwrap().axis) == dd && r.unwrap().depth == ceil_sqrt(
                rr * rr * dd,
            ) - dd
        }),
{
    let s1 = ShapeView::Circle { radius: r1, center: c1 };
    let s2 = ShapeView::Circle { radius: r2, center: c2 };
    let d = diff(c2, c1);
    let nd = diff(c1, c2);
    let dd = norm2(d);
    let rr = r1 + r2;
    assert(!is_zero(d));
    lemma_norm2_nonneg(d);
    lemma_circle_overlaps(r1, c1, r2, c2);
    lemma_norm2_negated(d);
    assert(nd == negated(d));
    assert(!is_zero(nd));
    crate::geom::lemma_dot_within(d, d, 2 * COORD_LIMIT as int, 2 * COORD_LIMIT as int);
    let x = rr * rr * dd;
    assert(0 <= rr * rr <= 0x4_0000_0000 && 0 <= x <= 0x8_0000_0000 * 0x8_0000_0000)
        by (nonlinear_arith)
        requires
            0 <= rr <= 0x2_0000,
            0 <= dd <= 0x8_0000_0000,
            x == rr * rr * dd,
    ;
    let h = ceil_sqrt(x);
    crate::util::lemma_ceil_sqrt_exists(x);
    assert(h <= 0x8_0000_0000) by {
        if h > 0x8_0000_0000 {
            assert((h - 1) * (h - 1) >= 0x8_0000_0000 * 0x8_0000_0000) by (nonlinear_arith)
                requires
                    h - 1 >= 0x8_0000_0000,
            ;
        }
    }
    // The depths along the two axes.
    let low = -dd + h;
    let high = dd + h;
    // Separation along an axis of the form (-dd, rr) is dd > rr^2; one of
    // the form (dd, rr) never separates.
    assert(below_root(-dd, -rr, dd) <==> dd > rr * rr) by (nonlinear_arith)
        requires
            dd > 0,
            rr >= 0,
            below_root(-dd, -rr, dd) == (if -rr >= 0 {
                -dd < 0 || (-dd) * (-dd) < (-rr) * (-rr) * dd
            } else {
                -dd < 0 && (-dd) * (-dd) > (-rr) * (-rr) * dd
            }),
    ;
    assert(!below_root(dd, -rr, dd)) by (nonlinear_arith)
        requires
            dd > 0,
            rr >= 0,
            below_root(dd, -rr, dd) == (if -rr >= 0 {
                dd < 0 || dd * dd < (-rr) * (-rr) * dd
            } else {
                dd < 0 && dd * dd > (-rr) * (-rr) * dd
            }),
    ;
    assert(dd <= rr * rr ==> low >= 0 && (low == 0 <==> dd == rr * rr)) by {
        if dd <= rr * rr {
            assert(h * h >= dd * dd && h >= 0) by (nonlinear_arith)
                requires
                    h * h >= x,
                    x == rr * rr * dd,
                    dd <= rr * rr,
                    dd > 0,
                    h >= 0,
            ;
            assert(h >= dd) by (nonlinear_arith)
                requires
                    h * h >= dd * dd,
                    h >= 0,
                    dd > 0,
            ;
            if dd == rr * rr {
                assert(x == dd * dd) by (nonlinear_arith)
                    requires
                        x == rr * rr * dd,
                        dd == rr * rr,
                ;
                assert(is_ceil_sqrt(dd, dd * dd)) by (nonlinear_arith)
                    requires
                        dd > 0,
                ;
                lemma_ceil_sqrt_of(dd, dd * dd);
            } else {
                assert(x > dd * dd) by (nonlinear_arith)
                    requires
                        x == rr * rr * dd,
                        dd < rr * rr,
                        dd > 0,
                ;
                assert(h != dd);
            }
        }
    }
    let o1 = axis_overlap(s1, s2, d);
    let o2 = axis_overlap(s1, s2, nd);
    let cs = candidates(s1, s2);
    assert(cs =~= seq![(d, false), (nd, true)]);
    assert(cs.drop_last() =~= seq![(d, false)]);
    assert(cs.drop_last().drop_last() =~= Seq::<(Point, bool)>::empty());
    assert(axis_depth(s1, s2, d) == if o1 == (-dd, rr) { low } else { high });
    assert(axis_depth(s1, s2, nd) == if o2 == (-dd, rr) { low } else { high });
    let push_d = candidate_push(s1, s2, (d, false));
    let push_nd = candidate_push(s1, s2, (nd, true));
    assert(shortest_push(s1, s2, cs.drop_last().drop_last()) == None::<Push>);
    assert(shortest_push(s1, s2, cs.drop_last()) == Some(push_d));
    assert(norm2(push_nd.axis) == dd) by {
        lemma_norm2_negated(nd);
    }
    if separated(s1, s2) {
        let k = choose|k: int|
            0 <= k < cs.len() && !is_zero(#[trigger] cs[k].0) && axis_separates(s1, s2, cs[k].0);
        assert(k == 0 || k == 1);
        assert(dd > rr * rr);
    } else {
        if dd > rr * rr {
            if o1 == (-dd, rr) {
                assert(axis_separates(s1, s2, cs[0].0));
            } else {
                assert(axis_separates(s1, s2, cs[1].0));
            }
        }
        assert(dd <= rr * rr);
        assert(push_d.depth == axis_depth(s1, s2, d));
        assert(push_nd.depth == axis_depth(s1, s2, nd));
        assert(push_less(push_nd, push_d) <==> push_nd.depth < push_d.depth) by {
            assert((push_nd.depth * push_nd.depth * dd < push_d.depth * push_d.depth * dd) == (
            push_nd.depth < push_d.depth)) by (nonlinear_arith)
                requires
                    push_nd.depth >= 0,
                    push_d.depth >= 0,
                    dd > 0,
            ;
        }
        assert(low < high);
    }
    let inner = seq![s2];
    assert(inner.drop_last() =~= Seq::<ShapeView>::empty());
    assert(seq![s1].drop_last() =~= Seq::<ShapeView>::empty());
    assert(row_fold(None, s1, inner.drop_last()) == None::<Push>);
    assert(row_fold(None, s1, inner) == shape_collision(s1, s2));
    assert(longest_push(seq![s1].drop_last(), inner) == None::<Push>);
    assert(longest_push(seq![s1], inner) == shape_collision(s1, s2));
}

/// Two circles with the same centre collide whenever their radii do not both
/// vanish: there is no axis between them, and the push goes along x by the
/// sum of the radii.
pub proof fn lemma_concentric_circles_collide(r1: i64, r2: i64, c: Point)
    requires
        0 <= r1 <= COORD_LIMIT,
        0 <= r2 <= COORD_LIMIT,
        r1 + r2 > 0,
        point_within(c, COORD_LIMIT as int),
    ensures
        collider_collision(
            seq![ShapeView::Circle { radius: r1, center: c }],
            seq![ShapeView::Circle { radius: r2, center: c }],
        ) == Some(Push { axis: Point { x: 1, y: 0 }, depth: (r1 + r2) as i128 }),
{
    let s1 = ShapeView::Circle { radius: r1, center: c };
    let s2 = ShapeView::Circle { radius: r2, center: c };
    let z = diff(c, c);
    assert(is_zero(z));
    let cs = candidates(s1, s2);
    assert(cs =~= seq![(z, false), (z, true)]);
    assert(cs.drop_last() =~= seq![(z, false)]);
    assert(cs.drop_last().drop_last() =~= Seq::<(Point, bool)>::empty());
    assert(shortest_push(s1, s2, cs.drop_last().drop_last()) == None::<Push>);
    assert(shortest_push(s1, s2, cs.drop_last()) == None::<Push>);
    assert(shortest_push(s1, s2, cs) == None::<Push>);
    assert(!separated(s1, s2));
    assert(radius_sum(s1, s2) == r1 + r2);
    let inner = seq![s2];
    assert(inner.drop_last() =~= Seq::<ShapeView>::empty());
    assert(seq![s1].drop_last() =~= Seq::<ShapeView>::empty());
    assert(row_fold(None, s1, inner.drop_last()) == None::<Push>);
    assert(row_fold(None, s1, inner) == shape_collision(s1, s2));
    assert(longest_push(seq![s1].drop_last(), inner) == None::<Push>);
    assert(longest_push(seq![s1], inner) == shape_collision(s1, s2));
}

/// For two circles, the bounding-box pre-filter never rejects a pair that
/// the narrow phase reports as colliding.
pub proof fn lemma_circle_boxes_meet(r1: i64, c1: Point, r2: i64, c2: Point)
    requires
        0 <= r1 <= COORD_LIMIT,
        0 <= r2 <= COORD_LIMIT,
        point_within(c1, COORD_LIMIT as int),
        point_within(c2, COORD_LIMIT as int),
    ensures
        ({
            let a = seq![ShapeView::Circle { radius: r1, center: c1 }];
            let b = seq![ShapeView::Circle { radius: r2, center: c2 }];
            collider_collision(a, b).is_some() ==> bbox_of(a).meets(bbox_of(b))
        }),
{
    let a = seq![ShapeView::Circle { radius: r1, center: c1 }];
    let b = seq![ShapeView::Circle { radius: r2, center: c2 }];
    if c1 != c2 && collider_collision(a, b).is_some() {
        lemma_circles_collide(r1, c1, r2, c2);
        let d = diff(c2, c1);
        let rr = r1 + r2;
        assert(-rr <= d.x <= rr && -rr <= d.y <= rr) by (nonlinear_arith)
            requires
                d.x * d.x + d.y * d.y < rr * rr,
                rr >= 0,
        ;
    }
}

/// Where every non-zero candidate axis overlaps by a positive amount, the
/// shortest push, if any, has a positive depth.
proof fn lemma_shortest_positive(s1: ShapeView, s2: ShapeView, cs: Seq<(Point, bool)>)
    requires
        forall|k: int|
            0 <= k < cs.len() && !is_zero(#[trigger] cs[k].0) ==> 0 < axis_depth(s1, s2, cs[k].0)
                <= 0x1_0000_0000_0000,
    ensures
        shortest_push(s1, s2, cs).is_some() ==> shortest_push(s1, s2, cs).unwrap().depth > 0,
    decreases cs.len(),
{
    if cs.len() > 0 {
        let init = cs.drop_last();
        assert forall|k: int|
            0 <= k < init.len() && !is_zero(#[trigger] init[k].0) implies 0 < axis_depth(
            s1,
            s2,
            init[k].0,
        ) <= 0x1_0000_0000_0000 by {
            assert(init[k] == cs[k]);
        }
        lemma_shortest_positive(s1, s2, init);
        assert(cs.last() == cs[cs.len() - 1]);
    }
}

proof fn lemma_norm2_negated(a: Point)
    requires
        !is_zero(a),
        point_within(a, 0x100_0000_0000),
    ensures
        norm2(negated(a)) == norm2(a),
        norm2(a) > 0,
{
    lemma_norm2_nonneg(a);
    assert(norm2(negated(a)) == norm2(a)) by (nonlinear_arith)
        requires
            negated(a).x == -a.x,
            negated(a).y == -a.y,
            norm2(negated(a)) == negated(a).x * negated(a).x + negated(a).y * negated(a).y,
            norm2(a) == a.x * a.x + a.y * a.y,
    ;
}

/// Where a non-zero candidate axis `cs[z]` overlaps by exactly zero and none
/// overlaps by less, the shortest push has depth zero.
proof fn lemma_shortest_zero(s1: ShapeView, s2: ShapeView, cs: Seq<(Point, bool)>, z: int)
    requires
        0 <= z < cs.len(),
        !is_zero(cs[z].0),
        axis_depth(s1, s2, cs[z].0) == 0,
        forall|k: int| 0 <= k < cs.len() ==> point_within(#[trigger] cs[k].0, 0x100_0000_0000),
        forall|k: int|
            0 <= k < cs.len() && !is_zero(#[trigger] cs[k].0) ==> 0 <= axis_depth(s1, s2, cs[k].0)
                <= 0x1_0000_0000_0000,
    ensures
        shortest_push(s1, s2, cs).is_some(),
        shortest_push(s1, s2, cs).unwrap().depth == 0,
    decreases cs.len(),
{
    let n = cs.len() as int;
    let init = cs.drop_last();
    let c = cs.last();
    assert(c == cs[n - 1]);
    let pc = candidate_push(s1, s2, c);
    if z == n - 1 {
        let best = shortest_push(s1, s2, init);
        lemma_norm2_negated(c.0);
        assert(norm2(pc.axis) > 0);
        assert(pc.depth == 0);
        if let Some(q) = best {
            if q.depth != 0 {
                assert(push_less(pc, q)) by (nonlinear_arith)
                    requires
                        pc.depth == 0,
                        q.depth != 0,
                        norm2(pc.axis) > 0,
                {
                    assert(q.depth * q.depth > 0);
                }
            }
        }
    } else {
        assert forall|k: int| 0 <= k < init.len() implies point_within(
            #[trigger] init[k].0,
            0x100_0000_0000,
        ) by {
            assert(init[k] == cs[k]);
        }
        assert forall|k: int|
            0 <= k < init.len() && !is_zero(#[trigger] init[k].0) implies 0 <= axis_depth(
            s1,
            s2,
            init[k].0,
        ) <= 0x1_0000_0000_0000 by {
            assert(init[k] == cs[k]);
        }
        assert(init[z] == cs[z]);
        lemma_shortest_zero(s1, s2, init, z);
        let q = shortest_push(s1, s2, init).unwrap();
        if !is_zero(c.0) {
            lemma_norm2_nonneg(q.axis);
            assert(!push_less(pc, q)) by (nonlinear_arith)
                requires
                    q.depth == 0,
                    push_less(pc, q) == (pc.depth * pc.depth * norm2(q.axis) < q.depth
                        * q.depth * norm2(pc.axis)),
                    norm2(q.axis) >= 0,
            ;
        }
    }
}

proof fn lemma_dots_4(q0: Point, q1: Point, q2: Point, q3: Point, a: Point)
    ensures
        ({
            let s = seq![q0, q1, q2, q3];
            let (d0, d1, d2, d3) = (dot(q0, a), dot(q1, a), dot(q2, a), dot(q3, a));
            let mn01 = if d1 < d0 { d1 } else { d0 };
            let mn012 = if d2 < mn01 { d2 } else { mn01 };
            let mx01 = if d1 > d0 { d1 } else { d0 };
            let mx012 = if d2 > mx01 { d2 } else { mx01 };
            &&& min_dot(s, a) == if d3 < mn012 { d3 } else { mn012 }
            &&& max_dot(s, a) == if d3 > mx012 { d3 } else { mx012 }
        }),
{
    let s1 = seq![q0];
    let s2 = seq![q0, q1];
    let s3 = seq![q0, q1, q2];
    let s4 = seq![q0, q1, q2, q3];
    assert(s2.drop_last() =~= s1);
    assert(s3.drop_last() =~= s2);
    assert(s4.drop_last() =~= s3);
    assert(s2.last() == q1 && s3.last() == q2 && s4.last() == q3);
    let (d0, d1, d2, d3) = (dot(q0, a), dot(q1, a), dot(q2, a), dot(q3, a));
    assert(min_dot(s1, a) == d0 && max_dot(s1, a) == d0);
    assert(min_dot(s2, a) == if d1 < d0 { d1 } else { d0 });
    assert(max_dot(s2, a) == if d1 > d0 { d1 } else { d0 });
    assert(min_dot(s3, a) == if d2 < min_dot(s2, a) { d2 } else { min_dot(s2, a) });
    assert(max_dot(s3, a) == if d2 > max_dot(s2, a) { d2 } else { max_dot(s2, a) });
    assert(min_dot(s4, a) == if d3 < min_dot(s3, a) { d3 } else { min_dot(s3, a) });
    assert(max_dot(s4, a) == if d3 > max_dot(s3, a) { d3 } else { max_dot(s3, a) });
}

/// A shortest push, where there is one, is the push of one of the non-zero
/// candidate axes.
proof fn lemma_shortest_member(s1: ShapeView, s2: ShapeView, cs: Seq<(Point, bool)>)
    ensures
        shortest_push(s1, s2, cs).is_some() ==> exists|k: int|
            0 <= k < cs.len() && !is_zero(cs[k].0) && shortest_push(s1, s2, cs).unwrap()
                == candidate_push(s1, s2, #[trigger] cs[k]),
    decreases cs.len(),
{
    if cs.len() > 0 {
        let init = cs.drop_last();
        lemma_shortest_member(s1, s2, init);
        let last = cs.len() - 1;
        assert(cs.last() == cs[last]);
        if shortest_push(s1, s2, cs).is_some() && shortest_push(s1, s2, cs) != Some(
            candidate_push(s1, s2, cs[last]),
        ) {
            let k = choose|k: int|
                0 <= k < init.len() && !is_zero(init[k].0) && shortest_push(s1, s2, init).unwrap()
                    == candidate_push(s1, s2, #[trigger] init[k]);
            assert(init[k] == cs[k]);
        }
    }
}

/// Where the push of candidate `z` is strictly shorter than every earlier
/// one and no later one is shorter, it is the shortest push.
proof fn lemma_shortest_is(s1: ShapeView, s2: ShapeView, cs: Seq<(Point, bool)>, z: int, n: int)
    requires
        0 <= z < n <= cs.len(),
        !is_zero(cs[z].0),
        forall|k: int|
            0 <= k < z && !is_zero(#[trigger] cs[k].0) ==> push_less(
                candidate_push(s1, s2, cs[z]),
                candidate_push(s1, s2, cs[k]),
            ),
        forall|k: int|
            z < k < cs.len() && !is_zero(#[trigger] cs[k].0) ==> !push_less(
                candidate_push(s1, s2, cs[k]),
                candidate_push(s1, s2, cs[z]),
            ),
    ensures
        shortest_push(s1, s2, cs.subrange(0, n)) == Some(candidate_push(s1, s2, cs[z])),
    decreases n,
{
    let pre = cs.subrange(0, n);
    assert(pre.drop_last() =~= cs.subrange(0, n - 1));
    assert(pre.last() == cs[n - 1]);
    if n - 1 > z {
        lemma_shortest_is(s1, s2, cs, z, n - 1);
    } else {
        let init = cs.subrange(0, z);
        lemma_shortest_member(s1, s2, init);
        if shortest_push(s1, s2, init).is_some() {
            let k = choose|k: int|
                0 <= k < init.len() && !is_zero(init[k].0) && shortest_push(s1, s2, init).unwrap()
                    == candidate_push(s1, s2, #[trigger] init[k]);
            assert(init[k] == cs[k]);
        }
    }
}

/// The square of side `w` with its bottom left corner at `(x, 0)`,
/// counter-clockwise.
pub open spec fn square_at(x: i64, w: i64) -> Seq<Point> {
    seq![
        Point { x: x, y: 0 },
        Point { x: (x + w) as i64, y: 0 },
        Point { x: (x + w) as i64, y: w },
        Point { x: x, y: w },
    ]
}

/// The candidate axes of two squares of side `w`, the second offset by `dx`,
/// and how far their projections overlap along each.
proof fn lemma_square_overlaps(w: i64, dx: i64)
    requires
        0 < w <= 0x4000,
        0 <= dx <= 0x4000,
    ensures
        ({
            let s1 = ShapeView::Poly { points: square_at(0, w) };
            let s2 = ShapeView::Poly { points: square_at(dx, w) };
            let nb = Point { x: 0, y: (-w) as i64 };
            let nr = Point { x: w, y: 0 };
            let nt = Point { x: 0, y: w };
            let nl = Point { x: (-w) as i64, y: 0 };
            &&& axes(s1, s2) == seq![nb, nr, nt, nl]
            &&& axes(s2, s1) == seq![nb, nr, nt, nl]
            &&& axis_overlap(s1, s2, nb) == (w * w, 0int)
            &&& axis_overlap(s1, s2, nt) == (w * w, 0int)
            &&& axis_overlap(s1, s2, nr) == if dx > 0 {
                (w * w - dx * w, 0int)
            } else {
                (w * w, 0int)
            }
            &&& axis_overlap(s1, s2, nl) == (w * w - dx * w, 0int)
        }),
{
    let pts_a = square_at(0, w);
    let pts_b = square_at(dx, w);
    let s1 = ShapeView::Poly { points: pts_a };
    let s2 = ShapeView::Poly { points: pts_b };
    let nb = Point { x: 0, y: (-w) as i64 };
    let nr = Point { x: w, y: 0 };
    let nt = Point { x: 0, y: w };
    let nl = Point { x: (-w) as i64, y: 0 };
    assert(pts_a.len() == 4 && pts_b.len() == 4);
    assert((0int + 1) % 4 == 1 && (1int + 1) % 4 == 2 && (2int + 1) % 4 == 3 && (3int + 1) % 4 == 0);
    assert(axes(s1, s2) =~= seq![nb, nr, nt, nl]) by {
        assert(edge_at(pts_a, 0) == Point { x: w, y: 0 });
        assert(edge_at(pts_a, 1) == Point { x: 0, y: w });
        assert(edge_at(pts_a, 2) == Point { x: (-w) as i64, y: 0 });
        assert(edge_at(pts_a, 3) == Point { x: 0, y: (-w) as i64 });
    }
    assert(axes(s2, s1) =~= seq![nb, nr, nt, nl]) by {
        assert(edge_at(pts_b, 0) == Point { x: w, y: 0 });
        assert(edge_at(pts_b, 1) == Point { x: 0, y: w });
        assert(edge_at(pts_b, 2) == Point { x: (-w) as i64, y: 0 });
        assert(edge_at(pts_b, 3) == Point { x: 0, y: (-w) as i64 });
    }
    let ww = w * w;
    let dw = dx * w;
    assert(ww > 0 && 0 <= dw) by (nonlinear_arith)
        requires
            0 < w,
            0 <= dx,
            ww == w * w,
            dw == dx * w,
    ;
    assert((dx + w) * w == dw + ww && w * (-w) == -ww && (dx + w) * (-w) == -dw - ww && dx * (-w)
        == -dw) by (nonlinear_arith)
        requires
            dw == dx * w,
            ww == w * w,
    ;
    assert(pts_a =~= seq![pts_a[0], pts_a[1], pts_a[2], pts_a[3]]);
    assert(pts_b =~= seq![pts_b[0], pts_b[1], pts_b[2], pts_b[3]]);
    lemma_dots_4(pts_a[0], pts_a[1], pts_a[2], pts_a[3], nb);
    lemma_dots_4(pts_b[0], pts_b[1], pts_b[2], pts_b[3], nb);
    assert(projection(s1, nb) == (-ww, 0int, 0int));
    assert(projection(s2, nb) == (-ww, 0int, 0int));
    lemma_dots_4(pts_a[0], pts_a[1], pts_a[2], pts_a[3], nt);
    lemma_dots_4(pts_b[0], pts_b[1], pts_b[2], pts_b[3], nt);
    assert(projection(s1, nt) == (0int, ww, 0int));
    assert(projection(s2, nt) == (0int, ww, 0int));
    lemma_dots_4(pts_a[0], pts_a[1], pts_a[2], pts_a[3], nr);
    lemma_dots_4(pts_b[0], pts_b[1], pts_b[2], pts_b[3], nr);
    assert(projection(s1, nr) == (0int, ww, 0int));
    assert(projection(s2, nr) == (dw, dw + ww, 0int));
    lemma_dots_4(pts_a[0], pts_a[1], pts_a[2], pts_a[3], nl);
    lemma_dots_4(pts_b[0], pts_b[1], pts_b[2], pts_b[3], nl);
    assert(projection(s1, nl) == (-ww, 0int, 0int));
    assert(projection(s2, nl) == (-dw - ww, -dw, 0int));
}

/// Two axis-aligned squares of side `w`, the second offset by `dx >= 0`
/// along x, collide exactly when `dx < w`: at `dx == w`, where their sides
/// touch, the push has length zero and counts as no collision.
pub proof fn lemma_squares_collide(w: i64, dx: i64)
    requires
        0 < w <= 0x4000,
        0 <= dx <= 0x4000,
    ensures
        collider_collision(
            seq![ShapeView::Poly { points: square_at(0, w) }],
            seq![ShapeView::Poly { points: square_at(dx, w) }],
        ).is_some() <==> dx < w,
        0 < dx < w ==> collider_collision(
            seq![ShapeView::Poly { points: square_at(0, w) }],
            seq![ShapeView::Poly { points: square_at(dx, w) }],
        ) == Some(Push { axis: Point { x: w, y: 0 }, depth: (w * w - dx * w) as i128 }),
{
    let s1 = ShapeView::Poly { points: square_at(0, w) };
    let s2 = ShapeView::Poly { points: square_at(dx, w) };
    let nb = Point { x: 0, y: (-w) as i64 };
    let nr = Point { x: w, y: 0 };
    let nt = Point { x: 0, y: w };
    let nl = Point { x: (-w) as i64, y: 0 };
    lemma_square_overlaps(w, dx);
    lemma_flat(axis_overlap(s1, s2, nb), norm2(nb));
    lemma_flat(axis_overlap(s1, s2, nt), norm2(nt));
    lemma_flat(axis_overlap(s1, s2, nr), norm2(nr));
    lemma_flat(axis_overlap(s1, s2, nl), norm2(nl));
    let ww = w * w;
    let dw = dx * w;
    assert((dx < w) == (ww - dw > 0) && (dx == w) == (ww - dw == 0) && ww > 0 && 0 <= dw
        && ww <= 0x1000_0000) by (nonlinear_arith)
        requires
            0 < w <= 0x4000,
            0 <= dx,
            ww == w * w,
            dw == dx * w,
    ;
    let cs = candidates(s1, s2);
    assert(cs =~= seq![
        (nb, false),
        (nr, false),
        (nt, false),
        (nl, false),
        (nb, true),
        (nr, true),
        (nt, true),
        (nl, true),
    ]);
    assert(!is_zero(nb) && !is_zero(nr) && !is_zero(nt) && !is_zero(nl));
    if dx > w {
        assert(!is_zero(cs[3].0) && axis_separates(s1, s2, cs[3].0));
        assert(separated(s1, s2));
    } else {
        assert(!separated(s1, s2));
        if dx < w {
            lemma_shortest_positive(s1, s2, cs);
            if dx > 0 {
                assert(dw > 0) by (nonlinear_arith)
                    requires
                        dx > 0,
                        w > 0,
                        dw == dx * w,
                ;
                assert(norm2(nb) == ww && norm2(nr) == ww && norm2(nt) == ww && norm2(nl) == ww)
                    by (nonlinear_arith)
                    requires
                        nb.x == 0 && nb.y == -w,
                        nr.x == w && nr.y == 0,
                        nt.x == 0 && nt.y == w,
                        nl.x == -w && nl.y == 0,
                        ww == w * w,
                        norm2(nb) == nb.x * nb.x + nb.y * nb.y,
                        norm2(nr) == nr.x * nr.x + nr.y * nr.y,
                        norm2(nt) == nt.x * nt.x + nt.y * nt.y,
                        norm2(nl) == nl.x * nl.x + nl.y * nl.y,
                ;
                assert forall|k: int| 0 <= k < cs.len() implies norm2(
                    #[trigger] candidate_push(s1, s2, cs[k]).axis,
                ) == ww && candidate_push(s1, s2, cs[k]).depth == if k % 2 == 1 {
                    ww - dw
                } else {
                    ww
                } by {
                    if cs[k].1 {
                        lemma_norm2_negated(cs[k].0);
                    }
                }
                let pz = candidate_push(s1, s2, cs[1]);
                assert forall|k: int| 0 <= k < 1 && !is_zero(#[trigger] cs[k].0) implies push_less(
                    pz,
                    candidate_push(s1, s2, cs[k]),
                ) by {
                    assert((ww - dw) * (ww - dw) * ww < ww * ww * ww) by (nonlinear_arith)
                        requires
                            0 < ww - dw < ww,
                    ;
                }
                assert forall|k: int| 1 < k < cs.len() && !is_zero(#[trigger] cs[k].0) implies !push_less(
                    candidate_push(s1, s2, cs[k]),
                    pz,
                ) by {
                    let dk = candidate_push(s1, s2, cs[k]).depth as int;
                    assert(dk == ww - dw || dk == ww);
                    assert(!(dk * dk * ww < (ww - dw) * (ww - dw) * ww)) by (nonlinear_arith)
                        requires
                            dk == ww - dw || dk == ww,
                            0 < ww - dw < ww,
                    ;
                }
                lemma_shortest_is(s1, s2, cs, 1, 8);
                assert(cs.subrange(0, 8) =~= cs);
                assert(pz.axis == nr);
            }
        } else {
            lemma_shortest_zero(s1, s2, cs, 3);
        }
    }
    let inner = seq![s2];
    assert(inner.drop_last() =~= Seq::<ShapeView>::empty());
    assert(seq![s1].drop_last() =~= Seq::<ShapeView>::empty());
    assert(row_fold(None, s1, inner.drop_last()) == None::<Push>);
    assert(row_fold(None, s1, inner) == shape_collision(s1, s2));
    assert(longest_push(seq![s1].drop_last(), inner) == None::<Push>);
    assert(longest_push(seq![s1], inner) == shape_collision(s1, s2));
}

} // verus!
