use shape_physics::collider::Collider;
use shape_physics::geom::Point;
use shape_physics::shape::{is_convex_polygon, CircleShape, PolyShape, Shape, ShiftedShape};
use shape_physics::transform::Transform;

fn square(side: i64) -> Vec<Point> {
    vec![
        Point::new(0, 0),
        Point::new(side, 0),
        Point::new(side, side),
        Point::new(0, side),
    ]
}

fn circle(radius: i64, x: i64, y: i64) -> Shape {
    Shape::Circle(CircleShape::new(radius, Point::new(x, y)))
}

#[test]
fn counter_clockwise_square_is_convex() {
    assert!(is_convex_polygon(&square(10)));
    let p = PolyShape::new(square(10));
    assert_eq!(p.points(), &square(10));
}

#[test]
fn clockwise_square_is_reversed() {
    let mut cw = square(10);
    cw.reverse();
    assert!(!is_convex_polygon(&cw));
    let p = PolyShape::new(cw.clone());
    let mut expected = cw;
    expected.reverse();
    assert_eq!(p.points(), &expected);
    assert!(is_convex_polygon(p.points()));
}

#[test]
fn concave_polygon_is_refused() {
    let arrow = vec![
        Point::new(0, 0),
        Point::new(10, 5),
        Point::new(0, 10),
        Point::new(3, 5),
    ];
    assert!(!is_convex_polygon(&arrow));
    assert!(PolyShape::try_new(arrow).is_none());
    assert!(PolyShape::try_new(vec![Point::new(1, 1)]).is_none());
    assert!(PolyShape::try_new(square(3)).is_some());
}

#[test]
fn circles_at_whole_distance_collide_below_radius_sum() {
    // Radii 3 and 4, centres 5 apart: the push has length 3 + 4 - 5 = 2.
    let a = ShiftedShape::from_original_shape(circle(3, 0, 0));
    let b = ShiftedShape::from_original_shape(circle(4, 3, 4));
    let p = a.process_collision(&b).unwrap();
    assert_eq!(p.depth, 10);
    assert_eq!(p.axis.length_squared(), 25);
    assert_eq!(p.axis, Point::new(3, 4));

    let c1 = Collider::nonsolid_from_shapes(vec![circle(3, 0, 0)]);
    let touching = Collider::nonsolid_from_shapes(vec![circle(4, 7, 0)]);
    let apart = Collider::nonsolid_from_shapes(vec![circle(4, 8, 0)]);
    let near = Collider::nonsolid_from_shapes(vec![circle(4, 6, 0)]);
    assert!(c1.process_collision(&touching).is_none());
    assert!(c1.process_collision(&apart).is_none());
    let p = c1.process_collision(&near).unwrap();
    // Length (3 + 4 - 6) = 1: depth 6 along an axis of length 6.
    assert_eq!(p.depth, 6);
    assert_eq!(p.axis.length_squared(), 36);
}

fn squares_offset(dx: i64) -> Option<shape_physics::shape::Push> {
    let mut a = Collider::nonsolid_from_shapes(vec![Shape::Poly(PolyShape::new(square(1000)))]);
    let mut b = Collider::nonsolid_from_shapes(vec![Shape::Poly(PolyShape::new(square(1000)))]);
    a.update(&Transform::identity());
    b.update(&Transform::from_translation(Point::new(dx, 0)));
    a.process_collision(&b)
}

#[test]
fn unit_squares_collide_below_one_side() {
    // Squares of side 1000 stand for unit squares.
    for dx in [0i64, 1, 250, 500, 999] {
        assert!(squares_offset(dx).is_some(), "dx = {}", dx);
    }
    for dx in [1000i64, 1001, 1500, 1999] {
        assert!(squares_offset(dx).is_none(), "dx = {}", dx);
    }
    let p = squares_offset(400).unwrap();
    // Overlap 600 along a normal of length 1000.
    assert_eq!(p.depth, 600_000);
    assert_eq!(p.axis.length_squared(), 1_000_000);
}

#[test]
fn identity_update_keeps_shape() {
    let poly = Shape::Poly(PolyShape::new(vec![
        Point::new(-3, -1),
        Point::new(4, -2),
        Point::new(5, 6),
        Point::new(-1, 4),
    ]));
    let before = poly.extents();
    let mut s = ShiftedShape::from_original_shape(poly);
    let after = s.update(&Transform::identity());
    assert_eq!(after, before);
    assert_eq!(after, (Point::new(-3, -2), Point::new(5, 6)));

    let c = circle(2, 1, 1);
    let before = c.extents();
    let mut s = ShiftedShape::from_original_shape(c);
    assert_eq!(s.update(&Transform::identity()), before);
}

#[test]
fn circle_is_scaled_and_moved() {
    let mut s = ShiftedShape::from_original_shape(circle(2, 1, 1));
    let t = Transform {
        translation: Point::new(10, 0),
        quarter_turns: 0,
        scale: Point::new(3, 3),
    };
    assert_eq!(s.update(&t), (Point::new(7, -3), Point::new(19, 9)));
}

#[test]
fn circle_against_polygon() {
    let sq = ShiftedShape::from_original_shape(Shape::Poly(PolyShape::new(square(10))));
    let inside = ShiftedShape::from_original_shape(circle(2, 11, 5));
    let outside = ShiftedShape::from_original_shape(circle(2, 13, 5));
    assert!(sq.process_collision(&inside).is_some());
    assert!(sq.process_collision(&outside).is_none());
    assert!(outside.process_collision(&sq).is_none());
}

#[test]
fn circles_apart_on_a_slanted_axis_do_not_collide() {
    // Centres sqrt(17) apart, radii 2 and 2: apart by about 0.12.
    let a = Collider::nonsolid_from_shapes(vec![circle(2, 0, 0)]);
    let b = Collider::nonsolid_from_shapes(vec![circle(2, 4, 1)]);
    assert!(a.process_collision(&b).is_none());
    let s = ShiftedShape::from_original_shape(circle(2, 0, 0));
    let t = ShiftedShape::from_original_shape(circle(2, 4, 1));
    assert!(s.process_collision(&t).is_none());
    // Radii 2 and 3 reach over sqrt(17): depth ceil(5 sqrt(17)) - 17 = 21 - 17.
    let c = Collider::nonsolid_from_shapes(vec![circle(3, 4, 1)]);
    let p = a.process_collision(&c).unwrap();
    assert_eq!(p.axis, Point::new(4, 1));
    assert_eq!(p.depth, 4);
}

#[test]
fn concentric_circles_collide() {
    let a = Collider::nonsolid_from_shapes(vec![circle(1, 5, 5)]);
    let b = Collider::nonsolid_from_shapes(vec![circle(1, 5, 5)]);
    let p = a.process_collision(&b).unwrap();
    assert_eq!(p.axis, Point::new(1, 0));
    assert_eq!(p.depth, 2);
}

#[test]
fn polygon_going_round_twice_is_not_convex() {
    let twice = vec![
        Point::new(0, 0),
        Point::new(1, 0),
        Point::new(0, 1),
        Point::new(0, 0),
        Point::new(1, 0),
        Point::new(0, 1),
    ];
    assert!(!is_convex_polygon(&twice));
    assert!(PolyShape::try_new(twice).is_none());
    // Three points on a line turn by a half turn twice: once round.
    assert!(is_convex_polygon(&vec![Point::new(0, 0), Point::new(1, 0), Point::new(2, 0)]));
}

#[test]
fn circle_under_negative_uniform_scale() {
    let mut s = ShiftedShape::from_original_shape(circle(2, 1, 1));
    let t = Transform {
        translation: Point::new(10, 0),
        quarter_turns: 0,
        scale: Point::new(-3, -3),
    };
    // Radius 6, centre (10 - 3, -3).
    assert_eq!(s.update(&t), (Point::new(1, -9), Point::new(13, 3)));
}
