use shape_physics::bounding_box::BoundingBox;
use shape_physics::geom::{point3_collinear, Point, Point3, Vec3Ext};
use shape_physics::physics::reflect;
use shape_physics::transform::Transform;

#[test]
fn rotate_clockwise_90_test() {
    assert_eq!(Point::new(1, 1).rotate_clockwise_90(), Point::new(1, -1));
    assert_eq!(Point::new(-2, 1).rotate_clockwise_90(), Point::new(1, 2));
}

// The second normal is given in thousandths.
#[test]
fn reflect_test() {
    assert_eq!(reflect(Point::new(3, 3), Point::new(0, -1)), Point::new(3, -3));
    assert_eq!(reflect(Point::new(-100, 0), Point::new(2, 2)), Point::new(0, 100));
}

#[test]
fn dirs() {
    // The transform is looking to the left.
    let transform = Transform {
        translation: Point::new(0, 0),
        quarter_turns: 1,
        scale: Point::new(1, 1),
    };
    assert_eq!(transform.forward(), Point::new(-1, 0));
    assert_eq!(transform.left(), Point::new(0, -1));
    assert_eq!(transform.backward(), Point::new(1, 0));
    assert_eq!(transform.right(), Point::new(0, 1));
}

#[test]
fn transform_moves_points() {
    let t = Transform {
        translation: Point::new(10, 20),
        quarter_turns: 1,
        scale: Point::new(2, 3),
    };
    // Scaled to (2, 3), turned to (-3, 2), moved to (7, 22).
    assert_eq!(t.apply_to(Point::new(1, 1)), Point::new(7, 22));
    assert_eq!(Transform::identity().apply_to(Point::new(-4, 9)), Point::new(-4, 9));
    let mut m = Transform::from_translation(Point::new(1, 1));
    m.translate(Point::new(2, -3));
    assert_eq!(m.translation, Point::new(3, -2));
    m.translate_to(Point::new(0, 5));
    assert_eq!(m.translation, Point::new(0, 5));
    let s = m.scaled(Point::new(4, 5));
    assert_eq!(s.scale, Point::new(4, 5));
}

#[test]
fn collinear_vectors() {
    assert!(Point::new(2, 4).collinear(&Point::new(1, 2)));
    assert!(!Point::new(2, 4).collinear(&Point::new(-1, -2)));
    assert!(!Point::new(2, 4).collinear(&Point::new(2, 5)));
    assert!(!Point::new(0, 0).collinear(&Point::new(0, 0)));
    let a = Point3 { x: 1, y: 2, z: 3 };
    let b = Point3 { x: 2, y: 4, z: 6 };
    assert!(a.collinear(b));
    assert!(point3_collinear(&a, &b));
    assert!(!a.collinear(Point3 { x: 2, y: 4, z: 7 }));
}

#[test]
fn vector_arithmetic() {
    let a = Point::new(3, 4);
    let b = Point::new(1, -2);
    assert_eq!(a.dot(&b), -5);
    assert_eq!(a.cross(&b), -10);
    assert_eq!(a.length_squared(), 25);
    assert_eq!(a.sub(&b), Point::new(2, 6));
    assert_eq!(a.neg(), Point::new(-3, -4));
    assert!(Point::zero().is_zero());
}

#[test]
fn bounding_boxes_collide() {
    let a = BoundingBox::from_min_max(Point::new(0, 0), Point::new(10, 10));
    let b = BoundingBox::from_min_max(Point::new(10, 5), Point::new(20, 6));
    let c = BoundingBox::from_min_max(Point::new(11, 0), Point::new(20, 10));
    let d = BoundingBox::from_min_max(Point::new(0, 11), Point::new(10, 20));
    assert!(a.collides(&b));
    assert!(b.collides(&a));
    assert!(!a.collides(&c));
    assert!(!a.collides(&d));
    assert_eq!(BoundingBox::default(), BoundingBox::from_min_max(Point::new(0, 0), Point::new(0, 0)));
}

#[test]
fn reflect_large_velocity() {
    assert_eq!(
        reflect(Point::new(1_000_000_000, 5), Point::new(1, 0)),
        Point::new(-1_000_000_000, 5)
    );
}
