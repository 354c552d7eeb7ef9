use shape_physics::bounding_box::BoundingBox;
use shape_physics::collider::Collider;
use shape_physics::geom::Point;
use shape_physics::shape::{CircleShape, PolyShape, Push, Shape};
use shape_physics::transform::Transform;

fn two_shapes() -> Vec<Shape> {
    vec![
        Shape::Poly(PolyShape::new(vec![
            Point::new(0, 0),
            Point::new(4, 0),
            Point::new(4, 2),
            Point::new(0, 2),
        ])),
        Shape::Circle(CircleShape::new(3, Point::new(-5, 1))),
    ]
}

#[test]
fn update_twice_gives_same_box_and_no_collisions() {
    let mut c = Collider::solid_from_shapes(two_shapes());
    assert!(c.is_solid());
    let t = Transform::from_translation(Point::new(100, -50));
    c.update(&t);
    let first = c.bounding_box();
    assert!(c.get_recent_collisions().is_empty());
    c.update(&t);
    assert_eq!(c.bounding_box(), first);
    assert!(c.get_recent_collisions().is_empty());
    assert_eq!(
        first,
        BoundingBox::from_min_max(Point::new(92, -52), Point::new(104, -46))
    );
}

#[test]
fn update_clears_recorded_collisions() {
    let mut c = Collider::nonsolid_from_shapes(two_shapes());
    assert!(!c.is_solid());
    assert_eq!(c.bounding_box(), BoundingBox::default());
    let p = Push { axis: Point::new(1, 0), depth: 3 };
    c.add_recent_collision(7, p);
    c.add_recent_collision(7, p);
    assert_eq!(c.get_recent_collisions().len(), 2);
    assert_eq!(c.get_recent_collisions()[0].other_entity, 7);
    assert_eq!(c.get_recent_collisions()[1].mpv, p);
    c.update(&Transform::identity());
    assert!(c.get_recent_collisions().is_empty());
}

#[test]
fn deepest_pair_of_shapes_wins() {
    // A wide box and a small circle, both overlapping a tall box.
    let a = Collider::nonsolid_from_shapes(vec![
        Shape::Poly(PolyShape::new(vec![
            Point::new(0, 0),
            Point::new(10, 0),
            Point::new(10, 10),
            Point::new(0, 10),
        ])),
        Shape::Circle(CircleShape::new(1, Point::new(0, 30))),
    ]);
    let b = Collider::nonsolid_from_shapes(vec![Shape::Poly(PolyShape::new(vec![
        Point::new(8, -100),
        Point::new(20, -100),
        Point::new(20, 100),
        Point::new(8, 100),
    ]))]);
    let p = a.process_collision(&b).unwrap();
    // The boxes overlap by 2 along x, deeper than nothing from the circle.
    assert_eq!(p.axis, Point::new(10, 0));
    assert_eq!(p.depth, 20);
}
