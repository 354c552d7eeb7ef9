use shape_physics::collider::Collider;
use shape_physics::dynamic_object::{DynamicObject, GLOBAL_MAX_VEL};
use shape_physics::geom::Point;
use shape_physics::physics::{step_stays_in_world, update, Body, BOUNCINESS};
use shape_physics::shape::{PolyShape, Shape};
use shape_physics::transform::Transform;

fn unit_square() -> Shape {
    Shape::Poly(PolyShape::new(vec![
        Point::new(-1, -1),
        Point::new(1, -1),
        Point::new(1, 1),
        Point::new(-1, 1),
    ]))
}

fn dynamic_square(x: i64, max_vel: i64, friction: i64, accel: Point) -> Body {
    let mut d = DynamicObject::from_max_vel_and_friction_coeff(max_vel, friction);
    d.set_accel(accel);
    Body {
        transform: Transform::from_translation(Point::new(x, 0)),
        collider: Collider::solid_from_shapes(vec![unit_square()]),
        dynamic: Some(d),
    }
}

fn static_square(x: i64) -> Body {
    Body {
        transform: Transform::from_translation(Point::new(x, 0)),
        collider: Collider::solid_from_shapes(vec![unit_square()]),
        dynamic: None,
    }
}

#[test]
fn velocity_approaches_cap_without_passing_it() {
    let mut world = vec![dynamic_square(0, 10, 0, Point::new(1, 0))];
    for step in 1..=15i64 {
        update(&mut world, 1);
        let v = world[0].dynamic.unwrap().vel();
        assert_eq!(v, Point::new(step.min(10), 0));
    }
    assert_eq!(world[0].transform.translation, Point::new(55 + 5 * 10, 0));
}

#[test]
fn speed_stays_capped_for_any_acceleration() {
    let mut world = vec![dynamic_square(0, 7, 250, Point::new(3000, -4000))];
    for _ in 0..20 {
        update(&mut world, 3);
        let d = world[0].dynamic.unwrap();
        let v = d.vel();
        assert!(v.x * v.x + v.y * v.y <= d.max_vel_squared());
    }
    let d = DynamicObject::new();
    assert_eq!(d.max_vel_squared(), GLOBAL_MAX_VEL * GLOBAL_MAX_VEL);
}

#[test]
fn friction_slows_a_free_object() {
    // Friction of one half per tick: 0 + (10 - 0) = 10, then 10 + (10 - 5) = 15.
    let mut world = vec![dynamic_square(0, 100, 500, Point::new(10, 0))];
    update(&mut world, 1);
    assert_eq!(world[0].dynamic.unwrap().vel(), Point::new(10, 0));
    update(&mut world, 1);
    assert_eq!(world[0].dynamic.unwrap().vel(), Point::new(15, 0));
}

#[test]
fn square_bounces_off_solid_square() {
    let mut world = vec![dynamic_square(0, 10, 0, Point::new(1, 0)), static_square(2)];
    update(&mut world, 1);
    let dyn_hits = world[0].collider.get_recent_collisions();
    let stat_hits = world[1].collider.get_recent_collisions();
    assert_eq!(dyn_hits.len(), 1);
    assert_eq!(stat_hits.len(), 1);
    assert_eq!(dyn_hits[0].other_entity, 1);
    assert_eq!(stat_hits[0].other_entity, 0);
    // On the dynamic collider the push moves the static one on, along +x; the
    // static collider holds the reverse, along -x.
    let p = dyn_hits[0].mpv;
    assert!((p.axis.x as i128) * p.depth > 0 && p.axis.y == 0);
    let q = stat_hits[0].mpv;
    assert!((q.axis.x as i128) * q.depth < 0 && q.axis.y == 0);
    assert_eq!(q.depth, p.depth);
    // Moved to x = 1, pushed back by 1, bounced to -1 * BOUNCINESS.
    assert_eq!(world[0].transform.translation, Point::new(0, 0));
    assert_eq!(world[0].dynamic.unwrap().vel(), Point::new(-BOUNCINESS, 0));
    assert_eq!(world[1].transform.translation, Point::new(2, 0));
}

#[test]
fn nonsolid_static_is_recorded_but_not_bounced() {
    let mut world = vec![
        dynamic_square(0, 10, 0, Point::new(1, 0)),
        Body {
            transform: Transform::from_translation(Point::new(2, 0)),
            collider: Collider::nonsolid_from_shapes(vec![unit_square()]),
            dynamic: None,
        },
    ];
    update(&mut world, 1);
    assert_eq!(world[0].collider.get_recent_collisions().len(), 1);
    assert_eq!(world[1].collider.get_recent_collisions().len(), 1);
    assert_eq!(world[0].transform.translation, Point::new(1, 0));
    assert_eq!(world[0].dynamic.unwrap().vel(), Point::new(1, 0));
}

#[test]
fn dynamic_bodies_do_not_collide_with_each_other() {
    let mut world = vec![
        dynamic_square(0, 10, 0, Point::new(0, 0)),
        dynamic_square(1, 10, 0, Point::new(0, 0)),
    ];
    update(&mut world, 1);
    assert!(world[0].collider.get_recent_collisions().is_empty());
    assert!(world[1].collider.get_recent_collisions().is_empty());
}

#[test]
fn motion_is_not_held_back_near_the_edge() {
    let mut world = vec![dynamic_square(32000, 500, 0, Point::new(500, 0))];
    update(&mut world, 1);
    assert_eq!(world[0].transform.translation, Point::new(32500, 0));
}

#[test]
fn negative_max_velocity_caps_by_its_size() {
    let d = DynamicObject::from_max_vel_and_friction_coeff(-10, 0);
    assert_eq!(d.max_vel_squared(), 100);
    let mut world = vec![dynamic_square(0, -10, 0, Point::new(30, 40))];
    update(&mut world, 1);
    assert_eq!(world[0].dynamic.unwrap().vel(), Point::new(6, 8));
}

#[test]
fn large_friction_is_accepted() {
    // Friction of 3 per tick on a resting object has nothing to slow.
    let mut world = vec![dynamic_square(0, 100, 3000, Point::new(5, 0))];
    update(&mut world, 1);
    assert_eq!(world[0].dynamic.unwrap().vel(), Point::new(5, 0));
}

#[test]
fn world_check_before_a_step() {
    let near_edge = vec![dynamic_square(32500, 500, 0, Point::new(500, 0))];
    assert!(!step_stays_in_world(&near_edge, 1));
    let inside = vec![dynamic_square(32000, 500, 0, Point::new(500, 0))];
    assert!(step_stays_in_world(&inside, 1));
    let bounce = vec![dynamic_square(0, 10, 0, Point::new(1, 0)), static_square(2)];
    assert!(step_stays_in_world(&bounce, 1));
}
