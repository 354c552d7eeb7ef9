use shape_physics::geom::Point;
use shape_physics::util::{
    isqrt_ceil, pairs, segments_intersect, segments_intersection, update_max_point,
    update_min_point,
};

#[test]
fn pairs_test() {
    let v: Vec<u32> = Vec::new();
    assert_eq!(pairs(&v), Vec::<(u32, u32)>::new());
    let v = vec![0u32];
    assert_eq!(pairs(&v), vec![(0, 0)]);
    let v = vec![0u32, 1];
    assert_eq!(pairs(&v), vec![(0, 1), (1, 0)]);
    let v = vec![0u32, 1, 2, 3, 4, 5];
    assert_eq!(
        pairs(&v),
        vec![(0, 1), (1, 2), (2, 3), (3, 4), (4, 5), (5, 0)]
    );
}

// Coordinates in hundredths.
#[test]
#[allow(clippy::bool_assert_comparison)]
fn segments_intersect_test() {
    assert_eq!(segments_intersect((0, 0), (0, 0)), true);
    assert_eq!(segments_intersect((0, 100), (50, 150)), true);
    assert_eq!(segments_intersect((10, 40), (0, 9)), false);
    assert_eq!(segments_intersect((-200, -100), (-160, -160)), true);
    assert_eq!(segments_intersect((250, 350), (250, 260)), true);
}

#[test]
fn segments_intersection_lengths() {
    assert_eq!(segments_intersection((0, 10), (4, 20)), Some(6));
    assert_eq!(segments_intersection((4, 20), (0, 10)), Some(6));
    assert_eq!(segments_intersection((0, 10), (10, 20)), Some(0));
    assert_eq!(segments_intersection((0, 10), (11, 20)), None);
    // One segment holding the other gives the reach of the later one.
    assert_eq!(segments_intersection((0, 10), (2, 3)), Some(8));
}

#[test]
fn min_and_max_points() {
    let mut lo = Point::new(5, 5);
    update_min_point(&mut lo, Point::new(3, 7));
    assert_eq!(lo, Point::new(3, 5));
    let mut hi = Point::new(5, 5);
    update_max_point(&mut hi, Point::new(3, 7));
    assert_eq!(hi, Point::new(5, 7));
}

#[test]
fn ceiling_square_roots() {
    assert_eq!(isqrt_ceil(0), 0);
    assert_eq!(isqrt_ceil(1), 1);
    assert_eq!(isqrt_ceil(2), 2);
    assert_eq!(isqrt_ceil(16), 4);
    assert_eq!(isqrt_ceil(17), 5);
    assert_eq!(isqrt_ceil(1 << 100), 1 << 50);
}
