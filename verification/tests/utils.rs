use orca_tree_supports::collision::{collides_with_regions, CollisionRegion};
use orca_tree_supports::ffi::flatten_polygons;
use orca_tree_supports::overhang_detection::{count_regions, OverhangArea};
use orca_tree_supports::utils::{copy_polygon, Point2D, ScopedTimer, TreeSupportError};

#[test]
fn point_new_keeps_coordinates() {
    let p = Point2D::new(3, -4);
    assert_eq!(p.x, 3);
    assert_eq!(p.y, -4);
    assert_eq!(Point2D::default(), Point2D::new(0, 0));
}

#[test]
fn closer_than_is_strict_and_exact() {
    let a = Point2D::new(0, 0);
    let b = Point2D::new(3_000_000, 4_000_000);
    assert!(!a.is_closer_than(&b, 5_000_000));
    assert!(a.is_closer_than(&b, 5_000_001));
    assert!(!a.is_closer_than(&a, 0));
    assert!(!a.is_closer_than(&a, -1));
    let far = Point2D::new(i64::MIN, i64::MAX);
    let other = Point2D::new(i64::MAX, i64::MIN);
    assert!(!far.is_closer_than(&other, i64::MAX));
    assert!(far.is_closer_than(&far, 1));
}

#[test]
fn copies_are_equal() {
    let p = vec![Point2D::new(1, 2), Point2D::new(3, 4)];
    assert_eq!(copy_polygon(&p), p);
}

#[test]
fn scoped_timer_can_be_made() {
    let _timer = ScopedTimer::new("section");
}

#[test]
fn errors_carry_their_message() {
    match TreeSupportError::Internal("x".to_string()) {
        TreeSupportError::Internal(m) => assert_eq!(m, "x"),
        _ => panic!("wrong variant"),
    }
}

#[test]
fn flattening_keeps_order_and_sizes() {
    let polygons = vec![
        vec![Point2D::new(1, 1), Point2D::new(2, 2), Point2D::new(3, 3)],
        vec![],
        vec![Point2D::new(4, 4)],
    ];
    let (points, sizes) = flatten_polygons(&polygons);
    assert_eq!(
        points,
        vec![Point2D::new(1, 1), Point2D::new(2, 2), Point2D::new(3, 3), Point2D::new(4, 4)]
    );
    assert_eq!(sizes, vec![3, 0, 1]);
    assert_eq!(sizes.iter().map(|s| *s as usize).sum::<usize>(), points.len());
}

#[test]
fn collision_needs_a_boundary_point_within_the_radius() {
    let regions = vec![
        CollisionRegion { boundary: vec![Point2D::new(10, 0), Point2D::new(0, 10)] },
        CollisionRegion { boundary: vec![] },
        CollisionRegion { boundary: vec![Point2D::new(100, 100)] },
    ];
    assert!(!collides_with_regions(&regions, &Point2D::new(0, 0), 10));
    assert!(collides_with_regions(&regions, &Point2D::new(0, 0), 11));
    assert!(collides_with_regions(&regions, &Point2D::new(99, 99), 2));
    assert!(!collides_with_regions(&vec![], &Point2D::new(0, 0), 1000));
}

#[test]
fn region_count_adds_layers() {
    let a = |l: usize| OverhangArea { z: 0.5, layer_index: l, boundary: vec![], area: 1.0 };
    let layers = vec![vec![a(0), a(0)], vec![], vec![a(2)]];
    assert_eq!(count_regions(&layers), 3);
}
