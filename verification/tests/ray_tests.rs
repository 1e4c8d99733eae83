use raytracer::{Camera, Ray, Screen, Vec3, AABB};

fn ray(origin: (i32, i32, i32), direction: (i32, i32, i32)) -> Ray {
    Ray {
        origin: Vec3::new(origin.0, origin.1, origin.2),
        direction: Vec3::new(direction.0, direction.1, direction.2),
    }
}

fn boxed(min: (i32, i32, i32), max: (i32, i32, i32)) -> AABB {
    AABB { bmin: Vec3::new(min.0, min.1, min.2), bmax: Vec3::new(max.0, max.1, max.2) }
}

#[test]
fn new_ray_is_all_zero() {
    let r = Ray::init();
    assert_eq!(r.origin, Vec3::new(0, 0, 0));
    assert_eq!(r.direction, Vec3::new(0, 0, 0));
    assert_eq!(Ray::initial(), r);
}

#[test]
fn update_shadow_sets_both_parts() {
    let mut r = Ray::init();
    r.update_shadow(Vec3::new(1, 2, 3), Vec3::new(0, 10_000, 0));
    assert_eq!(r, ray((1, 2, 3), (0, 10_000, 0)));
}

#[test]
fn point_along_a_ray() {
    let r = ray((10, 20, 30), (0, 0, 10_000));
    assert_eq!(r.get_intersection_point(32_680), Vec3::new(10, 20, 32_710));
    let slanted = ray((0, 0, 0), (6_000, -8_000, 0));
    assert_eq!(slanted.get_intersection_point(50_000), Vec3::new(30_000, -40_000, 0));
    // 0.5 units along -x rounds down
    assert_eq!(ray((0, 0, 0), (-5_000, 5_000, 0)).get_intersection_point(1), Vec3::new(-1, 0, 0));
}

#[test]
fn point_along_a_ray_stops_at_the_ends_of_space() {
    let r = ray((i32::MAX, i32::MIN, 0), (10_000, -10_000, 10_000));
    assert_eq!(r.get_intersection_point(i64::MAX), Vec3::new(i32::MAX, i32::MIN, i32::MAX));
}

#[test]
fn ray_towards_a_box_meets_it() {
    let b = boxed((-10, -10, 100), (10, 10, 120));
    assert!(ray((0, 0, 0), (0, 0, 10_000)).intersect_bounds(&b));
    assert!(ray((0, 0, 0), (0, 0, 1)).intersect_bounds(&b));
    assert!(ray((0, 0, 0), (1, 1, 10)).intersect_bounds(&b));
    assert!(ray((0, 0, 200), (0, 0, -3)).intersect_bounds(&b));
}

#[test]
fn ray_away_from_a_box_misses_it() {
    let b = boxed((-10, -10, 100), (10, 10, 120));
    assert!(!ray((0, 0, 0), (0, 0, -10_000)).intersect_bounds(&b));
    assert!(!ray((0, 0, 0), (10_000, 0, 0)).intersect_bounds(&b));
    assert!(!ray((0, 0, 0), (2, 0, 10)).intersect_bounds(&b));
    assert!(!ray((11, 0, 0), (0, 0, 10_000)).intersect_bounds(&b));
}

#[test]
fn ray_that_grazes_a_box_meets_it() {
    let b = boxed((-10, -10, 100), (10, 10, 120));
    assert!(ray((10, 10, 0), (0, 0, 10_000)).intersect_bounds(&b));
    // through the edge at (10, y, 100)
    assert!(ray((0, 0, 0), (1, 0, 10)).intersect_bounds(&b));
    // through the far edge at (10, 10, 120) only
    assert!(ray((30, 10, 100), (-1, 0, 1)).intersect_bounds(&b));
    assert!(!ray((31, 10, 100), (-1, 0, 1)).intersect_bounds(&b));
}

#[test]
fn ray_from_inside_a_box_meets_it() {
    let b = boxed((-10, -10, 100), (10, 10, 120));
    assert!(ray((0, 0, 110), (0, 0, 10_000)).intersect_bounds(&b));
    assert!(ray((0, 0, 110), (-3, 7, -2)).intersect_bounds(&b));
}

#[test]
fn ray_without_direction_meets_a_box_only_from_inside() {
    let b = boxed((-10, -10, 100), (10, 10, 120));
    assert!(ray((0, 0, 110), (0, 0, 0)).intersect_bounds(&b));
    assert!(ray((10, -10, 120), (0, 0, 0)).intersect_bounds(&b));
    assert!(!ray((0, 0, 0), (0, 0, 0)).intersect_bounds(&b));
}

#[test]
fn no_ray_meets_an_empty_box() {
    let empty = AABB::new();
    assert!(!ray((0, 0, 0), (0, 0, 10_000)).intersect_bounds(&empty));
    assert!(!ray((0, 0, 0), (0, 0, 0)).intersect_bounds(&empty));
    let flipped = boxed((10, 10, 10), (-10, -10, -10));
    assert!(!ray((0, 0, 0), (1, 1, 1)).intersect_bounds(&flipped));
}

#[test]
fn rays_at_the_far_ends_of_space_do_not_fail() {
    let widest = boxed((i32::MIN, i32::MIN, i32::MIN), (i32::MAX, i32::MAX, i32::MAX));
    assert!(ray((i32::MIN, i32::MAX, 0), (i32::MAX, i32::MIN, i32::MIN)).intersect_bounds(&widest));
    let corner = boxed((i32::MAX, i32::MAX, i32::MAX), (i32::MAX, i32::MAX, i32::MAX));
    assert!(ray((i32::MIN, i32::MIN, i32::MIN), (1, 1, 1)).intersect_bounds(&corner));
    assert!(!ray((i32::MIN, i32::MIN, i32::MIN), (1, 1, 2)).intersect_bounds(&corner));
    assert!(!ray((i32::MIN, i32::MIN, i32::MIN), (i32::MIN, 1, 1)).intersect_bounds(&corner));
}

/// A screen of 4 by 2 pixels, one unit before a camera at the origin, that
/// reaches one unit each way.
fn small_screen() -> (Camera, Screen) {
    let camera = Camera {
        origin: Vec3::new(0, 0, 0),
        forward: Vec3::new(0, 0, 10_000),
        up: Vec3::new(0, 10_000, 0),
        fov: 900_000,
    };
    let screen = Screen {
        width: 4,
        height: 2,
        center: Vec3::new(0, 0, 10_000),
        ratio: 20_000,
        p0: Vec3::new(-10_000, 10_000, 10_000),
        p1: Vec3::new(10_000, 10_000, 10_000),
        p2: Vec3::new(-10_000, -10_000, 10_000),
    };
    (camera, screen)
}

#[test]
fn ray_through_the_middle_of_the_screen_looks_straight_ahead() {
    let (camera, screen) = small_screen();
    let mut r = ray((7, 7, 7), (1, 2, 3));
    r.update_prim(2, 1, &camera, &screen);
    assert_eq!(r, ray((0, 0, 0), (0, 0, 10_000)));
}

#[test]
fn ray_through_a_pixel_points_at_its_place_on_the_screen() {
    let (camera, screen) = small_screen();
    let mut r = Ray::init();
    // the first pixel lies at the corner (-1, 1, 1)
    r.update_prim(0, 0, &camera, &screen);
    assert_eq!(r, ray((0, 0, 0), (-5_774, 5_773, 5_773)));
    // the next one a quarter of the row on, at (-0.5, 1, 1): length 1.5
    r.update_prim(1, 0, &camera, &screen);
    assert_eq!(r, ray((0, 0, 0), (-3_334, 6_666, 6_666)));
    let mut other = Ray::init();
    other.update(1, 0, &camera, &screen);
    assert_eq!(other, r);
}

#[test]
fn ray_from_a_camera_that_is_not_at_the_origin() {
    let (mut camera, screen) = small_screen();
    camera.origin = Vec3::new(0, 0, -10_000);
    let mut r = Ray::init();
    r.update_prim(2, 0, &camera, &screen);
    // towards (0, 1, 1) from (0, 0, -1): (0, 1, 2) at a length of 2.2360
    assert_eq!(r, ray((0, 0, -10_000), (0, 4_472, 8_944)));
}

#[test]
fn pixels_beyond_the_screen_do_not_fail() {
    let (camera, screen) = small_screen();
    let mut r = Ray::init();
    r.update_prim(usize::MAX, usize::MAX, &camera, &screen);
    assert_eq!(r.origin, Vec3::new(0, 0, 0));
    assert!(r.direction.x > 0 && r.direction.y < 0);
}
