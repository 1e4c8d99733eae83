use raytracer::{Primitive, Ray, Triangle, Vec3, AABB};

fn ray(origin: (i32, i32, i32), direction: (i32, i32, i32)) -> Ray {
    Ray {
        origin: Vec3::new(origin.0, origin.1, origin.2),
        direction: Vec3::new(direction.0, direction.1, direction.2),
    }
}

/// A triangle in the plane z = 10.0 with its corners at (0,0), (3,0), (0,3).
fn flat() -> Triangle {
    Triangle::create_triangle(
        Vec3::new(0, 0, 100_000),
        Vec3::new(30_000, 0, 100_000),
        Vec3::new(0, 30_000, 100_000),
        false,
        2,
    )
}

#[test]
fn create_triangle_keeps_what_it_is_given() {
    let t = flat();
    assert_eq!(t.v0, Vec3::new(0, 0, 100_000));
    assert_eq!(t.v1, Vec3::new(30_000, 0, 100_000));
    assert_eq!(t.v2, Vec3::new(0, 30_000, 100_000));
    assert!(!t.flip_normal);
    assert_eq!(t.material_index, 2);
}

#[test]
fn ray_through_the_centroid_along_the_normal_hits() {
    let t = flat();
    assert_eq!(t.get_centroid(), Vec3::new(10_000, 10_000, 100_000));
    let r = ray((10_000, 10_000, 0), (0, 0, 10_000));
    assert_eq!(t.intersect(&r), Some(100_000));
}

#[test]
fn ray_from_the_other_side_hits_too() {
    let t = flat();
    let r = ray((10_000, 10_000, 250_000), (0, 0, -10_000));
    assert_eq!(t.intersect(&r), Some(150_000));
}

#[test]
fn ray_along_the_plane_misses() {
    let t = flat();
    let r = ray((-10_000, 10_000, 100_000), (10_000, 0, 0));
    assert_eq!(t.intersect(&r), None);
    let beside = ray((-10_000, 10_000, 0), (10_000, 0, 0));
    assert_eq!(t.intersect(&beside), None);
}

#[test]
fn ray_beside_the_triangle_misses() {
    let t = flat();
    // beyond the long edge: u + v above 1
    assert_eq!(t.intersect(&ray((20_000, 20_000, 0), (0, 0, 10_000))), None);
    // u below 0
    assert_eq!(t.intersect(&ray((-1, 10_000, 0), (0, 0, 10_000))), None);
    // v below 0
    assert_eq!(t.intersect(&ray((10_000, -1, 0), (0, 0, 10_000))), None);
    // u above 1
    assert_eq!(t.intersect(&ray((30_001, 0, 0), (0, 0, 10_000))), None);
}

#[test]
fn ray_at_the_corners_and_edges_hits() {
    let t = flat();
    assert_eq!(t.intersect(&ray((0, 0, 0), (0, 0, 10_000))), Some(100_000));
    assert_eq!(t.intersect(&ray((30_000, 0, 0), (0, 0, 10_000))), Some(100_000));
    assert_eq!(t.intersect(&ray((15_000, 15_000, 0), (0, 0, 10_000))), Some(100_000));
}

#[test]
fn triangle_behind_the_ray_misses() {
    let t = flat();
    let r = ray((10_000, 10_000, 200_000), (0, 0, 10_000));
    assert_eq!(t.intersect(&r), None);
}

#[test]
fn triangle_nearer_than_epsilon_misses() {
    let t = flat();
    // on the plane: the distance is 0
    assert_eq!(t.intersect(&ray((10_000, 10_000, 100_000), (0, 0, 10_000))), None);
    // one unit before the plane: the distance is epsilon, which counts
    assert_eq!(t.intersect(&ray((10_000, 10_000, 99_999), (0, 0, 10_000))), Some(1));
}

#[test]
fn slanted_ray_hits_at_its_own_length() {
    let t = flat();
    // direction (0.6, 0, 0.8) from (-6.5, 1, 0): meets z = 10 after 12.5 at x = 1
    let r = ray((-65_000, 10_000, 0), (6_000, 0, 8_000));
    assert_eq!(t.intersect(&r), Some(125_000));
}

#[test]
fn triangle_box_is_the_box_of_its_corners() {
    let t = Triangle::create_triangle(
        Vec3::new(0, -20_000, 100_000),
        Vec3::new(20_000, 0, 100_000),
        Vec3::new(0, 20_000, 100_000),
        true,
        2,
    );
    assert_eq!(
        t.get_bounds(),
        AABB { bmin: Vec3::new(0, -20_000, 100_000), bmax: Vec3::new(20_000, 20_000, 100_000) }
    );
}

#[test]
fn triangle_centroid_is_the_mean_of_its_corners_rounded_down() {
    let t = Triangle::create_triangle(
        Vec3::new(0, 0, 0),
        Vec3::new(1, 0, -1),
        Vec3::new(1, 0, -1),
        false,
        0,
    );
    // (0 + 1 + 1) / 3 = 0.66.., (0 - 1 - 1) / 3 = -0.66..
    assert_eq!(t.get_centroid(), Vec3::new(0, 0, -1));
    let far = Triangle::create_triangle(
        Vec3::new(i32::MAX, i32::MIN, 0),
        Vec3::new(i32::MAX, i32::MIN, 0),
        Vec3::new(i32::MAX, i32::MIN, 0),
        false,
        0,
    );
    assert_eq!(far.get_centroid(), Vec3::new(i32::MAX, i32::MIN, 0));
}

#[test]
fn triangle_normal_stands_on_its_plane() {
    let t = flat();
    assert_eq!(t.get_normal(&Vec3::new(0, 0, 0)), Vec3::new(0, 0, 10_000));
    let flipped = Triangle::create_triangle(t.v0, t.v1, t.v2, true, 0);
    assert_eq!(flipped.get_normal(&Vec3::new(5, 5, 5)), Vec3::new(0, 0, -10_000));
}

#[test]
fn triangles_at_the_far_ends_of_space_do_not_fail() {
    let t = Triangle::create_triangle(
        Vec3::new(i32::MIN, i32::MIN, i32::MIN),
        Vec3::new(i32::MAX, i32::MIN, i32::MAX),
        Vec3::new(i32::MIN, i32::MAX, i32::MAX),
        false,
        0,
    );
    let r = ray((i32::MAX, i32::MAX, i32::MIN), (i32::MIN, i32::MIN, i32::MAX));
    let hit = t.intersect(&r);
    assert!(hit.is_none() || hit.unwrap() >= 1);
    let n = t.get_normal(&Vec3::zeros());
    assert!(n.x.abs() <= 10_000 && n.y.abs() <= 10_000 && n.z.abs() <= 10_000);
}

#[test]
fn ray_nearly_along_the_plane_misses() {
    // the determinant is 0.6 * 9 = 5.4 for a ray at 0.6 to the plane, which
    // it meets after 10 / 0.6 = 16.6666.. at x = 1 ...
    let t = flat();
    assert_eq!(t.intersect(&ray((-123_333, 10_000, 0), (8_000, 0, 6_000))), Some(166_666));
    // ... and for a triangle a thousandth of a unit wide it is below epsilon
    let tiny = Triangle::create_triangle(
        Vec3::new(0, 0, 100_000),
        Vec3::new(10, 0, 100_000),
        Vec3::new(0, 10, 100_000),
        false,
        0,
    );
    assert_eq!(tiny.intersect(&ray((2, 2, 0), (0, 0, 10_000))), None);
}
