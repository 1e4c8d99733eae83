use raytracer::{Camera, Screen, Vec3};

fn camera_at(origin: (i32, i32, i32)) -> Camera {
    Camera {
        origin: Vec3::new(origin.0, origin.1, origin.2),
        forward: Vec3::new(0, 0, 10_000),
        up: Vec3::new(0, 10_000, 0),
        fov: 900_000,
    }
}

#[test]
fn new_screen_stands_before_the_camera() {
    // one unit before the camera, twice as wide as high
    let s = Screen::new(&camera_at((0, 0, 0)), 4, 2, 10_000);
    assert_eq!(s.width, 4);
    assert_eq!(s.height, 2);
    assert_eq!(s.ratio, 20_000);
    assert_eq!(s.center, Vec3::new(0, 0, 10_000));
    assert_eq!(s.p0, Vec3::new(-20_000, 10_000, 10_000));
    assert_eq!(s.p1, Vec3::new(20_000, 10_000, 10_000));
    assert_eq!(s.p2, Vec3::new(-20_000, -10_000, 10_000));
}

#[test]
fn new_screen_moves_with_the_camera_and_the_distance() {
    let s = Screen::new(&camera_at((100, 200, 300)), 1_600, 900, 25_000);
    // 1600 / 900 = 1.7777..
    assert_eq!(s.ratio, 17_777);
    assert_eq!(s.center, Vec3::new(100, 200, 25_300));
    assert_eq!(s.p0, Vec3::new(100 - 17_777, 10_200, 25_300));
    assert_eq!(s.p1, Vec3::new(100 + 17_777, 10_200, 25_300));
    assert_eq!(s.p2, Vec3::new(100 - 17_777, -9_800, 25_300));
}

#[test]
fn new_screen_keeps_the_upward_direction_of_a_tilted_camera() {
    // the camera looks along (0, 0.6, 0.8) and its upward direction is still y
    let tilted = Camera {
        origin: Vec3::new(0, 0, 0),
        forward: Vec3::new(0, 6_000, 8_000),
        up: Vec3::new(0, 10_000, 0),
        fov: 900_000,
    };
    let s = Screen::new(&tilted, 2, 2, 10_000);
    assert_eq!(s.center, Vec3::new(0, 6_000, 8_000));
    // across: up x forward = (0.8, 0, 0)
    assert_eq!(s.p0, Vec3::new(-8_000, 16_000, 8_000));
    assert_eq!(s.p1, Vec3::new(8_000, 16_000, 8_000));
    assert_eq!(s.p2, Vec3::new(-8_000, -4_000, 8_000));
    // with the upward edge at right angles to the view:
    // forward x across = (0, 0.64, -0.48)
    let c = Screen::create_screen(&tilted, 2, 2, 10_000);
    assert_eq!(c.center, s.center);
    assert_eq!(c.ratio, 10_000);
    assert_eq!(c.p0, Vec3::new(-8_000, 12_400, 3_200));
    assert_eq!(c.p1, Vec3::new(8_000, 12_400, 3_200));
    assert_eq!(c.p2, Vec3::new(-8_000, -400, 12_800));
}

#[test]
fn update_screen_moves_the_corners_only() {
    let mut s = Screen::new(&camera_at((0, 0, 0)), 4, 2, 10_000);
    s.update_screen(&camera_at((0, 0, 50_000)), 20_000);
    assert_eq!(s.width, 4);
    assert_eq!(s.height, 2);
    assert_eq!(s.ratio, 20_000);
    assert_eq!(s.center, Vec3::new(0, 0, 10_000));
    assert_eq!(s.p0, Vec3::new(-20_000, 10_000, 70_000));
    assert_eq!(s.p1, Vec3::new(20_000, 10_000, 70_000));
    assert_eq!(s.p2, Vec3::new(-20_000, -10_000, 70_000));
}

#[test]
fn screens_at_the_ends_of_space_do_not_fail() {
    let far = Camera {
        origin: Vec3::new(i32::MAX, i32::MIN, 0),
        forward: Vec3::new(i32::MAX, i32::MIN, i32::MAX),
        up: Vec3::new(i32::MIN, i32::MAX, i32::MIN),
        fov: i64::MAX,
    };
    let mut s = Screen::new(&far, u32::MAX, 1, i64::MAX);
    assert_eq!(s.center, Vec3::new(i32::MAX, i32::MIN, i32::MAX));
    s.update_screen(&far, i64::MIN);
    let c = Screen::create_screen(&far, 0, u32::MAX, 0);
    assert_eq!(c.ratio, 0);
    assert_eq!(c.center, Vec3::new(i32::MAX, i32::MIN, 0));
}
