use raytracer::{Bin, Vec3, AABB};

fn point(x: i32, y: i32, z: i32) -> Vec3 {
    Vec3::new(x, y, z)
}

fn boxed(min: (i32, i32, i32), max: (i32, i32, i32)) -> AABB {
    AABB { bmin: point(min.0, min.1, min.2), bmax: point(max.0, max.1, max.2) }
}

#[test]
fn new_box_holds_nothing() {
    let b = AABB::new();
    assert_eq!(b.bmin, point(i32::MAX, i32::MAX, i32::MAX));
    assert_eq!(b.bmax, point(i32::MIN, i32::MIN, i32::MIN));
}

#[test]
fn growing_an_empty_box_by_a_point_gives_the_point() {
    let mut b = AABB::new();
    b.grow_by_point(&point(3, -4, 5));
    assert_eq!(b, boxed((3, -4, 5), (3, -4, 5)));
    let mut c = AABB::new();
    c.grow_by_point(&point(i32::MIN, i32::MAX, 0));
    assert_eq!(c, boxed((i32::MIN, i32::MAX, 0), (i32::MIN, i32::MAX, 0)));
}

#[test]
fn growing_by_a_point_moves_only_the_faces_beyond_it() {
    let mut b = boxed((0, 0, 0), (10, 10, 10));
    b.grow_by_point(&point(-5, 5, 20));
    assert_eq!(b, boxed((-5, 0, 0), (10, 10, 20)));
}

#[test]
fn growing_by_two_boxes_holds_every_corner_of_both() {
    let a = boxed((1, 2, 3), (4, 5, 6));
    let b = boxed((-7, 0, 5), (2, 9, 5));
    let mut grown = AABB::new();
    grown.grow_by_bounds(&a);
    grown.grow_by_bounds(&b);
    assert_eq!(grown, boxed((-7, 0, 3), (4, 9, 6)));
    assert!(grown.surface_area() >= 0);
}

#[test]
fn growing_by_a_box_takes_both_its_corners() {
    // A box whose corners are the wrong way round still gives both.
    let odd = boxed((5, 5, 5), (1, 1, 1));
    let mut grown = AABB::new();
    grown.grow_by_bounds(&odd);
    assert_eq!(grown, boxed((1, 1, 1), (5, 5, 5)));
}

#[test]
fn surface_area_is_twice_the_sum_of_the_faces() {
    assert_eq!(boxed((0, 0, 0), (1, 2, 3)).surface_area(), 22);
    assert_eq!(boxed((-1, -1, -1), (1, 1, 1)).surface_area(), 24);
    assert_eq!(boxed((4, 4, 4), (4, 4, 4)).surface_area(), 0);
    // A flat box has the area of its two faces.
    assert_eq!(boxed((0, 0, 0), (3, 5, 0)).surface_area(), 30);
}

#[test]
fn surface_area_of_odd_boxes_does_not_fail() {
    // Corners the wrong way round on one axis: a negative extent.
    assert_eq!(boxed((0, 0, 0), (-1, 2, 3)).surface_area(), 2 * (-2 + 6 - 3));
    let widest = boxed((i32::MIN, i32::MIN, i32::MIN), (i32::MAX, i32::MAX, i32::MAX));
    let side: i128 = 0xFFFF_FFFF;
    assert_eq!(widest.surface_area(), 6 * side * side);
    assert_eq!(AABB::new().surface_area(), 6 * side * side);
}

#[test]
fn longest_axis_is_the_axis_of_greatest_extent() {
    assert_eq!(boxed((0, 0, 0), (9, 2, 3)).longest_axis(), 0);
    assert_eq!(boxed((0, 0, 0), (1, 9, 3)).longest_axis(), 1);
    assert_eq!(boxed((0, 0, 0), (1, 2, 9)).longest_axis(), 2);
}

#[test]
fn longest_axis_breaks_ties_towards_x_then_y() {
    assert_eq!(boxed((0, 0, 0), (5, 5, 5)).longest_axis(), 0);
    assert_eq!(boxed((0, 0, 0), (5, 5, 1)).longest_axis(), 0);
    assert_eq!(boxed((0, 0, 0), (5, 1, 5)).longest_axis(), 0);
    assert_eq!(boxed((0, 0, 0), (1, 5, 5)).longest_axis(), 1);
    assert_eq!(boxed((0, 0, 0), (0, 0, 0)).longest_axis(), 0);
}

#[test]
fn reset_empties_a_box() {
    let mut b = boxed((1, 2, 3), (4, 5, 6));
    b.reset();
    assert_eq!(b, AABB::new());
}

#[test]
fn default_box_is_the_origin() {
    assert_eq!(AABB::default(), boxed((0, 0, 0), (0, 0, 0)));
}

#[test]
fn clearing_a_bin_empties_it() {
    let mut bin = Bin { count: 7, bounds: boxed((1, 2, 3), (4, 5, 6)) };
    bin.clear();
    assert_eq!(bin.count, 0);
    assert_eq!(bin.bounds, AABB::new());
    assert_eq!(Bin::default().count, 0);
    assert_eq!(Bin::default().bounds, AABB::default());
}

#[test]
fn vector_components_by_axis() {
    let v = point(7, 8, 9);
    assert_eq!(v.get(0), 7);
    assert_eq!(v.get(1), 8);
    assert_eq!(v.get(2), 9);
    assert_eq!(Vec3::zeros(), point(0, 0, 0));
}
