use raytracer::fixed::{div_floor, fx_times, sqrt_floor, to_i32, to_i64};
use raytracer::vector::{clamp_vector, normalize};
use raytracer::Vec3;

#[test]
fn square_roots_round_down() {
    assert_eq!(sqrt_floor(0), 0);
    assert_eq!(sqrt_floor(1), 1);
    assert_eq!(sqrt_floor(3), 1);
    assert_eq!(sqrt_floor(4), 2);
    assert_eq!(sqrt_floor(99), 9);
    assert_eq!(sqrt_floor(100), 10);
    assert_eq!(sqrt_floor(300_000_000), 17320);
    assert_eq!(sqrt_floor(u128::MAX), u64::MAX);
    assert_eq!(sqrt_floor((1u128 << 64) - 1), (1u64 << 32) - 1);
}

#[test]
fn division_rounds_down_on_both_sides_of_zero() {
    assert_eq!(div_floor(7, 2), 3);
    assert_eq!(div_floor(-7, 2), -4);
    assert_eq!(div_floor(-8, 2), -4);
    assert_eq!(div_floor(-1, 10_000), -1);
    assert_eq!(div_floor(0, 3), 0);
    assert_eq!(div_floor(9_999, 10_000), 0);
}

#[test]
fn fixed_point_product_divides_by_the_scale() {
    // 1.5 * 2.0 = 3.0
    assert_eq!(fx_times(15_000, 20_000), 30_000);
    // 0.0001 * 0.0001 rounds down to 0; with a minus sign to -0.0001
    assert_eq!(fx_times(1, 1), 0);
    assert_eq!(fx_times(-1, 1), -1);
    assert_eq!(fx_times(i64::MAX, i64::MAX), i64::MAX);
    assert_eq!(fx_times(i64::MAX, i64::MIN), i64::MIN);
}

#[test]
fn numbers_are_cut_off_at_the_ends_of_the_range() {
    assert_eq!(to_i32(5), 5);
    assert_eq!(to_i32(i32::MAX as i128 + 1), i32::MAX);
    assert_eq!(to_i32(i32::MIN as i128 - 1), i32::MIN);
    assert_eq!(to_i64(-5), -5);
    assert_eq!(to_i64(i128::MAX), i64::MAX);
    assert_eq!(to_i64(i128::MIN), i64::MIN);
    assert_eq!(clamp_vector((1, i128::MAX, i128::MIN)), Vec3::new(1, i32::MAX, i32::MIN));
}

#[test]
fn unit_vectors_have_the_length_of_the_scale() {
    assert_eq!(normalize((0, 0, 5)), Vec3::new(0, 0, 10_000));
    assert_eq!(normalize((0, -7, 0)), Vec3::new(0, -10_000, 0));
    assert_eq!(normalize((3, 4, 0)), Vec3::new(6_000, 8_000, 0));
    assert_eq!(normalize((0, 0, 0)), Vec3::new(0, 0, 0));
    // 1 / sqrt(3) = 0.57735.., over a length rounded down to 1
    assert_eq!(normalize((1, 1, 1)), Vec3::new(10_000, 10_000, 10_000));
    assert_eq!(normalize((1_000, 1_000, 1_000)), Vec3::new(5_773, 5_773, 5_773));
    assert_eq!(normalize((-1_000, 1_000, 1_000)), Vec3::new(-5_774, 5_773, 5_773));
}

#[test]
fn unit_vectors_of_huge_vectors_do_not_fail() {
    assert_eq!(normalize((i128::MAX, 0, 0)), Vec3::new(10_000, 0, 0));
    assert_eq!(normalize((i128::MIN, 0, 0)), Vec3::new(-10_000, 0, 0));
}
