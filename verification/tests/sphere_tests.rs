use raytracer::vector::normalize;
use raytracer::{Color, Material, Primitive, Ray, Sphere, Vec3, AABB};

fn sphere(x: i32, y: i32, z: i32, radius2: i64) -> Sphere {
    Sphere { origin: Vec3::new(x, y, z), radius2, material_index: 0 }
}

fn ray(origin: (i32, i32, i32), direction: (i32, i32, i32)) -> Ray {
    Ray {
        origin: Vec3::new(origin.0, origin.1, origin.2),
        direction: Vec3::new(direction.0, direction.1, direction.2),
    }
}

#[test]
fn sphere_ahead_is_hit_at_distance_less_radius() {
    // centre 5.0 ahead, radius 2.0
    let s = sphere(0, 0, 50_000, 400_000_000);
    let r = ray((0, 0, 0), (0, 0, 10_000));
    assert_eq!(s.intersect(&r), Some(30_000));
}

#[test]
fn sphere_ahead_along_a_slanted_unit_direction() {
    // direction (0.6, 0.8, 0), centre 10.0 along it, radius 1.0
    let s = sphere(60_000, 80_000, 0, 100_000_000);
    let r = ray((0, 0, 0), (6_000, 8_000, 0));
    assert_eq!(s.intersect(&r), Some(90_000));
}

#[test]
fn sphere_of_radius_root_three() {
    // radius2 = 3.0: 5 - 1.7320508.. = 3.2679491.., rounded down
    let s = sphere(0, 0, 50_000, 300_000_000);
    let r = ray((0, 0, 0), (0, 0, 10_000));
    assert_eq!(s.intersect(&r), Some(32_679));
}

#[test]
fn sphere_behind_is_missed() {
    let s = sphere(0, 0, -50_000, 400_000_000);
    let r = ray((0, 0, 0), (0, 0, 10_000));
    assert_eq!(s.intersect(&r), None);
}

#[test]
fn sphere_off_the_ray_is_missed() {
    let s = sphere(30_000, 0, 50_000, 400_000_000);
    let r = ray((0, 0, 0), (0, 0, 10_000));
    assert_eq!(s.intersect(&r), None);
}

#[test]
fn sphere_touched_at_its_rim_is_hit_once() {
    let s = sphere(20_000, 0, 50_000, 400_000_000);
    let r = ray((0, 0, 0), (0, 0, 10_000));
    assert_eq!(s.intersect(&r), Some(50_000));
}

#[test]
fn ray_from_inside_a_sphere_meets_the_far_side() {
    // centre 1.0 ahead, radius 2.0: the near crossing lies behind
    let s = sphere(0, 0, 10_000, 400_000_000);
    let r = ray((0, 0, 0), (0, 0, 10_000));
    assert_eq!(s.intersect(&r), Some(30_000));
}

#[test]
fn ray_from_the_centre_meets_the_sphere_at_its_radius() {
    let s = sphere(0, 0, 0, 400_000_000);
    let r = ray((0, 0, 0), (10_000, 0, 0));
    assert_eq!(s.intersect(&r), Some(20_000));
}

#[test]
fn sphere_at_the_far_ends_of_space_does_not_fail() {
    let s = sphere(i32::MAX, i32::MAX, i32::MAX, i64::MAX);
    // from the opposite corner of space, along the diagonal: the centre lies
    // 743 916.7 off and the radius is 303 700.0, which leaves 440 216.7, or
    // 440 248.4 lengths of the direction (0.5773, 0.5773, 0.5773)
    let r = ray((i32::MIN, i32::MIN, i32::MIN), (5_773, 5_773, 5_773));
    assert_eq!(s.intersect(&r), Some(4_402_484_390));
    let back = ray((i32::MIN, i32::MIN, i32::MIN), (-5_773, -5_773, -5_773));
    assert_eq!(s.intersect(&back), None);
    // the longest direction that counts, and the first that does not
    let long = ray((0, 0, 0), (0x2000_0000, 0, 0));
    assert_eq!(sphere(50_000, 0, 0, 100_000_000).intersect(&long), Some(0));
    let too_long = ray((0, 0, 0), (0x2000_0001, 0, 0));
    assert_eq!(sphere(50_000, 0, 0, 100_000_000).intersect(&too_long), None);
}

#[test]
fn sphere_box_reaches_one_radius_each_way() {
    let s = sphere(10, 20, 30, 400_000_000);
    assert_eq!(
        s.get_bounds(),
        AABB { bmin: Vec3::new(-19_990, -19_980, -19_970), bmax: Vec3::new(20_010, 20_020, 20_030) }
    );
}

#[test]
fn sphere_box_rounds_the_radius_up() {
    // the root of 3.0 is 1.73205.., so the box reaches 17321
    let s = sphere(0, 0, 0, 300_000_000);
    assert_eq!(
        s.get_bounds(),
        AABB { bmin: Vec3::new(-17_321, -17_321, -17_321), bmax: Vec3::new(17_321, 17_321, 17_321) }
    );
    let point_like = sphere(1, 2, 3, 0);
    assert_eq!(
        point_like.get_bounds(),
        AABB { bmin: Vec3::new(1, 2, 3), bmax: Vec3::new(1, 2, 3) }
    );
    let negative = sphere(1, 2, 3, -5);
    assert_eq!(negative.get_bounds(), AABB { bmin: Vec3::new(1, 2, 3), bmax: Vec3::new(1, 2, 3) });
}

#[test]
fn sphere_box_stops_at_the_ends_of_space() {
    let s = sphere(i32::MAX, i32::MIN, 0, 400_000_000);
    let b = s.get_bounds();
    assert_eq!(b.bmax.x, i32::MAX);
    assert_eq!(b.bmin.x, i32::MAX - 20_000);
    assert_eq!(b.bmin.y, i32::MIN);
    assert_eq!(b.bmax.y, i32::MIN + 20_000);
}

#[test]
fn sphere_centroid_is_its_centre() {
    assert_eq!(sphere(1, 2, 3, 4).get_centroid(), Vec3::new(1, 2, 3));
}

#[test]
fn sphere_normal_points_away_from_the_centre() {
    let s = sphere(0, 0, 50_000, 400_000_000);
    assert_eq!(s.get_normal(&Vec3::new(0, 0, 30_000)), Vec3::new(0, 0, -10_000));
    assert_eq!(s.get_normal(&Vec3::new(20_000, 0, 50_000)), Vec3::new(10_000, 0, 0));
    assert_eq!(s.get_normal(&Vec3::new(0, 0, 50_000)), Vec3::new(0, 0, 0));
}

#[test]
fn sphere_material_is_looked_up_by_index() {
    let plain = Material {
        diffuse_color: Color::red(),
        refraction_index: None,
        specular_cof: 0,
        refraction_cof: 0,
    };
    let glass = Material {
        diffuse_color: Color::blue(),
        refraction_index: Some(15_000),
        specular_cof: 1_000,
        refraction_cof: 8_000,
    };
    let materials = vec![plain, glass];
    let s = Sphere { origin: Vec3::zeros(), radius2: 1, material_index: 1 };
    let found = s.get_material(&materials);
    assert_eq!(found.diffuse_color, Color::blue());
    assert_eq!(found.refraction_index, Some(15_000));
    assert_eq!(found.specular_cof, 1_000);
    assert_eq!(found.refraction_cof, 8_000);
}

#[test]
fn a_ray_without_direction_meets_no_sphere() {
    let s = sphere(0, 0, 0, 400_000_000);
    assert_eq!(s.intersect(&ray((0, 0, 0), (0, 0, 0))), None);
    assert_eq!(s.intersect(&ray((20_000, 0, 0), (0, 0, 0))), None);
}

#[test]
fn the_length_of_the_direction_sets_the_scale_of_the_distance() {
    // the same ray with its direction at half and at twice the unit length
    let s = sphere(0, 0, 50_000, 400_000_000);
    assert_eq!(s.intersect(&ray((0, 0, 0), (0, 0, 5_000))), Some(60_000));
    assert_eq!(s.intersect(&ray((0, 0, 0), (0, 0, 20_000))), Some(15_000));
    assert_eq!(s.intersect(&ray((0, 0, 0), (0, 0, 1))), Some(300_000_000));
}

#[test]
fn a_rounded_direction_through_a_far_centre_hits() {
    // a unit sphere 282.84 off along the diagonal; the direction is the
    // rounded-down unit vector (0.7071, 0.7071, 0), of length 0.99999
    let s = sphere(2_000_000, 2_000_000, 0, 100_000_000);
    let d = normalize((2_000_000, 2_000_000, 0));
    assert_eq!(d, Vec3::new(7_071, 7_071, 0));
    let r = Ray { origin: Vec3::new(0, 0, 0), direction: d };
    // 281.8427 units off, counted in lengths of the direction
    assert_eq!(s.intersect(&r), Some(2_818_454));
    assert!(r.intersect_bounds(&s.get_bounds()));
}

#[test]
fn a_rounded_direction_that_passes_a_far_sphere_misses() {
    // the ray passes 2.0 from the centre of a sphere of radius 1
    let s = sphere(1_428_356, -1_400_072, 0, 100_000_000);
    let d = normalize((10_000, -10_000, 0));
    assert_eq!(d, Vec3::new(7_071, -7_072, 0));
    let r = Ray { origin: Vec3::new(0, 0, 0), direction: d };
    assert_eq!(s.intersect(&r), None);
    assert!(!r.intersect_bounds(&s.get_bounds()));
}

/// The parameter at which a ray meets a sphere, in floating point.
fn float_hit(centre: (f64, f64, f64), radius: f64, d: Vec3) -> Option<f64> {
    let (dx, dy, dz) = (d.x as f64, d.y as f64, d.z as f64);
    let dd = dx * dx + dy * dy + dz * dz;
    let a = centre.0 * dx + centre.1 * dy + centre.2 * dz;
    let ll = centre.0 * centre.0 + centre.1 * centre.1 + centre.2 * centre.2;
    let disc = a * a - dd * (ll - radius * radius);
    if a < 0.0 || disc < 0.0 {
        return None;
    }
    let near = (a - disc.sqrt()) * 10_000.0 / dd;
    if near >= 0.0 {
        Some(near)
    } else {
        Some((a + disc.sqrt()) * 10_000.0 / dd)
    }
}

#[test]
fn spheres_far_along_rounded_directions_agree_with_geometry() {
    let aims: [(i128, i128, i128); 6] = [
        (10_000, 10_000, 0),
        (10_000, -10_000, 0),
        (10_000, 20_000, 30_000),
        (-30_000, 10_000, 20_000),
        (1, 1, 1),
        (12_345, -6_789, 1_011),
    ];
    let mut hits = 0;
    let mut misses = 0;
    for aim in aims.iter() {
        let d = normalize(*aim);
        let len = ((d.x as f64).powi(2) + (d.y as f64).powi(2) + (d.z as f64).powi(2)).sqrt();
        let unit = (d.x as f64 / len, d.y as f64 / len, d.z as f64 / len);
        // a direction across the ray
        let side = if unit.0.abs() < 0.9 { (1.0, 0.0, 0.0) } else { (0.0, 1.0, 0.0) };
        let dot = side.0 * unit.0 + side.1 * unit.1 + side.2 * unit.2;
        let raw = (side.0 - dot * unit.0, side.1 - dot * unit.1, side.2 - dot * unit.2);
        let raw_len = (raw.0 * raw.0 + raw.1 * raw.1 + raw.2 * raw.2).sqrt();
        let across = (raw.0 / raw_len, raw.1 / raw_len, raw.2 / raw_len);
        for far in [50_000.0f64, 1_000_000.0, 2_500_000.0, 20_000_000.0] {
            for radius in [10_000.0f64, 30_000.0, 250_000.0] {
                for part in [0.0f64, 0.3, 0.9, 1.2, 2.0] {
                    let off = part * radius;
                    let c = (
                        (far * unit.0 + off * across.0).round(),
                        (far * unit.1 + off * across.1).round(),
                        (far * unit.2 + off * across.2).round(),
                    );
                    let s = sphere(c.0 as i32, c.1 as i32, c.2 as i32, (radius * radius) as i64);
                    let r = Ray { origin: Vec3::new(0, 0, 0), direction: d };
                    let found = s.intersect(&r);
                    let wanted = float_hit(c, radius, d);
                    if part > 1.0 {
                        assert_eq!(found, None, "sphere at {:?}, radius {}", c, radius);
                        assert_eq!(wanted, None);
                        misses += 1;
                    } else {
                        let t = found.expect("the ray goes through the sphere") as f64;
                        let w = wanted.unwrap();
                        assert!((t - w).abs() <= 1.0, "found {} for {}", t, w);
                        assert!(r.intersect_bounds(&s.get_bounds()));
                        hits += 1;
                    }
                }
            }
        }
    }
    assert_eq!(hits, 6 * 4 * 3 * 3);
    assert_eq!(misses, 6 * 4 * 3 * 2);
}
