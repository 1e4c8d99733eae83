use raytracer::{
    Color, Material, PointLight, Primitive, Ray, Scene, Sphere, TraceError, Vec3, BVH,
    RECURSION_LIMIT,
};

fn sphere(x: i32, y: i32, z: i32, radius2: i64, material_index: usize) -> Box<dyn Primitive> {
    Box::new(Sphere { origin: Vec3::new(x, y, z), radius2, material_index })
}

fn ray(origin: (i32, i32, i32), direction: (i32, i32, i32)) -> Ray {
    Ray {
        origin: Vec3::new(origin.0, origin.1, origin.2),
        direction: Vec3::new(direction.0, direction.1, direction.2),
    }
}

fn material(diffuse_color: Color, index: Option<i64>, specular: i64, refraction: i64) -> Material {
    Material {
        diffuse_color,
        refraction_index: index,
        specular_cof: specular,
        refraction_cof: refraction,
    }
}

fn scene(primitives: Vec<Box<dyn Primitive>>, materials: Vec<Material>) -> Scene {
    Scene {
        bvh: BVH::new(0, primitives.len().max(1)),
        primitives,
        lights: vec![PointLight { origin: Vec3::new(0, 0, 0), intensity: 300_000 }],
        materials,
    }
}

/// One red sphere of radius root 3 at (0, 0, 5), lit from the origin by a
/// light of intensity 30.
fn red_sphere() -> Scene {
    scene(vec![sphere(0, 0, 50_000, 300_000_000, 0)], vec![material(Color::red(), None, 0, 0)])
}

#[test]
fn a_ray_at_the_red_sphere_sees_red_and_a_ray_past_it_sees_black() {
    let s = red_sphere();
    let mut shadow = Ray::init();
    let mut at = ray((0, 0, 0), (0, 0, 10_000));
    let seen = at.trace(&s, &mut shadow, 0).unwrap();
    // hit at 5 - 1.73205 = 3.2679; the light lies 3.2676 off, straight along
    // the normal: 30 / 3.2676^2 = 2.8097..
    assert_eq!(seen, Color { red: 28_097, green: 0, blue: 0 });
    assert_eq!(seen.to_u32(), 0xFF0000);
    let mut past = ray((0, 0, 0), (10_000, 0, 0));
    let unseen = past.trace(&s, &mut shadow, 0).unwrap();
    assert_eq!(unseen, Color::black());
    assert!(seen.red > unseen.red);
}

#[test]
fn the_shadow_ray_is_left_pointing_at_the_last_light() {
    let s = red_sphere();
    let mut shadow = Ray::init();
    let mut at = ray((0, 0, 0), (0, 0, 10_000));
    at.trace(&s, &mut shadow, 0).unwrap();
    assert_eq!(shadow, ray((0, 0, 32_678), (0, 0, -10_000)));
    // a diffuse surface leaves the ray itself where it was
    assert_eq!(at, ray((0, 0, 0), (0, 0, 10_000)));
}

#[test]
fn beyond_the_depth_limit_everything_is_black() {
    let s = red_sphere();
    let mut shadow = ray((1, 2, 3), (4, 5, 6));
    let mut at = ray((0, 0, 0), (0, 0, 10_000));
    assert_eq!(at.trace(&s, &mut shadow, RECURSION_LIMIT + 1), Ok(Color::black()));
    assert_eq!(at.trace(&s, &mut shadow, u32::MAX), Ok(Color::black()));
    assert_eq!(shadow, ray((1, 2, 3), (4, 5, 6)));
    assert_eq!(at, ray((0, 0, 0), (0, 0, 10_000)));
    assert!(at.trace(&s, &mut shadow, RECURSION_LIMIT).unwrap().red > 0);
}

#[test]
fn light_energy_falls_with_the_square_of_the_distance() {
    let s = red_sphere();
    let mut shadow = Ray::init();
    let normal = Vec3::new(0, 0, -10_000);
    // 30 / 3.2677^2 = 2.8095.., 30 / 0.9999^2 = 30.006..
    assert_eq!(
        Ray::calculate_light_energy(&s, &mut shadow, &Vec3::new(0, 0, 32_680), &normal),
        28_095
    );
    assert_eq!(
        Ray::calculate_light_energy(&s, &mut shadow, &Vec3::new(0, 0, 10_000), &normal),
        300_060
    );
}

#[test]
fn light_energy_falls_with_the_angle_to_the_normal() {
    let s = red_sphere();
    let mut shadow = Ray::init();
    // the normal stands at 0.6 to the light's direction
    let slanted = Vec3::new(8_000, 0, -6_000);
    assert_eq!(
        Ray::calculate_light_energy(&s, &mut shadow, &Vec3::new(0, 0, 10_000), &slanted),
        180_036
    );
    // a surface that faces away gets less than nothing: -30.006.., rounded down
    let away = Vec3::new(0, 0, 10_000);
    assert_eq!(
        Ray::calculate_light_energy(&s, &mut shadow, &Vec3::new(0, 0, 10_000), &away),
        -300_061
    );
}

#[test]
fn a_light_at_no_distance_gives_all_the_energy_there_is() {
    let s = red_sphere();
    let mut shadow = Ray::init();
    let normal = Vec3::new(0, 0, -10_000);
    // the light lies one unit off: less epsilon of it, that is still one unit
    assert_eq!(
        Ray::calculate_light_energy(&s, &mut shadow, &Vec3::new(0, 0, 1), &normal),
        to_i64(100_000_000i128 * 300_000)
    );
    // at the light itself there is no direction to it
    assert_eq!(Ray::calculate_light_energy(&s, &mut shadow, &Vec3::new(0, 0, 0), &normal), 0);
}

fn to_i64(x: i128) -> i64 {
    x.clamp(i64::MIN as i128, i64::MAX as i128) as i64
}

#[test]
fn an_opaque_primitive_in_between_leaves_no_energy() {
    let mut s = red_sphere();
    s.primitives.push(sphere(0, 0, 15_000, 25_000_000, 0));
    let mut shadow = Ray::init();
    let normal = Vec3::new(0, 0, -10_000);
    assert_eq!(
        Ray::calculate_light_energy(&s, &mut shadow, &Vec3::new(0, 0, 32_680), &normal),
        0
    );
    // glass in between takes nothing away
    s.materials.push(material(Color::blue(), Some(15_000), 0, 10_000));
    s.primitives[1] = sphere(0, 0, 15_000, 25_000_000, 1);
    assert_eq!(
        Ray::calculate_light_energy(&s, &mut shadow, &Vec3::new(0, 0, 32_680), &normal),
        28_095
    );
}

#[test]
fn energy_of_several_lights_adds_up() {
    let mut s = red_sphere();
    s.lights.push(PointLight { origin: Vec3::new(0, 0, 0), intensity: 300_000 });
    s.lights.push(PointLight { origin: Vec3::new(0, 0, 50_000), intensity: 300_000 });
    let mut shadow = Ray::init();
    let normal = Vec3::new(0, 0, -10_000);
    // the third light lies inside the sphere, 1.7319 behind the surface
    // that faces away from it: -30 / 1.7319^2 = -10.0017.., rounded down.
    // The shadow ray starts inside the sphere and meets it only beyond the
    // light, so nothing hides the light.
    assert_eq!(
        Ray::calculate_light_energy(&s, &mut shadow, &Vec3::new(0, 0, 32_680), &normal),
        2 * 28_095 - 100_018
    );
    assert_eq!(shadow.direction, Vec3::new(0, 0, 10_000));
    s.lights.clear();
    let mut untouched = ray((1, 2, 3), (4, 5, 6));
    assert_eq!(
        Ray::calculate_light_energy(&s, &mut untouched, &Vec3::new(0, 0, 32_680), &normal),
        0
    );
    assert_eq!(untouched, ray((1, 2, 3), (4, 5, 6)));
}

#[test]
fn diffuse_colour_is_the_material_colour_times_the_energy() {
    let s = red_sphere();
    let mut shadow = Ray::init();
    let yellow = material(Color { red: 10_000, green: 5_000, blue: 0 }, None, 0, 0);
    let c = Ray::determine_diffuse_color(
        &s,
        &mut shadow,
        &yellow,
        &Vec3::new(0, 0, 32_680),
        &Vec3::new(0, 0, -10_000),
    );
    assert_eq!(c, Color { red: 28_095, green: 14_047, blue: 0 });
}

#[test]
fn the_diffuse_share_is_what_the_other_shares_leave() {
    // 30% mirror, 70% diffuse: the mirrored ray sees nothing
    let s = scene(
        vec![sphere(0, 0, 50_000, 300_000_000, 0)],
        vec![material(Color::red(), None, 3_000, 0)],
    );
    let mut shadow = Ray::init();
    let mut at = ray((0, 0, 0), (0, 0, 10_000));
    // 2.8097 * 0.7 = 1.96679
    assert_eq!(at.trace(&s, &mut shadow, 0), Ok(Color { red: 19_667, green: 0, blue: 0 }));
}

#[test]
fn a_mirror_shows_what_lies_behind_the_viewer() {
    // a mirror sphere ahead and a red sphere behind
    let s = scene(
        vec![sphere(0, 0, 50_000, 300_000_000, 1), sphere(0, 0, -50_000, 300_000_000, 0)],
        vec![material(Color::red(), None, 0, 0), material(Color::blue(), None, 10_000, 0)],
    );
    let mut shadow = Ray::init();
    let mut at = ray((0, 0, 0), (0, 0, 10_000));
    assert_eq!(at.trace(&s, &mut shadow, 0), Ok(Color { red: 28_097, green: 0, blue: 0 }));
    // the ray was moved on to the mirrored ray
    assert_eq!(at, ray((0, 0, 32_678), (0, 0, -10_000)));
}

#[test]
fn mirrors_facing_each_other_end_at_the_depth_limit() {
    let s = scene(
        vec![sphere(0, 0, 50_000, 300_000_000, 0), sphere(0, 0, -50_000, 300_000_000, 0)],
        vec![material(Color::red(), None, 10_000, 0)],
    );
    let mut shadow = Ray::init();
    let mut at = ray((0, 0, 0), (0, 0, 10_000));
    assert_eq!(at.trace(&s, &mut shadow, 0), Ok(Color::black()));
}

#[test]
fn mirrored_direction_turns_round_at_the_normal() {
    let s = scene(vec![], vec![]);
    let mut shadow = Ray::init();
    let mut at = ray((0, 0, 0), (6_000, 0, 8_000));
    let seen = at.determine_specular_color(
        &s,
        &mut shadow,
        &Vec3::new(100, 200, 300),
        &Vec3::new(0, 0, -10_000),
        &0,
    );
    assert_eq!(seen, Ok(Color::black()));
    // d - 2 (n . d) n = (0.6, 0, -0.8), and the start lies epsilon along it
    assert_eq!(at, ray((100, 200, 299), (6_000, 0, -8_000)));
}

#[test]
fn a_ray_straight_into_glass_goes_straight_on() {
    let glass = material(Color::blue(), Some(15_000), 0, 10_000);
    let r = ray((0, 0, 0), (0, 0, 10_000));
    assert_eq!(
        r.get_refractive_direction(&glass, &Vec3::new(0, 0, -10_000)),
        Ok(Vec3::new(0, 0, 10_000))
    );
    // and straight out again
    assert_eq!(
        r.get_refractive_direction(&glass, &Vec3::new(0, 0, 10_000)),
        Ok(Vec3::new(0, 0, 10_000))
    );
}

#[test]
fn a_slanted_ray_into_glass_is_bent_towards_the_normal() {
    let glass = material(Color::blue(), Some(15_000), 0, 10_000);
    let r = ray((0, 0, 0), (6_000, 0, 8_000));
    // sin 0.6 becomes 0.6 / 1.5 = 0.4, and the cosine 0.9165
    assert_eq!(
        r.get_refractive_direction(&glass, &Vec3::new(0, 0, -10_000)),
        Ok(Vec3::new(3_999, 0, 9_165))
    );
}

#[test]
fn the_cosine_of_a_direction_that_is_too_long_is_held_at_one() {
    let glass = material(Color::blue(), Some(15_000), 0, 10_000);
    // twice the unit length: the cosine would be 1.6 and is held at 1, so
    // that k = 1 and the ray goes along 0.6666 d + 0.3334 n'
    let r = ray((0, 0, 0), (12_000, 0, 16_000));
    assert_eq!(
        r.get_refractive_direction(&glass, &Vec3::new(0, 0, -10_000)),
        Ok(Vec3::new(4_961, 0, 8_682))
    );
}

#[test]
fn a_material_without_an_index_cannot_refract() {
    let r = ray((0, 0, 0), (0, 0, 10_000));
    let n = Vec3::new(0, 0, -10_000);
    let none = material(Color::blue(), None, 0, 10_000);
    assert_eq!(r.get_refractive_direction(&none, &n), Err(TraceError::MissingRefractionIndex));
    let zero = material(Color::blue(), Some(0), 0, 10_000);
    assert_eq!(r.get_refractive_direction(&zero, &n), Err(TraceError::MissingRefractionIndex));
    let negative = material(Color::blue(), Some(-15_000), 0, 10_000);
    assert_eq!(r.get_refractive_direction(&negative, &n), Err(TraceError::MissingRefractionIndex));
}

#[test]
fn a_flat_ray_cannot_leave_glass() {
    let glass = material(Color::blue(), Some(15_000), 0, 10_000);
    // leaving at a cosine of 0.6: 1 - 1.5^2 (1 - 0.36) is below 0
    let r = ray((0, 0, 0), (6_000, 0, 8_000));
    assert_eq!(
        r.get_refractive_direction(&glass, &Vec3::new(10_000, 0, 0)),
        Err(TraceError::TotalInternalReflection)
    );
}

#[test]
fn tracing_a_refracting_material_without_an_index_fails() {
    let s = scene(
        vec![sphere(0, 0, 50_000, 300_000_000, 0)],
        vec![material(Color::red(), None, 0, 10_000)],
    );
    let mut shadow = Ray::init();
    let mut at = ray((0, 0, 0), (0, 0, 10_000));
    assert_eq!(at.trace(&s, &mut shadow, 0), Err(TraceError::MissingRefractionIndex));
    // a ray that meets nothing does not fail
    let mut past = ray((0, 0, 0), (10_000, 0, 0));
    assert_eq!(past.trace(&s, &mut shadow, 0), Ok(Color::black()));
}

#[test]
fn tracing_a_flat_ray_out_of_glass_fails() {
    // the ray starts inside a glass sphere of radius 2, 1.8 off its axis
    let s = scene(
        vec![sphere(0, 0, 0, 400_000_000, 0)],
        vec![material(Color::red(), Some(15_000), 0, 10_000)],
    );
    let mut shadow = Ray::init();
    let mut at = ray((0, 18_000, 0), (0, 0, 10_000));
    assert_eq!(at.trace(&s, &mut shadow, 0), Err(TraceError::TotalInternalReflection));
}

#[test]
fn a_ray_through_a_glass_sphere_sees_what_lies_behind_it() {
    // glass ahead, a red sphere behind the glass
    let s = scene(
        vec![sphere(0, 0, 50_000, 100_000_000, 1), sphere(0, 0, 200_000, 100_000_000, 0)],
        vec![
            material(Color::red(), None, 0, 0),
            material(Color::blue(), Some(15_000), 0, 10_000),
        ],
    );
    let mut shadow = Ray::init();
    let mut at = ray((0, 0, 0), (0, 0, 10_000));
    let seen = at.trace(&s, &mut shadow, 0).unwrap();
    // the red sphere is met at 19.0; the light lies 18.9982 off:
    // 30 / 18.9982^2 = 0.0831..
    assert_eq!(seen, Color { red: 831, green: 0, blue: 0 });
}

#[test]
fn a_share_of_epsilon_counts_as_nothing() {
    // the mirror takes all but epsilon: the diffuse share is not looked at
    let s = scene(
        vec![sphere(0, 0, 50_000, 300_000_000, 0)],
        vec![material(Color::red(), None, 9_999, 0)],
    );
    let mut shadow = ray((1, 2, 3), (4, 5, 6));
    let mut at = ray((0, 0, 0), (0, 0, 10_000));
    assert_eq!(at.trace(&s, &mut shadow, 0), Ok(Color::black()));
    assert_eq!(shadow, ray((1, 2, 3), (4, 5, 6)));
    // one unit more is looked at: 2.8097 * 0.0002 = 0.00056..
    let t = scene(
        vec![sphere(0, 0, 50_000, 300_000_000, 0)],
        vec![material(Color::red(), None, 9_998, 0)],
    );
    let mut at = ray((0, 0, 0), (0, 0, 10_000));
    assert_eq!(at.trace(&t, &mut shadow, 0), Ok(Color { red: 5, green: 0, blue: 0 }));
    assert_eq!(shadow, ray((0, 0, 32_678), (0, 0, -10_000)));
}

#[test]
fn a_surface_too_far_from_the_light_is_seen_as_black() {
    // the red sphere 5000 units off: 30 / 5000^2 is far below one unit of
    // energy, so the ray hits and still sees nothing
    let s = scene(
        vec![sphere(0, 0, 50_000_000, 300_000_000, 0)],
        vec![material(Color::red(), None, 0, 0)],
    );
    let mut shadow = Ray::init();
    let mut at = ray((0, 0, 0), (0, 0, 10_000));
    assert_eq!(s.nearest_hit(&at), Some((0, 49_982_679)));
    assert_eq!(at.trace(&s, &mut shadow, 0), Ok(Color::black()));
    // the shadow ray was sent all the same
    assert_eq!(shadow, ray((0, 0, 49_982_678), (0, 0, -10_000)));
}

#[test]
fn a_ray_from_a_screen_pixel_at_the_red_sphere_sees_red() {
    // a direction as the screen makes it, rounded down from (0.1, 0.05, 1)
    let s = red_sphere();
    let mut shadow = Ray::init();
    let d = raytracer::vector::normalize((1_000, 500, 10_000));
    assert_eq!(d, Vec3::new(993, 496, 9_938));
    let mut at = Ray { origin: Vec3::new(0, 0, 0), direction: d };
    // the hit lies 3.3283 off, where the light falls at 0.9475 to the normal:
    // 30 * 0.9475 / 3.3280^2 = 2.566..
    assert_eq!(at.trace(&s, &mut shadow, 0), Ok(Color { red: 25_664, green: 0, blue: 0 }));
}
