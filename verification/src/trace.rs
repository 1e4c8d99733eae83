//! What a ray sees: the colour that comes back along it from the scene, by
//! the diffuse light on the surface it meets and by the rays that the
//! surface reflects and refracts.

use vstd::prelude::*;
use crate::color::Color;
use crate::fixed::{
    clamp64, clamp_i64, clamped_between, div_floor, dot, dot3, fx, fx_mul, fx_times, ints, isqrt,
    lemma_product_within, lemma_square_monotone, sqrt_floor, to_i64, within,
};
use crate::lights::pointlight::{shadowed, PointLight};
use crate::material::Material;
use crate::primitives::primitive::Primitive;
use crate::ray::Ray;
use crate::scene::{first_nearest_upto, lemma_first_nearest_is_least, Scene};
use crate::vector::{clamp_vector, clamped, components, normalize, normalized, Vec3};
use crate::{EPSILON, RECURSION_LIMIT, SCALE};

verus! {

/// Why no colour comes back along a ray.
#[derive(Clone, Copy, Debug, PartialEq, Eq, Structural)]
pub enum TraceError {
    /// A material refracts but has no index of refraction above 0.
    MissingRefractionIndex,
    /// A ray would have to leave a material at an angle at which none does.
    TotalInternalReflection,
}

/// The point moved on by `EPSILON` times `v`, as far as coordinates go.
pub open spec fn nudged(point: Vec3, v: (int, int, int)) -> Vec3 {
    clamped(
        (
            point.x + fx_mul(v.0, EPSILON as int),
            point.y + fx_mul(v.1, EPSILON as int),
            point.z + fx_mul(v.2, EPSILON as int),
        ),
    )
}

/// The length of a vector, rounded down.
pub open spec fn length(v: (int, int, int)) -> int {
    isqrt(dot(v, v))
}

/// From the point to the light.
pub open spec fn toward(light: PointLight, point: Vec3) -> (int, int, int) {
    (light.origin.x - point.x, light.origin.y - point.y, light.origin.z - point.z)
}

/// How far the light lies from the point, less `EPSILON` times as much.
pub open spec fn light_distance(light: PointLight, point: Vec3) -> i64 {
    let len = length(toward(light, point));
    (len - fx_mul(len, EPSILON as int)) as i64
}

/// The ray from just off the point to the light.
pub open spec fn shadow_ray_to(light: PointLight, point: Vec3) -> Ray {
    let direction = normalized(toward(light, point));
    Ray { origin: nudged(point, components(direction)), direction }
}

/// What the light adds to the energy at the point, where nothing stands in
/// between: its intensity, times the share of the light that falls along
/// the normal, over the square of its distance. A light at no distance adds
/// as much as there is room for.
pub open spec fn light_term(light: PointLight, point: Vec3, normal: Vec3) -> int {
    let direction = normalized(toward(light, point));
    let numerator = dot(components(normal), components(direction)) * light.intensity;
    let distance = light_distance(light, point) as int;
    if distance == 0 {
        if numerator > 0 {
            i64::MAX as int
        } else if numerator < 0 {
            i64::MIN as int
        } else {
            0
        }
    } else {
        clamp64(numerator / (distance * distance))
    }
}

/// The energy that the first `n` lights of the scene send to the point:
/// the sum of what each adds that no primitive hides.
pub open spec fn light_energy_upto(scene: &Scene, point: Vec3, normal: Vec3, n: nat) -> int
    decreases n,
{
    if n == 0 {
        0
    } else {
        let before = light_energy_upto(scene, point, normal, (n - 1) as nat);
        let light = scene.lights@[n - 1];
        if shadowed(scene, shadow_ray_to(light, point), light_distance(light, point)) {
            before
        } else {
            clamp64(before + light_term(light, point, normal))
        }
    }
}

/// The shadow ray once the energy at the point was summed: the one to the
/// last light, or the one there was where the scene has no light.
pub open spec fn last_shadow_ray(scene: &Scene, point: Vec3, shadow: Ray) -> Ray {
    if scene.lights.len() == 0 {
        shadow
    } else {
        shadow_ray_to(scene.lights@[scene.lights.len() - 1], point)
    }
}

/// The direction `d` mirrored at a surface with the normal `n`:
/// `d - 2 (n . d) n`.
pub open spec fn reflected(d: Vec3, n: Vec3) -> (int, int, int) {
    let nd = dot(components(n), components(d));
    (
        d.x - (2 * nd * n.x) / (SCALE * SCALE),
        d.y - (2 * nd * n.y) / (SCALE * SCALE),
        d.z - (2 * nd * n.z) / (SCALE * SCALE),
    )
}

/// The cosine of the angle between `d` and `n`, held between -1 and 1.
pub open spec fn cosine(d: Vec3, n: Vec3) -> int {
    clamped_between(
        clamp64(fx_mul(1, dot(components(d), components(n)))),
        -SCALE as int,
        SCALE as int,
    )
}

/// The direction `d` bent at a surface with the normal `n`, after Snell.
/// The ray enters the material where it runs against the normal, and
/// leaves it else; on leaving, the two indices change places and the normal
/// is turned round. With `eta` the index on the ray's side over the index
/// beyond, and `k = 1 - eta^2 (1 - cos^2)`: no ray goes on where `k` is
/// below 0; else it goes along `eta d + (eta cos - sqrt(k)) n`.
pub open spec fn refracted(d: Vec3, n: Vec3, material: Material) -> Result<Vec3, TraceError> {
    match material.refraction_index {
        None => Err(TraceError::MissingRefractionIndex),
        Some(index) => if index <= 0 {
            Err(TraceError::MissingRefractionIndex)
        } else {
            let c = cosine(d, n);
            let entering = c < 0;
            let cosi = if entering {
                -c
            } else {
                c
            };
            let eta = if entering {
                (SCALE * SCALE) / (index as int)
            } else {
                index as int
            };
            let k = SCALE - fx(fx(eta, eta), clamp64(SCALE - fx(cosi, cosi)));
            if k < 0 {
                Err(TraceError::TotalInternalReflection)
            } else {
                let w = clamp64(fx(eta, cosi) - isqrt(k * SCALE));
                let turn: int = if entering {
                    1
                } else {
                    -1
                };
                Ok(
                    normalized(
                        (
                            fx(d.x as int, eta) + fx(w, turn * n.x),
                            fx(d.y as int, eta) + fx(w, turn * n.y),
                            fx(d.z as int, eta) + fx(w, turn * n.z),
                        ),
                    ),
                )
            }
        },
    }
}

/// A well-formed material that refracts has its index: a ray through it is
/// bent or reflected within, and never fails for want of an index. The
/// three shares of a well-formed material lie between 0 and 1.
pub proof fn lemma_well_formed_material_has_its_index(d: Vec3, n: Vec3, material: Material)
    requires
        material.well_formed(),
    ensures
        material.refraction_cof > 0 ==> refracted(d, n, material) != Err::<Vec3, TraceError>(
            TraceError::MissingRefractionIndex,
        ),
        0 <= diffuse_share(material) <= SCALE,
        diffuse_share(material) == SCALE - material.specular_cof - material.refraction_cof,
{
}

/// What following a ray leaves: the colour or the reason there is none, and
/// the two rays as they stand afterwards.
pub struct Traced {
    pub outcome: Result<Color, TraceError>,
    pub ray: Ray,
    pub shadow: Ray,
}

/// How many more steps following a ray can take from `depth` on, at two
/// steps a level; beyond the depth limit, the one step on to the next ray
/// and the step that finds it too deep.
pub open spec fn steps_left(depth: u32) -> int {
    if depth <= RECURSION_LIMIT {
        2 * (RECURSION_LIMIT + 1 - depth)
    } else {
        2
    }
}

/// The share of a material that answers light diffusely: what its two
/// coefficients leave of 1.
pub open spec fn diffuse_share(material: Material) -> int {
    clamp64(SCALE - material.specular_cof - material.refraction_cof)
}

/// The colour that comes back along `ray`, and the two rays afterwards.
///
/// Black beyond the depth limit and where the ray hits nothing. Else, at
/// the nearest hit, the sum of three parts, each only where its share of
/// the material is above `EPSILON`: the material's colour times the light
/// energy at the point, times the diffuse share; what comes back along the
/// mirrored ray, times the specular share; and what comes back along the
/// bent ray, times the refracting share. The ray is moved on in place to
/// the mirrored and then to the bent ray, one level deeper each time, and a
/// part that fails makes the whole fail.
pub open spec fn trace_model(scene: &Scene, ray: Ray, shadow: Ray, depth: u32) -> Traced
    decreases RECURSION_LIMIT + 1 - depth,
{
    if depth > RECURSION_LIMIT {
        Traced { outcome: Ok(Color { red: 0, green: 0, blue: 0 }), ray, shadow }
    } else {
        match first_nearest_upto(scene.primitives@, scene.primitives.len() as nat, ray) {
            None => Traced { outcome: Ok(Color { red: 0, green: 0, blue: 0 }), ray, shadow },
            Some(hit) => {
                let point = ray.point_at(hit.1);
                let normal = scene.primitives@[hit.0 as int].normal(point);
                let material = scene.materials@[scene.primitives@[hit.0 as int].material_index() as int];
                let black = Color { red: 0, green: 0, blue: 0 };
                let lit = if diffuse_share(material) > EPSILON {
                    Traced {
                        outcome: Ok(
                            black.plus(
                                material.diffuse_color.times(
                                    light_energy_upto(
                                        scene,
                                        point,
                                        normal,
                                        scene.lights.len() as nat,
                                    ) as i64,
                                ).times(diffuse_share(material) as i64),
                            ),
                        ),
                        ray,
                        shadow: last_shadow_ray(scene, point, shadow),
                    }
                } else {
                    Traced { outcome: Ok(black), ray, shadow }
                };
                let mirrored = if material.specular_cof > EPSILON {
                    let r = reflected(ray.direction, normal);
                    let deeper = trace_model(
                        scene,
                        Ray { origin: nudged(point, r), direction: normalized(r) },
                        lit.shadow,
                        (depth + 1) as u32,
                    );
                    match deeper.outcome {
                        Ok(c) => Traced {
                            outcome: Ok(lit.outcome.unwrap().plus(c.times(material.specular_cof))),
                            ..deeper
                        },
                        Err(e) => deeper,
                    }
                } else {
                    lit
                };
                match mirrored.outcome {
                    Err(e) => mirrored,
                    Ok(so_far) => if material.refraction_cof > EPSILON {
                        match refracted(mirrored.ray.direction, normal, material) {
                            Err(e) => Traced { outcome: Err(e), ..mirrored },
                            Ok(direction) => {
                                let deeper = trace_model(
                                    scene,
                                    Ray {
                                        origin: nudged(point, components(direction)),
                                        direction,
                                    },
                                    mirrored.shadow,
                                    (depth + 1) as u32,
                                );
                                match deeper.outcome {
                                    Ok(c) => Traced {
                                        outcome: Ok(so_far.plus(c.times(material.refraction_cof))),
                                        ..deeper
                                    },
                                    Err(e) => deeper,
                                }
                            },
                        }
                    } else {
                        mirrored
                    },
                }
            },
        }
    }
}

fn components_of(v: &Vec3) -> (r: (i128, i128, i128))
    ensures
        ints(r) == components(*v),
        within(r, 0x8000_0000),
{
    (v.x as i128, v.y as i128, v.z as i128)
}

fn nudge(point: &Vec3, v: (i128, i128, i128)) -> (r: Vec3)
    requires
        within(v, 0x1_0000_0000_0000_0000_0000_0000),
    ensures
        r == nudged(*point, ints(v)),
{
    let scale: i128 = SCALE as i128;
    let eps: i128 = EPSILON as i128;
    clamp_vector(
        (
            point.x as i128 + div_floor(v.0 * eps, scale),
            point.y as i128 + div_floor(v.1 * eps, scale),
            point.z as i128 + div_floor(v.2 * eps, scale),
        ),
    )
}

/// What one light adds to the energy at a point, where nothing hides it.
fn light_term_of(light: &PointLight, direction: &Vec3, distance: i64, normal: &Vec3) -> (term: i64)
    requires
        -SCALE <= direction.x <= SCALE,
        -SCALE <= direction.y <= SCALE,
        -SCALE <= direction.z <= SCALE,
        0 <= distance <= 0x4_0000_0000,
    ensures
        term == ({
            let numerator = dot(components(*normal), components(*direction)) * light.intensity;
            if distance == 0 {
                if numerator > 0 {
                    i64::MAX as int
                } else if numerator < 0 {
                    i64::MIN as int
                } else {
                    0
                }
            } else {
                clamp64(numerator / (distance * distance))
            }
        }),
{
    let n = components_of(normal);
    let d: (i128, i128, i128) = (direction.x as i128, direction.y as i128, direction.z as i128);
    let angle: i128 = dot3(n, d, Ghost(0x8000_0000), Ghost(10_000));
    proof {
        lemma_product_within(
            angle as int,
            light.intensity as int,
            3 * (0x8000_0000int * 10_000int),
            0x8000_0000_0000_0000,
        );
    }
    let numerator: i128 = angle * (light.intensity as i128);
    if distance == 0 {
        if numerator > 0 {
            i64::MAX
        } else if numerator < 0 {
            i64::MIN
        } else {
            0
        }
    } else {
        proof {
            lemma_product_within(distance as int, distance as int, 0x4_0000_0000, 0x4_0000_0000);
            assert(distance * distance > 0) by (nonlinear_arith)
                requires
                    distance > 0,
            ;
        }
        let square: i128 = (distance as i128) * (distance as i128);
        to_i64(div_floor(numerator, square))
    }
}

impl Ray {
    /// The energy that the lights of the scene send to a point of a surface
    /// with the given normal. The shadow ray is sent to each light in turn.
    pub fn calculate_light_energy(
        scene: &Scene,
        shadow_ray: &mut Ray,
        intersection_point: &Vec3,
        normal: &Vec3,
    ) -> (energy: i64)
        requires
            scene.materials_present(),
        ensures
            energy == light_energy_upto(
                scene,
                *intersection_point,
                *normal,
                scene.lights.len() as nat,
            ),
            *final(shadow_ray) == last_shadow_ray(scene, *intersection_point, *old(shadow_ray)),
    {
        let mut energy: i64 = 0;
        for k in 0..scene.lights.len()
            invariant
                scene.materials_present(),
                energy == light_energy_upto(scene, *intersection_point, *normal, k as nat),
                *shadow_ray == if k == 0 {
                    *old(shadow_ray)
                } else {
                    shadow_ray_to(scene.lights@[k - 1], *intersection_point)
                },
        {
            let light = &scene.lights[k];
            let light_vector: (i128, i128, i128) = (
                light.origin.x as i128 - intersection_point.x as i128,
                light.origin.y as i128 - intersection_point.y as i128,
                light.origin.z as i128 - intersection_point.z as i128,
            );
            let square: i128 = dot3(
                light_vector,
                light_vector,
                Ghost(0xFFFF_FFFF),
                Ghost(0xFFFF_FFFF),
            );
            proof {
                assert(light_vector.0 * light_vector.0 >= 0 && light_vector.1 * light_vector.1 >= 0
                    && light_vector.2 * light_vector.2 >= 0) by (nonlinear_arith);
            }
            let magnitude: i128 = sqrt_floor(square as u128) as i128;
            proof {
                if magnitude > 0x2_0000_0000 {
                    lemma_square_monotone(0x2_0000_0000, magnitude as int);
                }
            }
            let distance: i64 = (magnitude - div_floor(magnitude * EPSILON as i128, SCALE as i128))
                as i64;
            let direction: Vec3 = normalize(light_vector);
            let origin: Vec3 = nudge(intersection_point, components_of(&direction));

            shadow_ray.update_shadow(origin, direction);

            if !PointLight::occluded(scene, shadow_ray, distance) {
                let term: i64 = light_term_of(light, &direction, distance, normal);
                energy = to_i64(energy as i128 + term as i128);
            }
        }
        energy
    }

    /// The material's colour times the light energy at the point.
    pub fn determine_diffuse_color(
        scene: &Scene,
        shadow_ray: &mut Ray,
        material: &Material,
        intersection_point: &Vec3,
        normal: &Vec3,
    ) -> (color: Color)
        requires
            scene.materials_present(),
        ensures
            color == material.diffuse_color.times(
                light_energy_upto(
                    scene,
                    *intersection_point,
                    *normal,
                    scene.lights.len() as nat,
                ) as i64,
            ),
            *final(shadow_ray) == last_shadow_ray(scene, *intersection_point, *old(shadow_ray)),
    {
        let energy = Ray::calculate_light_energy(scene, shadow_ray, intersection_point, normal);
        let color = material.diffuse_color * energy;
        color
    }

    /// The direction in which the ray goes on through a surface of the
    /// material with the given normal.
    pub fn get_refractive_direction(&self, material: &Material, normal: &Vec3) -> (direction:
        Result<Vec3, TraceError>)
        ensures
            direction == refracted(self.direction, *normal, *material),
    {
        let index: i64 = match material.refraction_index {
            None => {
                return Err(TraceError::MissingRefractionIndex);
            },
            Some(index) => index,
        };
        if index <= 0 {
            return Err(TraceError::MissingRefractionIndex);
        }
        let d = components_of(&self.direction);
        let n = components_of(normal);
        let along: i128 = dot3(d, n, Ghost(0x8000_0000), Ghost(0x8000_0000));
        assert(1 * along == along);
        let c: i64 = clamp_i64(to_i64(div_floor(along, SCALE as i128)), -SCALE, SCALE);
        let entering: bool = c < 0;
        let cosi: i64 = if entering {
            -c
        } else {
            c
        };
        let eta: i64 = if entering {
            ((SCALE as i128 * SCALE as i128) / (index as i128)) as i64
        } else {
            index
        };
        let k: i128 = SCALE as i128 - fx_times(
            fx_times(eta, eta),
            to_i64(SCALE as i128 - fx_times(cosi, cosi) as i128),
        ) as i128;
        if k < 0 {
            return Err(TraceError::TotalInternalReflection);
        }
        let root: i128 = sqrt_floor((k * SCALE as i128) as u128) as i128;
        let w: i64 = to_i64(fx_times(eta, cosi) as i128 - root);
        let nx: i64 = if entering {
            normal.x as i64
        } else {
            -(normal.x as i64)
        };
        let ny: i64 = if entering {
            normal.y as i64
        } else {
            -(normal.y as i64)
        };
        let nz: i64 = if entering {
            normal.z as i64
        } else {
            -(normal.z as i64)
        };
        assert(1 * normal.x == normal.x && -1 * normal.x == -normal.x && 1 * normal.y == normal.y
            && -1 * normal.y == -normal.y && 1 * normal.z == normal.z && -1 * normal.z
            == -normal.z);
        Ok(
            normalize(
                (
                    fx_times(self.direction.x as i64, eta) as i128 + fx_times(w, nx) as i128,
                    fx_times(self.direction.y as i64, eta) as i128 + fx_times(w, ny) as i128,
                    fx_times(self.direction.z as i64, eta) as i128 + fx_times(w, nz) as i128,
                ),
            ),
        )
    }
}

/// The direction `d` mirrored at a surface with the normal `n`.
fn reflect(d: &Vec3, n: &Vec3) -> (r: (i128, i128, i128))
    ensures
        ints(r) == reflected(*d, *n),
        within(r, 0x1_0000_0000_0000_0000_0000_0000),
{
    let dv = components_of(d);
    let nv = components_of(n);
    let nd: i128 = dot3(nv, dv, Ghost(0x8000_0000), Ghost(0x8000_0000));
    proof {
        lemma_product_within(
            2 * nd as int,
            n.x as int,
            6 * (0x8000_0000int * 0x8000_0000int),
            0x8000_0000,
        );
        lemma_product_within(
            2 * nd as int,
            n.y as int,
            6 * (0x8000_0000int * 0x8000_0000int),
            0x8000_0000,
        );
        lemma_product_within(
            2 * nd as int,
            n.z as int,
            6 * (0x8000_0000int * 0x8000_0000int),
            0x8000_0000,
        );
    }
    let unit: i128 = 100_000_000;
    assert(unit == SCALE * SCALE);
    (
        dv.0 - div_floor(2 * nd * nv.0, unit),
        dv.1 - div_floor(2 * nd * nv.1, unit),
        dv.2 - div_floor(2 * nd * nv.2, unit),
    )
}

impl Ray {
    /// What comes back along the ray mirrored at the surface: the ray is
    /// moved on to the mirrored ray and followed one level deeper.
    pub fn determine_specular_color(
        &mut self,
        scene: &Scene,
        shadow_ray: &mut Ray,
        intersection_point: &Vec3,
        normal: &Vec3,
        depth: &u32,
    ) -> (color: Result<Color, TraceError>)
        requires
            scene.materials_present(),
            *depth < u32::MAX,
        ensures
            ({
                let r = reflected(old(self).direction, *normal);
                let deeper = trace_model(
                    scene,
                    Ray { origin: nudged(*intersection_point, r), direction: normalized(r) },
                    *old(shadow_ray),
                    (*depth + 1) as u32,
                );
                &&& color == deeper.outcome
                &&& *final(self) == deeper.ray
                &&& *final(shadow_ray) == deeper.shadow
            }),
        decreases steps_left(*depth),
    {
        let reflect_dir = reflect(&self.direction, normal);
        self.origin = nudge(intersection_point, reflect_dir);
        self.direction = normalize(reflect_dir);
        self.trace(scene, shadow_ray, *depth + 1)
    }

    /// What comes back along the ray bent at the surface: the ray is moved
    /// on to the bent ray and followed one level deeper.
    pub fn determine_refractive_color(
        &mut self,
        scene: &Scene,
        shadow_ray: &mut Ray,
        intersection_point: &Vec3,
        normal: &Vec3,
        material: &Material,
        depth: &u32,
    ) -> (color: Result<Color, TraceError>)
        requires
            scene.materials_present(),
            *depth < u32::MAX,
        ensures
            match refracted(old(self).direction, *normal, *material) {
                Err(e) => {
                    &&& color == Err::<Color, TraceError>(e)
                    &&& *final(self) == *old(self)
                    &&& *final(shadow_ray) == *old(shadow_ray)
                },
                Ok(direction) => {
                    let deeper = trace_model(
                        scene,
                        Ray {
                            origin: nudged(*intersection_point, components(direction)),
                            direction,
                        },
                        *old(shadow_ray),
                        (*depth + 1) as u32,
                    );
                    &&& color == deeper.outcome
                    &&& *final(self) == deeper.ray
                    &&& *final(shadow_ray) == deeper.shadow
                },
            },
        decreases steps_left(*depth),
    {
        let refractive_direction = match self.get_refractive_direction(material, normal) {
            Err(e) => {
                return Err(e);
            },
            Ok(direction) => direction,
        };
        self.origin = nudge(intersection_point, components_of(&refractive_direction));
        self.direction = refractive_direction;
        self.trace(scene, shadow_ray, *depth + 1)
    }

    /// The colour that comes back along the ray from the scene. Both rays
    /// are used up on the way: they are left as the last step left them.
    #[verifier::rlimit(40)]
    pub fn trace(&mut self, scene: &Scene, shadow_ray: &mut Ray, depth: u32) -> (color: Result<
        Color,
        TraceError,
    >)
        requires
            scene.materials_present(),
        ensures
            color == trace_model(scene, *old(self), *old(shadow_ray), depth).outcome,
            *final(self) == trace_model(scene, *old(self), *old(shadow_ray), depth).ray,
            *final(shadow_ray) == trace_model(scene, *old(self), *old(shadow_ray), depth).shadow,
        decreases
            if depth <= RECURSION_LIMIT {
                steps_left(depth) + 1
            } else {
                1
            },
    {
        if depth > RECURSION_LIMIT {
            return Ok(Color::black());
        }
        let intersection = scene.nearest_hit(self);

        if let Some((index, distance)) = intersection {
            let primitive = &scene.primitives[index];
            let intersection_point: Vec3 = self.get_intersection_point(distance);
            let normal: Vec3 = primitive.get_normal(&intersection_point);
            let material: Material = primitive.get_material(&scene.materials);
            let diffuse_cof: i64 = to_i64(
                SCALE as i128 - material.specular_cof as i128 - material.refraction_cof as i128,
            );
            let mut color = Color::black();

            if diffuse_cof > EPSILON {
                let diffuse_color = Ray::determine_diffuse_color(
                    scene,
                    shadow_ray,
                    &material,
                    &intersection_point,
                    &normal,
                );
                color = color + diffuse_color * diffuse_cof;
            }
            if material.specular_cof > EPSILON {
                let specular_color = match self.determine_specular_color(
                    scene,
                    shadow_ray,
                    &intersection_point,
                    &normal,
                    &depth,
                ) {
                    Err(e) => {
                        return Err(e);
                    },
                    Ok(c) => c,
                };
                color = color + specular_color * material.specular_cof;
            }
            if material.refraction_cof > EPSILON {
                let refractive_color = match self.determine_refractive_color(
                    scene,
                    shadow_ray,
                    &intersection_point,
                    &normal,
                    &material,
                    &depth,
                ) {
                    Err(e) => {
                        return Err(e);
                    },
                    Ok(c) => c,
                };
                color = color + refractive_color * material.refraction_cof;
            }
            return Ok(color);
        }
        Ok(Color::black())
    }
}

/// No material of the scene refracts by more than `EPSILON`.
pub open spec fn nothing_refracts(scene: &Scene) -> bool {
    forall|i: int|
        0 <= i < scene.materials.len() ==> (#[trigger] scene.materials@[i]).refraction_cof
            <= EPSILON
}

/// Only refraction fails: in a scene where nothing refracts, a colour comes
/// back along every ray.
pub proof fn lemma_only_refraction_fails(scene: &Scene, ray: Ray, shadow: Ray, depth: u32)
    requires
        scene.materials_present(),
        nothing_refracts(scene),
    ensures
        trace_model(scene, ray, shadow, depth).outcome is Ok,
    decreases RECURSION_LIMIT + 1 - depth,
{
    if depth <= RECURSION_LIMIT {
        lemma_first_nearest_is_least(scene.primitives@, scene.primitives.len() as nat, ray);
        if let Some(hit) = first_nearest_upto(
            scene.primitives@,
            scene.primitives.len() as nat,
            ray,
        ) {
            let point = ray.point_at(hit.1);
            let normal = scene.primitives@[hit.0 as int].normal(point);
            let material = scene.materials@[scene.primitives@[hit.0 as int].material_index() as int];
            assert(material.refraction_cof <= EPSILON);
            if material.specular_cof > EPSILON {
                let r = reflected(ray.direction, normal);
                let lit_shadow = if diffuse_share(material) > EPSILON {
                    last_shadow_ray(scene, point, shadow)
                } else {
                    shadow
                };
                lemma_only_refraction_fails(
                    scene,
                    Ray { origin: nudged(point, r), direction: normalized(r) },
                    lit_shadow,
                    (depth + 1) as u32,
                );
            }
        }
    }
}

/// The light energy at a point is a number that an `i64` holds.
pub proof fn lemma_light_energy_fits(scene: &Scene, point: Vec3, normal: Vec3, n: nat)
    ensures
        i64::MIN <= light_energy_upto(scene, point, normal, n) <= i64::MAX,
    decreases n,
{
    if n > 0 {
        lemma_light_energy_fits(scene, point, normal, (n - 1) as nat);
    }
}

/// A ray that hits a surface which is all diffuse and red at 1.0 sees the
/// light energy at the point of the hit as red, and no green nor blue: so
/// it sees more than the black of a ray that hits nothing just where light
/// above 0 reaches the point. The ray stays as it is, and the shadow ray is
/// left pointing at the last light.
pub proof fn lemma_red_surface_shows_its_light(scene: &Scene, ray: Ray, shadow: Ray, depth: u32)
    requires
        scene.materials_present(),
        depth <= RECURSION_LIMIT,
        first_nearest_upto(scene.primitives@, scene.primitives.len() as nat, ray) matches Some(
            hit,
        ) && ({
            let material = scene.materials@[scene.primitives@[hit.0 as int].material_index() as int];
            &&& material.diffuse_color == (Color { red: SCALE, green: 0, blue: 0 })
            &&& material.specular_cof == 0
            &&& material.refraction_cof == 0
        }),
    ensures
        ({
            let hit = first_nearest_upto(
                scene.primitives@,
                scene.primitives.len() as nat,
                ray,
            ).unwrap();
            let point = ray.point_at(hit.1);
            let normal = scene.primitives@[hit.0 as int].normal(point);
            let energy = light_energy_upto(scene, point, normal, scene.lights.len() as nat);
            &&& trace_model(scene, ray, shadow, depth).outcome == Ok::<Color, TraceError>(
                Color { red: energy as i64, green: 0, blue: 0 },
            )
            &&& trace_model(scene, ray, shadow, depth).ray == ray
            &&& trace_model(scene, ray, shadow, depth).shadow == last_shadow_ray(
                scene,
                point,
                shadow,
            )
        }),
{
    let hit = first_nearest_upto(scene.primitives@, scene.primitives.len() as nat, ray).unwrap();
    let point = ray.point_at(hit.1);
    let normal = scene.primitives@[hit.0 as int].normal(point);
    let energy = light_energy_upto(scene, point, normal, scene.lights.len() as nat);
    let material = scene.materials@[scene.primitives@[hit.0 as int].material_index() as int];
    lemma_light_energy_fits(scene, point, normal, scene.lights.len() as nat);
    assert(diffuse_share(material) == SCALE);
    let s = SCALE as int;
    // Times 1.0, the energy stays as it is, and nothing stays nothing.
    vstd::arithmetic::div_mod::lemma_div_multiples_vanish(energy, s);
    assert(s * energy == energy * s) by (nonlinear_arith);
    assert(fx_mul(s, energy) == energy && fx_mul(energy, s) == energy);
    assert(0 * energy == 0 && 0 * s == 0);
    assert(fx_mul(0, energy) == 0 && fx_mul(0, s) == 0);
    let lit = material.diffuse_color.times(energy as i64);
    assert(lit == (Color { red: energy as i64, green: 0, blue: 0 }));
    assert(lit.times(s as i64) == lit);
    assert((Color { red: 0, green: 0, blue: 0 }).plus(lit) == lit);
}

/// Beyond the depth limit and along a ray that hits nothing, black comes
/// back and both rays stay as they are.
pub proof fn lemma_nothing_seen_is_black(scene: &Scene, ray: Ray, shadow: Ray, depth: u32)
    requires
        depth > RECURSION_LIMIT || first_nearest_upto(
            scene.primitives@,
            scene.primitives.len() as nat,
            ray,
        ) is None,
    ensures
        trace_model(scene, ray, shadow, depth).outcome == Ok::<Color, TraceError>(
            Color { red: 0, green: 0, blue: 0 },
        ),
        trace_model(scene, ray, shadow, depth).ray == ray,
        trace_model(scene, ray, shadow, depth).shadow == shadow,
{
}

} // verus!
