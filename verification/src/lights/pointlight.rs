use vstd::prelude::*;
use crate::primitives::primitive::Primitive;
use crate::ray::Ray;
use crate::scene::Scene;
use crate::vector::Vec3;
use crate::EPSILON;

verus! {

/// A light at a point, with the energy it sends out.
#[derive(Clone, Copy, Debug)]
pub struct PointLight {
    pub origin: Vec3,
    pub intensity: i64,
}

/// Primitive `i` of the scene stands in the way of the ray before `dist`:
/// its material does not refract by more than `EPSILON`, and the ray hits it
/// nearer than `dist`.
pub open spec fn blocks(scene: &Scene, i: int, ray: Ray, dist: i64) -> bool {
    &&& scene.materials@[scene.primitives@[i].material_index() as int].refraction_cof <= EPSILON
    &&& scene.primitives@[i].hit(ray) matches Some(d) && d < dist
}

/// Some primitive of the scene stands in the way of the ray before `dist`.
pub open spec fn shadowed(scene: &Scene, ray: Ray, dist: i64) -> bool {
    exists|i: int| 0 <= i < scene.primitives.len() && blocks(scene, i, ray, dist)
}

impl PointLight {
    /// Whether anything stands between the start of the shadow ray and the
    /// light, which lies `dist` along it.
    pub fn occluded(scene: &Scene, shadow_ray: &Ray, dist: i64) -> (hidden: bool)
        requires
            scene.materials_present(),
        ensures
            hidden == shadowed(scene, *shadow_ray, dist),
    {
        for k in 0..scene.primitives.len()
            invariant
                scene.materials_present(),
                forall|i: int| 0 <= i < k ==> !blocks(scene, i, *shadow_ray, dist),
        {
            let primitive = &scene.primitives[k];
            let material = primitive.get_material(&scene.materials);
            if !(material.refraction_cof > EPSILON) {
                let intersection = primitive.intersect(shadow_ray);
                if let Some(prim_dist) = intersection {
                    if prim_dist < dist {
                        assert(blocks(scene, k as int, *shadow_ray, dist));
                        return true;
                    }
                }
            }
        }
        false
    }
}

} // verus!
