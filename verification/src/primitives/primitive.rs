use vstd::prelude::*;
use crate::bvh::aabb::AABB;
use crate::material::Material;
use crate::ray::Ray;
use crate::vector::Vec3;

verus! {

/// What a shape must offer to stand in a scene. Each method returns what the
/// function beside it says in contracts, so that a shape answers alike each
/// time it is asked.
pub trait Primitive {
    /// The distance along `ray` at which it meets the shape, if it does.
    spec fn hit(&self, ray: Ray) -> Option<i64>;

    /// Where in the scene's list of materials this shape's material stands.
    spec fn material_index(&self) -> usize;

    /// The unit vector that stands on the surface at `point`.
    spec fn normal(&self, point: Vec3) -> Vec3;

    spec fn centroid(&self) -> Vec3;

    spec fn bounds(&self) -> AABB;

    fn intersect(&self, ray: &Ray) -> (distance: Option<i64>)
        ensures
            distance == self.hit(*ray),
    ;

    fn get_material(&self, materials: &Vec<Material>) -> (material: Material)
        requires
            self.material_index() < materials.len(),
        ensures
            material == materials[self.material_index() as int],
    ;

    fn get_normal(&self, intersection_point: &Vec3) -> (normal: Vec3)
        ensures
            normal == self.normal(*intersection_point),
    ;

    fn get_centroid(&self) -> (centroid: Vec3)
        ensures
            centroid == self.centroid(),
    ;

    fn get_bounds(&self) -> (bounds: AABB)
        ensures
            bounds == self.bounds(),
    ;
}

} // verus!
