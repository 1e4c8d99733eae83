use vstd::prelude::*;
use crate::bvh::bvh::BVH;
use crate::lights::pointlight::PointLight;
use crate::material::Material;
use crate::primitives::primitive::Primitive;
use crate::ray::Ray;

verus! {

/// What is rendered: the primitives with the hierarchy over them, the
/// lights, and the materials that the primitives refer to.
pub struct Scene {
    pub bvh: BVH,
    pub primitives: Vec<Box<dyn Primitive>>,
    pub lights: Vec<PointLight>,
    pub materials: Vec<Material>,
}

/// The nearest hit among the first `n` primitives, with the primitive's
/// place in the list; the first of them where several are as near.
pub open spec fn first_nearest_upto(prims: Seq<Box<dyn Primitive>>, n: nat, ray: Ray) -> Option<
    (usize, i64),
>
    decreases n,
{
    if n == 0 {
        None
    } else {
        let before = first_nearest_upto(prims, (n - 1) as nat, ray);
        match prims[n - 1].hit(ray) {
            Some(d) => if before matches Some(h) ==> d < h.1 {
                Some(((n - 1) as usize, d))
            } else {
                before
            },
            None => before,
        }
    }
}

impl Scene {
    /// Every primitive refers to a material that the scene has.
    pub open spec fn materials_present(&self) -> bool {
        forall|i: int|
            0 <= i < self.primitives.len() ==> (#[trigger] self.primitives@[i]).material_index()
                < self.materials.len()
    }

    /// The nearest hit of the ray among all the primitives, one after
    /// another, with the place of the primitive that is hit.
    pub fn nearest_hit(&self, ray: &Ray) -> (nearest: Option<(usize, i64)>)
        ensures
            nearest == first_nearest_upto(self.primitives@, self.primitives.len() as nat, *ray),
            nearest matches Some(h) ==> h.0 < self.primitives.len(),
    {
        let mut nearest_intersection: Option<(usize, i64)> = None;
        for i in 0..self.primitives.len()
            invariant
                nearest_intersection == first_nearest_upto(self.primitives@, i as nat, *ray),
                nearest_intersection matches Some(h) ==> h.0 < i,
        {
            let primitive = &self.primitives[i];
            let intersection = primitive.intersect(ray);
            if let Some(distance) = intersection {
                match nearest_intersection {
                    None => {
                        nearest_intersection = Some((i, distance));
                    },
                    Some((_, nearest_distance)) => {
                        if distance < nearest_distance {
                            nearest_intersection = Some((i, distance));
                        }
                    },
                }
            }
        }
        nearest_intersection
    }

    /// The nearest hit of the ray among all the primitives, one after
    /// another, with the primitive that is hit.
    pub fn get_nearest_intersection(&self, ray: &Ray) -> (nearest: Option<
        (&Box<dyn Primitive>, i64),
    >)
        ensures
            match first_nearest_upto(self.primitives@, self.primitives.len() as nat, *ray) {
                Some(h) => nearest matches Some(found) && *found.0 == self.primitives@[h.0 as int]
                    && found.1 == h.1,
                None => nearest is None,
            },
    {
        match self.nearest_hit(ray) {
            None => None,
            Some((i, distance)) => Some((&self.primitives[i], distance)),
        }
    }
}

/// What a scan for the nearest hit returns: a hit of the primitive it names,
/// no farther than any hit, and nearer than every hit before it.
pub proof fn lemma_first_nearest_is_least(prims: Seq<Box<dyn Primitive>>, n: nat, ray: Ray)
    requires
        n <= prims.len(),
        n <= usize::MAX,
    ensures
        match first_nearest_upto(prims, n, ray) {
            Some(h) => {
                &&& h.0 < n
                &&& prims[h.0 as int].hit(ray) == Some(h.1)
                &&& forall|i: int|
                    0 <= i < n ==> ((#[trigger] prims[i]).hit(ray) matches Some(d) ==> h.1 <= d && (
                    i < h.0 ==> h.1 < d))
            },
            None => forall|i: int| 0 <= i < n ==> (#[trigger] prims[i]).hit(ray) is None,
        },
    decreases n,
{
    if n > 0 {
        lemma_first_nearest_is_least(prims, (n - 1) as nat, ray);
    }
}

} // verus!
