use vstd::prelude::*;
use crate::bvh::aabb::AABB;
use crate::fixed::{
    cross, cross3, div_floor, dot, dot3, lemma_product_within, lemma_triple_product,
};
use crate::material::Material;
use crate::primitives::primitive::Primitive;
use crate::ray::Ray;
use crate::vector::{normalize, normalized, Vec3};
use crate::{EPSILON, SCALE};

verus! {

/// A triangle, by its three corners.
pub struct Triangle {
    pub v0: Vec3,
    pub v1: Vec3,
    pub v2: Vec3,
    pub flip_normal: bool,
    pub material_index: usize,
}

/// From `a` to `b`.
pub open spec fn offset(a: Vec3, b: Vec3) -> (int, int, int) {
    (b.x - a.x, b.y - a.y, b.z - a.z)
}

/// `x` with the sign of the determinant taken out: `x` where the
/// determinant is above 0, else `-x`.
pub open spec fn turned(x: int, det: int) -> int {
    if det > 0 {
        x
    } else {
        -x
    }
}

/// A third of the sum of three coordinates, rounded down.
pub open spec fn third(a: int, b: int, c: int) -> int {
    (a + b + c) / 3
}

fn third_of(a: i32, b: i32, c: i32) -> (r: i32)
    ensures
        r == third(a as int, b as int, c as int),
{
    let sum: i64 = a as i64 + b as i64 + c as i64;
    if sum >= 0 {
        (sum / 3) as i32
    } else {
        let up: i64 = (2 - sum) / 3;
        assert(-up == sum / 3) by (nonlinear_arith)
            requires
                up == (2 - sum) / 3,
                sum < 0,
        ;
        (-up) as i32
    }
}

fn offset_of(a: &Vec3, b: &Vec3) -> (r: (i128, i128, i128))
    ensures
        crate::fixed::ints(r) == offset(*a, *b),
        crate::fixed::within(r, 0xFFFF_FFFF),
{
    (b.x as i128 - a.x as i128, b.y as i128 - a.y as i128, b.z as i128 - a.z as i128)
}

impl Triangle {
    /// The determinant of the ray's direction and the two edges from `v0`:
    /// how far the ray is from running along the triangle's plane.
    pub open spec fn determinant(self, ray: Ray) -> int {
        let e1 = offset(self.v0, self.v1);
        let e2 = offset(self.v0, self.v2);
        let d = (ray.direction.x as int, ray.direction.y as int, ray.direction.z as int);
        dot(e1, cross(d, e2))
    }

    /// Where the ray meets the triangle, for a ray of unit direction, after
    /// Möller and Trumbore. With the edges `e1`, `e2` from `v0`, `t` from
    /// `v0` to the ray's origin, `p` the vector product of the direction and
    /// `e2`, and `q` that of `t` and `e1`: the determinant is `e1 . p`, and
    /// the ray misses where that is nearer to 0 than `EPSILON`. The hit lies
    /// at `u = (t . p) / det` along `e1` and `v = (direction . q) / det`
    /// along `e2`, and the ray misses unless `u` and `v` are not below 0 and
    /// `u + v` is not above 1. The distance is `(e2 . q) / det`, rounded
    /// down; the ray misses where that is below `EPSILON`.
    pub open spec fn hit_distance(self, ray: Ray) -> Option<i64> {
        let e1 = offset(self.v0, self.v1);
        let e2 = offset(self.v0, self.v2);
        let d = (ray.direction.x as int, ray.direction.y as int, ray.direction.z as int);
        let t = offset(self.v0, ray.origin);
        let p = cross(d, e2);
        let det = dot(e1, p);
        if -EPSILON * SCALE * SCALE < det < EPSILON * SCALE * SCALE {
            None
        } else {
            let den = turned(det, det);
            let u = turned(dot(t, p), det);
            if u < 0 || u > den {
                None
            } else {
                let q = cross(t, e1);
                let v = turned(dot(d, q), det);
                if v < 0 || u + v > den {
                    None
                } else {
                    let num = turned(dot(e2, q), det) * SCALE;
                    if num < EPSILON * den {
                        None
                    } else {
                        Some((num / den) as i64)
                    }
                }
            }
        }
    }

    /// The triangle with the three corners, in this order.
    pub fn create_triangle(
        v0: Vec3,
        v1: Vec3,
        v2: Vec3,
        flip_normal: bool,
        material_index: usize,
    ) -> (triangle: Triangle)
        ensures
            triangle.v0 == v0,
            triangle.v1 == v1,
            triangle.v2 == v2,
            triangle.flip_normal == flip_normal,
            triangle.material_index == material_index,
    {
        Triangle { v0, v1, v2, flip_normal, material_index }
    }
}

impl Primitive for Triangle {
    open spec fn hit(&self, ray: Ray) -> Option<i64> {
        self.hit_distance(ray)
    }

    open spec fn material_index(&self) -> usize {
        self.material_index
    }

    /// The same all over the triangle: along the vector product of the two
    /// edges from `v0`, or against it where the normal is flipped. The
    /// product is taken at an eighth of its size, rounded down.
    open spec fn normal(&self, point: Vec3) -> Vec3 {
        let n = cross(offset(self.v0, self.v1), offset(self.v0, self.v2));
        if self.flip_normal {
            normalized(((-n.0) / 8, (-n.1) / 8, (-n.2) / 8))
        } else {
            normalized((n.0 / 8, n.1 / 8, n.2 / 8))
        }
    }

    open spec fn centroid(&self) -> Vec3 {
        Vec3 {
            x: third(self.v0.x as int, self.v1.x as int, self.v2.x as int) as i32,
            y: third(self.v0.y as int, self.v1.y as int, self.v2.y as int) as i32,
            z: third(self.v0.z as int, self.v1.z as int, self.v2.z as int) as i32,
        }
    }

    open spec fn bounds(&self) -> AABB {
        AABB::empty().grown_by_point(self.v0).grown_by_point(self.v1).grown_by_point(self.v2)
    }

    fn get_material(&self, materials: &Vec<Material>) -> (material: Material) {
        materials[self.material_index]
    }

    fn intersect(&self, ray: &Ray) -> (distance: Option<i64>) {
        let ghost edge: int = 0xFFFF_FFFF;
        let ghost step: int = 0x8000_0000;
        let e1 = offset_of(&self.v0, &self.v1);
        let e2 = offset_of(&self.v0, &self.v2);
        let d: (i128, i128, i128) = (
            ray.direction.x as i128,
            ray.direction.y as i128,
            ray.direction.z as i128,
        );
        let t = offset_of(&self.v0, &ray.origin);
        let p = cross3(d, e2, Ghost(step), Ghost(edge));
        let det: i128 = dot3(e1, p, Ghost(edge), Ghost(2 * (step * edge)));
        let limit: i128 = (EPSILON * SCALE * SCALE) as i128;
        if det < limit && det > -limit {
            return None;
        }
        let u_raw: i128 = dot3(t, p, Ghost(edge), Ghost(2 * (step * edge)));
        let den: i128 = if det > 0 {
            det
        } else {
            -det
        };
        let u: i128 = if det > 0 {
            u_raw
        } else {
            -u_raw
        };
        if u < 0 || u > den {
            return None;
        }
        let q = cross3(t, e1, Ghost(edge), Ghost(edge));
        let v_raw: i128 = dot3(d, q, Ghost(step), Ghost(2 * (edge * edge)));
        let v: i128 = if det > 0 {
            v_raw
        } else {
            -v_raw
        };
        if v < 0 || u + v > den {
            return None;
        }
        let w_raw: i128 = dot3(e2, q, Ghost(edge), Ghost(2 * (edge * edge)));
        let w: i128 = if det > 0 {
            w_raw
        } else {
            -w_raw
        };
        proof {
            lemma_product_within(w as int, SCALE as int, 3 * (edge * (2 * (edge * edge))), 10_000);
        }
        let num: i128 = w * (SCALE as i128);
        assert((EPSILON as i128) * den == den) by (nonlinear_arith)
            requires
                EPSILON == 1,
        ;
        if num < (EPSILON as i128) * den {
            return None;
        }
        let dist: i128 = num / den;
        proof {
            lemma_hit_within_reach(
                crate::fixed::ints(e1),
                crate::fixed::ints(e2),
                crate::fixed::ints(d),
                crate::fixed::ints(t),
            );
            let reach: int = 3 * 0xFFFF_FFFFint * 10_000;
            assert(num <= den * reach) by (nonlinear_arith)
                requires
                    num == w * 10_000,
                    w <= 3 * 0xFFFF_FFFF * den,
                    reach == 3 * 0xFFFF_FFFF * 10_000,
            ;
            vstd::arithmetic::div_mod::lemma_div_is_ordered(
                num as int,
                den * reach,
                den as int,
            );
            vstd::arithmetic::div_mod::lemma_div_multiples_vanish(reach, den as int);
        }
        Some(dist as i64)
    }

    fn get_normal(&self, _intersection_point: &Vec3) -> (normal: Vec3) {
        let ghost edge: int = 0xFFFF_FFFF;
        let e1 = offset_of(&self.v0, &self.v1);
        let e2 = offset_of(&self.v0, &self.v2);
        let n = cross3(e1, e2, Ghost(edge), Ghost(edge));
        if self.flip_normal {
            normalize((div_floor(-n.0, 8), div_floor(-n.1, 8), div_floor(-n.2, 8)))
        } else {
            normalize((div_floor(n.0, 8), div_floor(n.1, 8), div_floor(n.2, 8)))
        }
    }

    fn get_centroid(&self) -> (centroid: Vec3) {
        Vec3 {
            x: third_of(self.v0.x, self.v1.x, self.v2.x),
            y: third_of(self.v0.y, self.v1.y, self.v2.y),
            z: third_of(self.v0.z, self.v1.z, self.v2.z),
        }
    }

    fn get_bounds(&self) -> (bounds: AABB) {
        let mut bounds = AABB::new();
        bounds.grow_by_point(&self.v0);
        bounds.grow_by_point(&self.v1);
        bounds.grow_by_point(&self.v2);
        bounds
    }
}

/// The rule of Cramer for three edges and a direction: with `p = d x c` and
/// `q = t x a`, the vector `(c . q) d` is `(t . p) a + (d . q) c - (a . p) t`.
pub proof fn lemma_cramer(
    a: (int, int, int),
    c: (int, int, int),
    d: (int, int, int),
    t: (int, int, int),
)
    ensures
        ({
            let p = cross(d, c);
            let q = cross(t, a);
            &&& dot(c, q) * d.0 == dot(t, p) * a.0 + dot(d, q) * c.0 - dot(a, p) * t.0
            &&& dot(c, q) * d.1 == dot(t, p) * a.1 + dot(d, q) * c.1 - dot(a, p) * t.1
            &&& dot(c, q) * d.2 == dot(t, p) * a.2 + dot(d, q) * c.2 - dot(a, p) * t.2
        }),
{
    let (a0, a1, a2) = a;
    let (c0, c1, c2) = c;
    let (d0, d1, d2) = d;
    let (t0, t1, t2) = t;
    let det = dot(a, cross(d, c));
    let u = dot(t, cross(d, c));
    let v = dot(d, cross(t, a));
    let w = dot(c, cross(t, a));
    // Each of the four is a sum of six products of three.
    assert(a0 * (d1 * c2) == a0 * c2 * d1) by (nonlinear_arith);
    assert(a0 * (d2 * c1) == a0 * c1 * d2) by (nonlinear_arith);
    assert(a1 * (d2 * c0) == a1 * c0 * d2) by (nonlinear_arith);
    assert(a1 * (d0 * c2) == a1 * c2 * d0) by (nonlinear_arith);
    assert(a2 * (d0 * c1) == a2 * c1 * d0) by (nonlinear_arith);
    assert(a2 * (d1 * c0) == a2 * c0 * d1) by (nonlinear_arith);
    assert(a0 * (d1 * c2 - d2 * c1) == a0 * (d1 * c2) - a0 * (d2 * c1)) by (nonlinear_arith);
    assert(a1 * (d2 * c0 - d0 * c2) == a1 * (d2 * c0) - a1 * (d0 * c2)) by (nonlinear_arith);
    assert(a2 * (d0 * c1 - d1 * c0) == a2 * (d0 * c1) - a2 * (d1 * c0)) by (nonlinear_arith);
    assert(det == a0 * c2 * d1 - a0 * c1 * d2 + a1 * c0 * d2 - a1 * c2 * d0 + a2 * c1 * d0 - a2 * c0 * d1);
    assert(t0 * (d1 * c2) == c2 * d1 * t0) by (nonlinear_arith);
    assert(t0 * (d2 * c1) == c1 * d2 * t0) by (nonlinear_arith);
    assert(t1 * (d2 * c0) == c0 * d2 * t1) by (nonlinear_arith);
    assert(t1 * (d0 * c2) == c2 * d0 * t1) by (nonlinear_arith);
    assert(t2 * (d0 * c1) == c1 * d0 * t2) by (nonlinear_arith);
    assert(t2 * (d1 * c0) == c0 * d1 * t2) by (nonlinear_arith);
    assert(t0 * (d1 * c2 - d2 * c1) == t0 * (d1 * c2) - t0 * (d2 * c1)) by (nonlinear_arith);
    assert(t1 * (d2 * c0 - d0 * c2) == t1 * (d2 * c0) - t1 * (d0 * c2)) by (nonlinear_arith);
    assert(t2 * (d0 * c1 - d1 * c0) == t2 * (d0 * c1) - t2 * (d1 * c0)) by (nonlinear_arith);
    assert(u == c2 * d1 * t0 - c1 * d2 * t0 + c0 * d2 * t1 - c2 * d0 * t1 + c1 * d0 * t2 - c0 * d1 * t2);
    assert(d0 * (t1 * a2) == a2 * d0 * t1) by (nonlinear_arith);
    assert(d0 * (t2 * a1) == a1 * d0 * t2) by (nonlinear_arith);
    assert(d1 * (t2 * a0) == a0 * d1 * t2) by (nonlinear_arith);
    assert(d1 * (t0 * a2) == a2 * d1 * t0) by (nonlinear_arith);
    assert(d2 * (t0 * a1) == a1 * d2 * t0) by (nonlinear_arith);
    assert(d2 * (t1 * a0) == a0 * d2 * t1) by (nonlinear_arith);
    assert(d0 * (t1 * a2 - t2 * a1) == d0 * (t1 * a2) - d0 * (t2 * a1)) by (nonlinear_arith);
    assert(d1 * (t2 * a0 - t0 * a2) == d1 * (t2 * a0) - d1 * (t0 * a2)) by (nonlinear_arith);
    assert(d2 * (t0 * a1 - t1 * a0) == d2 * (t0 * a1) - d2 * (t1 * a0)) by (nonlinear_arith);
    assert(v == a2 * d0 * t1 - a1 * d0 * t2 + a0 * d1 * t2 - a2 * d1 * t0 + a1 * d2 * t0 - a0 * d2 * t1);
    assert(c0 * (t1 * a2) == a2 * c0 * t1) by (nonlinear_arith);
    assert(c0 * (t2 * a1) == a1 * c0 * t2) by (nonlinear_arith);
    assert(c1 * (t2 * a0) == a0 * c1 * t2) by (nonlinear_arith);
    assert(c1 * (t0 * a2) == a2 * c1 * t0) by (nonlinear_arith);
    assert(c2 * (t0 * a1) == a1 * c2 * t0) by (nonlinear_arith);
    assert(c2 * (t1 * a0) == a0 * c2 * t1) by (nonlinear_arith);
    assert(c0 * (t1 * a2 - t2 * a1) == c0 * (t1 * a2) - c0 * (t2 * a1)) by (nonlinear_arith);
    assert(c1 * (t2 * a0 - t0 * a2) == c1 * (t2 * a0) - c1 * (t0 * a2)) by (nonlinear_arith);
    assert(c2 * (t0 * a1 - t1 * a0) == c2 * (t0 * a1) - c2 * (t1 * a0)) by (nonlinear_arith);
    assert(w == a2 * c0 * t1 - a1 * c0 * t2 + a0 * c1 * t2 - a2 * c1 * t0 + a1 * c2 * t0 - a0 * c2 * t1);
    // Component 0: each side is a sum of products of four.
    assert(det * t0 == (a0 * c2 * d1) * t0 - (a0 * c1 * d2) * t0 + (a1 * c0 * d2) * t0 - (a1 * c2 * d0) * t0 + (a2 * c1 * d0) * t0 - (a2 * c0 * d1) * t0) by (nonlinear_arith)
        requires
            det == a0 * c2 * d1 - a0 * c1 * d2 + a1 * c0 * d2 - a1 * c2 * d0 + a2 * c1 * d0 - a2 * c0 * d1,
    ;
    assert((a0 * c2 * d1) * t0 == a0 * c2 * d1 * t0) by (nonlinear_arith);
    assert((a0 * c1 * d2) * t0 == a0 * c1 * d2 * t0) by (nonlinear_arith);
    assert((a1 * c0 * d2) * t0 == a1 * c0 * d2 * t0) by (nonlinear_arith);
    assert((a1 * c2 * d0) * t0 == a1 * c2 * d0 * t0) by (nonlinear_arith);
    assert((a2 * c1 * d0) * t0 == a2 * c1 * d0 * t0) by (nonlinear_arith);
    assert((a2 * c0 * d1) * t0 == a2 * c0 * d1 * t0) by (nonlinear_arith);
    assert(u * a0 == (c2 * d1 * t0) * a0 - (c1 * d2 * t0) * a0 + (c0 * d2 * t1) * a0 - (c2 * d0 * t1) * a0 + (c1 * d0 * t2) * a0 - (c0 * d1 * t2) * a0) by (nonlinear_arith)
        requires
            u == c2 * d1 * t0 - c1 * d2 * t0 + c0 * d2 * t1 - c2 * d0 * t1 + c1 * d0 * t2 - c0 * d1 * t2,
    ;
    assert((c2 * d1 * t0) * a0 == a0 * c2 * d1 * t0) by (nonlinear_arith);
    assert((c1 * d2 * t0) * a0 == a0 * c1 * d2 * t0) by (nonlinear_arith);
    assert((c0 * d2 * t1) * a0 == a0 * c0 * d2 * t1) by (nonlinear_arith);
    assert((c2 * d0 * t1) * a0 == a0 * c2 * d0 * t1) by (nonlinear_arith);
    assert((c1 * d0 * t2) * a0 == a0 * c1 * d0 * t2) by (nonlinear_arith);
    assert((c0 * d1 * t2) * a0 == a0 * c0 * d1 * t2) by (nonlinear_arith);
    assert(v * c0 == (a2 * d0 * t1) * c0 - (a1 * d0 * t2) * c0 + (a0 * d1 * t2) * c0 - (a2 * d1 * t0) * c0 + (a1 * d2 * t0) * c0 - (a0 * d2 * t1) * c0) by (nonlinear_arith)
        requires
            v == a2 * d0 * t1 - a1 * d0 * t2 + a0 * d1 * t2 - a2 * d1 * t0 + a1 * d2 * t0 - a0 * d2 * t1,
    ;
    assert((a2 * d0 * t1) * c0 == a2 * c0 * d0 * t1) by (nonlinear_arith);
    assert((a1 * d0 * t2) * c0 == a1 * c0 * d0 * t2) by (nonlinear_arith);
    assert((a0 * d1 * t2) * c0 == a0 * c0 * d1 * t2) by (nonlinear_arith);
    assert((a2 * d1 * t0) * c0 == a2 * c0 * d1 * t0) by (nonlinear_arith);
    assert((a1 * d2 * t0) * c0 == a1 * c0 * d2 * t0) by (nonlinear_arith);
    assert((a0 * d2 * t1) * c0 == a0 * c0 * d2 * t1) by (nonlinear_arith);
    assert(w * d0 == (a2 * c0 * t1) * d0 - (a1 * c0 * t2) * d0 + (a0 * c1 * t2) * d0 - (a2 * c1 * t0) * d0 + (a1 * c2 * t0) * d0 - (a0 * c2 * t1) * d0) by (nonlinear_arith)
        requires
            w == a2 * c0 * t1 - a1 * c0 * t2 + a0 * c1 * t2 - a2 * c1 * t0 + a1 * c2 * t0 - a0 * c2 * t1,
    ;
    assert((a2 * c0 * t1) * d0 == a2 * c0 * d0 * t1) by (nonlinear_arith);
    assert((a1 * c0 * t2) * d0 == a1 * c0 * d0 * t2) by (nonlinear_arith);
    assert((a0 * c1 * t2) * d0 == a0 * c1 * d0 * t2) by (nonlinear_arith);
    assert((a2 * c1 * t0) * d0 == a2 * c1 * d0 * t0) by (nonlinear_arith);
    assert((a1 * c2 * t0) * d0 == a1 * c2 * d0 * t0) by (nonlinear_arith);
    assert((a0 * c2 * t1) * d0 == a0 * c2 * d0 * t1) by (nonlinear_arith);
    assert(w * d0 == u * a0 + v * c0 - det * t0);
    // Component 1: each side is a sum of products of four.
    assert(det * t1 == (a0 * c2 * d1) * t1 - (a0 * c1 * d2) * t1 + (a1 * c0 * d2) * t1 - (a1 * c2 * d0) * t1 + (a2 * c1 * d0) * t1 - (a2 * c0 * d1) * t1) by (nonlinear_arith)
        requires
            det == a0 * c2 * d1 - a0 * c1 * d2 + a1 * c0 * d2 - a1 * c2 * d0 + a2 * c1 * d0 - a2 * c0 * d1,
    ;
    assert((a0 * c2 * d1) * t1 == a0 * c2 * d1 * t1) by (nonlinear_arith);
    assert((a0 * c1 * d2) * t1 == a0 * c1 * d2 * t1) by (nonlinear_arith);
    assert((a1 * c0 * d2) * t1 == a1 * c0 * d2 * t1) by (nonlinear_arith);
    assert((a1 * c2 * d0) * t1 == a1 * c2 * d0 * t1) by (nonlinear_arith);
    assert((a2 * c1 * d0) * t1 == a2 * c1 * d0 * t1) by (nonlinear_arith);
    assert((a2 * c0 * d1) * t1 == a2 * c0 * d1 * t1) by (nonlinear_arith);
    assert(u * a1 == (c2 * d1 * t0) * a1 - (c1 * d2 * t0) * a1 + (c0 * d2 * t1) * a1 - (c2 * d0 * t1) * a1 + (c1 * d0 * t2) * a1 - (c0 * d1 * t2) * a1) by (nonlinear_arith)
        requires
            u == c2 * d1 * t0 - c1 * d2 * t0 + c0 * d2 * t1 - c2 * d0 * t1 + c1 * d0 * t2 - c0 * d1 * t2,
    ;
    assert((c2 * d1 * t0) * a1 == a1 * c2 * d1 * t0) by (nonlinear_arith);
    assert((c1 * d2 * t0) * a1 == a1 * c1 * d2 * t0) by (nonlinear_arith);
    assert((c0 * d2 * t1) * a1 == a1 * c0 * d2 * t1) by (nonlinear_arith);
    assert((c2 * d0 * t1) * a1 == a1 * c2 * d0 * t1) by (nonlinear_arith);
    assert((c1 * d0 * t2) * a1 == a1 * c1 * d0 * t2) by (nonlinear_arith);
    assert((c0 * d1 * t2) * a1 == a1 * c0 * d1 * t2) by (nonlinear_arith);
    assert(v * c1 == (a2 * d0 * t1) * c1 - (a1 * d0 * t2) * c1 + (a0 * d1 * t2) * c1 - (a2 * d1 * t0) * c1 + (a1 * d2 * t0) * c1 - (a0 * d2 * t1) * c1) by (nonlinear_arith)
        requires
            v == a2 * d0 * t1 - a1 * d0 * t2 + a0 * d1 * t2 - a2 * d1 * t0 + a1 * d2 * t0 - a0 * d2 * t1,
    ;
    assert((a2 * d0 * t1) * c1 == a2 * c1 * d0 * t1) by (nonlinear_arith);
    assert((a1 * d0 * t2) * c1 == a1 * c1 * d0 * t2) by (nonlinear_arith);
    assert((a0 * d1 * t2) * c1 == a0 * c1 * d1 * t2) by (nonlinear_arith);
    assert((a2 * d1 * t0) * c1 == a2 * c1 * d1 * t0) by (nonlinear_arith);
    assert((a1 * d2 * t0) * c1 == a1 * c1 * d2 * t0) by (nonlinear_arith);
    assert((a0 * d2 * t1) * c1 == a0 * c1 * d2 * t1) by (nonlinear_arith);
    assert(w * d1 == (a2 * c0 * t1) * d1 - (a1 * c0 * t2) * d1 + (a0 * c1 * t2) * d1 - (a2 * c1 * t0) * d1 + (a1 * c2 * t0) * d1 - (a0 * c2 * t1) * d1) by (nonlinear_arith)
        requires
            w == a2 * c0 * t1 - a1 * c0 * t2 + a0 * c1 * t2 - a2 * c1 * t0 + a1 * c2 * t0 - a0 * c2 * t1,
    ;
    assert((a2 * c0 * t1) * d1 == a2 * c0 * d1 * t1) by (nonlinear_arith);
    assert((a1 * c0 * t2) * d1 == a1 * c0 * d1 * t2) by (nonlinear_arith);
    assert((a0 * c1 * t2) * d1 == a0 * c1 * d1 * t2) by (nonlinear_arith);
    assert((a2 * c1 * t0) * d1 == a2 * c1 * d1 * t0) by (nonlinear_arith);
    assert((a1 * c2 * t0) * d1 == a1 * c2 * d1 * t0) by (nonlinear_arith);
    assert((a0 * c2 * t1) * d1 == a0 * c2 * d1 * t1) by (nonlinear_arith);
    assert(w * d1 == u * a1 + v * c1 - det * t1);
    // Component 2: each side is a sum of products of four.
    assert(det * t2 == (a0 * c2 * d1) * t2 - (a0 * c1 * d2) * t2 + (a1 * c0 * d2) * t2 - (a1 * c2 * d0) * t2 + (a2 * c1 * d0) * t2 - (a2 * c0 * d1) * t2) by (nonlinear_arith)
        requires
            det == a0 * c2 * d1 - a0 * c1 * d2 + a1 * c0 * d2 - a1 * c2 * d0 + a2 * c1 * d0 - a2 * c0 * d1,
    ;
    assert((a0 * c2 * d1) * t2 == a0 * c2 * d1 * t2) by (nonlinear_arith);
    assert((a0 * c1 * d2) * t2 == a0 * c1 * d2 * t2) by (nonlinear_arith);
    assert((a1 * c0 * d2) * t2 == a1 * c0 * d2 * t2) by (nonlinear_arith);
    assert((a1 * c2 * d0) * t2 == a1 * c2 * d0 * t2) by (nonlinear_arith);
    assert((a2 * c1 * d0) * t2 == a2 * c1 * d0 * t2) by (nonlinear_arith);
    assert((a2 * c0 * d1) * t2 == a2 * c0 * d1 * t2) by (nonlinear_arith);
    assert(u * a2 == (c2 * d1 * t0) * a2 - (c1 * d2 * t0) * a2 + (c0 * d2 * t1) * a2 - (c2 * d0 * t1) * a2 + (c1 * d0 * t2) * a2 - (c0 * d1 * t2) * a2) by (nonlinear_arith)
        requires
            u == c2 * d1 * t0 - c1 * d2 * t0 + c0 * d2 * t1 - c2 * d0 * t1 + c1 * d0 * t2 - c0 * d1 * t2,
    ;
    assert((c2 * d1 * t0) * a2 == a2 * c2 * d1 * t0) by (nonlinear_arith);
    assert((c1 * d2 * t0) * a2 == a2 * c1 * d2 * t0) by (nonlinear_arith);
    assert((c0 * d2 * t1) * a2 == a2 * c0 * d2 * t1) by (nonlinear_arith);
    assert((c2 * d0 * t1) * a2 == a2 * c2 * d0 * t1) by (nonlinear_arith);
    assert((c1 * d0 * t2) * a2 == a2 * c1 * d0 * t2) by (nonlinear_arith);
    assert((c0 * d1 * t2) * a2 == a2 * c0 * d1 * t2) by (nonlinear_arith);
    assert(v * c2 == (a2 * d0 * t1) * c2 - (a1 * d0 * t2) * c2 + (a0 * d1 * t2) * c2 - (a2 * d1 * t0) * c2 + (a1 * d2 * t0) * c2 - (a0 * d2 * t1) * c2) by (nonlinear_arith)
        requires
            v == a2 * d0 * t1 - a1 * d0 * t2 + a0 * d1 * t2 - a2 * d1 * t0 + a1 * d2 * t0 - a0 * d2 * t1,
    ;
    assert((a2 * d0 * t1) * c2 == a2 * c2 * d0 * t1) by (nonlinear_arith);
    assert((a1 * d0 * t2) * c2 == a1 * c2 * d0 * t2) by (nonlinear_arith);
    assert((a0 * d1 * t2) * c2 == a0 * c2 * d1 * t2) by (nonlinear_arith);
    assert((a2 * d1 * t0) * c2 == a2 * c2 * d1 * t0) by (nonlinear_arith);
    assert((a1 * d2 * t0) * c2 == a1 * c2 * d2 * t0) by (nonlinear_arith);
    assert((a0 * d2 * t1) * c2 == a0 * c2 * d2 * t1) by (nonlinear_arith);
    assert(w * d2 == (a2 * c0 * t1) * d2 - (a1 * c0 * t2) * d2 + (a0 * c1 * t2) * d2 - (a2 * c1 * t0) * d2 + (a1 * c2 * t0) * d2 - (a0 * c2 * t1) * d2) by (nonlinear_arith)
        requires
            w == a2 * c0 * t1 - a1 * c0 * t2 + a0 * c1 * t2 - a2 * c1 * t0 + a1 * c2 * t0 - a0 * c2 * t1,
    ;
    assert((a2 * c0 * t1) * d2 == a2 * c0 * d2 * t1) by (nonlinear_arith);
    assert((a1 * c0 * t2) * d2 == a1 * c0 * d2 * t2) by (nonlinear_arith);
    assert((a0 * c1 * t2) * d2 == a0 * c1 * d2 * t2) by (nonlinear_arith);
    assert((a2 * c1 * t0) * d2 == a2 * c1 * d2 * t0) by (nonlinear_arith);
    assert((a1 * c2 * t0) * d2 == a1 * c2 * d2 * t0) by (nonlinear_arith);
    assert((a0 * c2 * t1) * d2 == a0 * c2 * d2 * t1) by (nonlinear_arith);
    assert(w * d2 == u * a2 + v * c2 - det * t2);
}

/// The rule of Cramer with the sign of the determinant taken out.
proof fn lemma_cramer_turned(
    a: (int, int, int),
    c: (int, int, int),
    d: (int, int, int),
    t: (int, int, int),
)
    ensures
        ({
            let det = dot(a, cross(d, c));
            let den = turned(det, det);
            let u = turned(dot(t, cross(d, c)), det);
            let v = turned(dot(d, cross(t, a)), det);
            let w = turned(dot(c, cross(t, a)), det);
            &&& w * d.0 == u * a.0 + v * c.0 - den * t.0
            &&& w * d.1 == u * a.1 + v * c.1 - den * t.1
            &&& w * d.2 == u * a.2 + v * c.2 - den * t.2
        }),
{
    lemma_cramer(a, c, d, t);
    let det0 = dot(a, cross(d, c));
    let u0 = dot(t, cross(d, c));
    let v0 = dot(d, cross(t, a));
    let w0 = dot(c, cross(t, a));
    if det0 <= 0 {
        assert((-w0) * d.0 == -(w0 * d.0) && (-u0) * a.0 == -(u0 * a.0) && (-v0) * c.0 == -(v0
            * c.0) && (-det0) * t.0 == -(det0 * t.0)) by (nonlinear_arith);
        assert((-w0) * d.1 == -(w0 * d.1) && (-u0) * a.1 == -(u0 * a.1) && (-v0) * c.1 == -(v0
            * c.1) && (-det0) * t.1 == -(det0 * t.1)) by (nonlinear_arith);
        assert((-w0) * d.2 == -(w0 * d.2) && (-u0) * a.2 == -(u0 * a.2) && (-v0) * c.2 == -(v0
            * c.2) && (-det0) * t.2 == -(det0 * t.2)) by (nonlinear_arith);
    }
}

/// A hit on a triangle lies no farther off than three times the widest
/// edge: the distance times the determinant is at most that much times the
/// determinant.
proof fn lemma_hit_within_reach(
    a: (int, int, int),
    c: (int, int, int),
    d: (int, int, int),
    t: (int, int, int),
)
    requires
        -0xFFFF_FFFF <= a.0 <= 0xFFFF_FFFF && -0xFFFF_FFFF <= a.1 <= 0xFFFF_FFFF && -0xFFFF_FFFF
            <= a.2 <= 0xFFFF_FFFF,
        -0xFFFF_FFFF <= c.0 <= 0xFFFF_FFFF && -0xFFFF_FFFF <= c.1 <= 0xFFFF_FFFF && -0xFFFF_FFFF
            <= c.2 <= 0xFFFF_FFFF,
        -0xFFFF_FFFF <= t.0 <= 0xFFFF_FFFF && -0xFFFF_FFFF <= t.1 <= 0xFFFF_FFFF && -0xFFFF_FFFF
            <= t.2 <= 0xFFFF_FFFF,
        dot(a, cross(d, c)) != 0,
        0 <= turned(dot(t, cross(d, c)), dot(a, cross(d, c))),
        0 <= turned(dot(d, cross(t, a)), dot(a, cross(d, c))),
        turned(dot(t, cross(d, c)), dot(a, cross(d, c))) + turned(
            dot(d, cross(t, a)),
            dot(a, cross(d, c)),
        ) <= turned(dot(a, cross(d, c)), dot(a, cross(d, c))),
    ensures
        turned(dot(c, cross(t, a)), dot(a, cross(d, c))) <= 3 * 0xFFFF_FFFF * turned(
            dot(a, cross(d, c)),
            dot(a, cross(d, c)),
        ),
{
    let det = dot(a, cross(d, c));
    let den = turned(det, det);
    let u = turned(dot(t, cross(d, c)), det);
    let v = turned(dot(d, cross(t, a)), det);
    let w = turned(dot(c, cross(t, a)), det);
    let edge: int = 0xFFFF_FFFF;
    lemma_cramer_turned(a, c, d, t);
    if w > 0 {
        if d.0 != 0 {
            lemma_reach_along(w, d.0, u, a.0, v, c.0, den, t.0);
        } else if d.1 != 0 {
            lemma_reach_along(w, d.1, u, a.1, v, c.1, den, t.1);
        } else if d.2 != 0 {
            lemma_reach_along(w, d.2, u, a.2, v, c.2, den, t.2);
        } else {
            // Without a direction there is no determinant.
            assert(det == 0) by (nonlinear_arith)
                requires
                    d.0 == 0,
                    d.1 == 0,
                    d.2 == 0,
                    det == a.0 * (d.1 * c.2 - d.2 * c.1) + a.1 * (d.2 * c.0 - d.0 * c.2) + a.2 * (
                    d.0 * c.1 - d.1 * c.0),
            ;
        }
    } else {
        assert(0 <= 3 * edge * den) by (nonlinear_arith)
            requires
                den > 0,
                edge == 0xFFFF_FFFF,
        ;
    }
}

/// Along one axis on which the ray moves, the distance is held by the
/// three edges.
proof fn lemma_reach_along(w: int, dk: int, u: int, ak: int, v: int, ck: int, den: int, tk: int)
    requires
        w > 0,
        dk != 0,
        w * dk == u * ak + v * ck - den * tk,
        0 <= u <= den,
        0 <= v <= den,
        -0xFFFF_FFFF <= ak <= 0xFFFF_FFFF,
        -0xFFFF_FFFF <= ck <= 0xFFFF_FFFF,
        -0xFFFF_FFFF <= tk <= 0xFFFF_FFFF,
    ensures
        w <= 3 * 0xFFFF_FFFF * den,
{
    let edge: int = 0xFFFF_FFFF;
    lemma_product_within(u, ak, den, edge);
    lemma_product_within(v, ck, den, edge);
    lemma_product_within(den, tk, den, edge);
    assert(-(3 * (den * edge)) <= w * dk <= 3 * (den * edge));
    assert(w <= w * dk || w <= -(w * dk)) by (nonlinear_arith)
        requires
            w > 0,
            dk != 0,
    ;
    assert(3 * (den * edge) == 3 * edge * den) by (nonlinear_arith);
}

/// A ray that hits a triangle meets the box around the triangle: the point
/// of the hit lies between the three corners.
pub proof fn lemma_hit_lies_in_box(triangle: Triangle, ray: Ray)
    requires
        triangle.hit_distance(ray) is Some,
    ensures
        ray.hits_box(triangle.bounds()),
{
    let a = offset(triangle.v0, triangle.v1);
    let c = offset(triangle.v0, triangle.v2);
    let d = (ray.direction.x as int, ray.direction.y as int, ray.direction.z as int);
    let t = offset(triangle.v0, ray.origin);
    let det = dot(a, cross(d, c));
    let den = turned(det, det);
    let u = turned(dot(t, cross(d, c)), det);
    let v = turned(dot(d, cross(t, a)), det);
    let w = turned(dot(c, cross(t, a)), det);
    let b = triangle.bounds();
    lemma_cramer_turned(a, c, d, t);
    assert(den > 0);
    assert(w >= 0) by {
        assert(w * SCALE >= EPSILON * den);
        assert(EPSILON * den > 0) by (nonlinear_arith)
            requires
                den > 0,
                EPSILON == 1,
        ;
        assert(w * SCALE > 0 ==> w > 0) by (nonlinear_arith)
            requires
                SCALE == 10_000,
        ;
    }
    lemma_between_corners(
        den,
        u,
        v,
        w * d.0,
        triangle.v0.x as int,
        triangle.v1.x as int,
        triangle.v2.x as int,
        ray.origin.x as int,
        b.bmin.x as int,
        b.bmax.x as int,
    );
    lemma_between_corners(
        den,
        u,
        v,
        w * d.1,
        triangle.v0.y as int,
        triangle.v1.y as int,
        triangle.v2.y as int,
        ray.origin.y as int,
        b.bmin.y as int,
        b.bmax.y as int,
    );
    lemma_between_corners(
        den,
        u,
        v,
        w * d.2,
        triangle.v0.z as int,
        triangle.v1.z as int,
        triangle.v2.z as int,
        ray.origin.z as int,
        b.bmin.z as int,
        b.bmax.z as int,
    );
    assert(ray.reaches(b, w, den));
}

/// On one axis: a point that is `u` parts of one corner and `v` parts of
/// another, and the rest of `den` parts of the third, lies between the
/// least and the greatest of the three.
proof fn lemma_between_corners(
    den: int,
    u: int,
    v: int,
    step: int,
    x0: int,
    x1: int,
    x2: int,
    o: int,
    lo: int,
    hi: int,
)
    requires
        den > 0,
        0 <= u,
        0 <= v,
        u + v <= den,
        step == u * (x1 - x0) + v * (x2 - x0) - den * (o - x0),
        lo <= x0 <= hi,
        lo <= x1 <= hi,
        lo <= x2 <= hi,
    ensures
        lo * den <= o * den + step <= hi * den,
{
    let rest = den - u - v;
    assert(o * den + step == rest * x0 + u * x1 + v * x2) by (nonlinear_arith)
        requires
            step == u * (x1 - x0) + v * (x2 - x0) - den * (o - x0),
            rest == den - u - v,
    ;
    assert(rest * lo <= rest * x0 <= rest * hi) by (nonlinear_arith)
        requires
            rest >= 0,
            lo <= x0 <= hi,
    ;
    assert(u * lo <= u * x1 <= u * hi) by (nonlinear_arith)
        requires
            u >= 0,
            lo <= x1 <= hi,
    ;
    assert(v * lo <= v * x2 <= v * hi) by (nonlinear_arith)
        requires
            v >= 0,
            lo <= x2 <= hi,
    ;
    assert(lo * den == rest * lo + u * lo + v * lo && hi * den == rest * hi + u * hi + v * hi)
        by (nonlinear_arith)
        requires
            rest == den - u - v,
    ;
}

/// Where three times `q t` is `q (a + c) - 3 p d`, component by component,
/// the same holds of the products of the four vectors with any fifth.
proof fn lemma_combination_times(
    t: (int, int, int),
    a: (int, int, int),
    c: (int, int, int),
    d: (int, int, int),
    x: (int, int, int),
    p: int,
    q: int,
)
    requires
        3 * (q * t.0) == q * (a.0 + c.0) - 3 * (p * d.0),
        3 * (q * t.1) == q * (a.1 + c.1) - 3 * (p * d.1),
        3 * (q * t.2) == q * (a.2 + c.2) - 3 * (p * d.2),
    ensures
        3 * (q * dot(t, x)) == q * dot(a, x) + q * dot(c, x) - 3 * (p * dot(d, x)),
{
    lemma_component_times(t.0, a.0, c.0, d.0, x.0, p, q);
    lemma_component_times(t.1, a.1, c.1, d.1, x.1, p, q);
    lemma_component_times(t.2, a.2, c.2, d.2, x.2, p, q);
    assert(q * dot(t, x) == q * (t.0 * x.0) + q * (t.1 * x.1) + q * (t.2 * x.2))
        by (nonlinear_arith)
        requires
            dot(t, x) == t.0 * x.0 + t.1 * x.1 + t.2 * x.2,
    ;
    assert(q * dot(a, x) == q * (a.0 * x.0) + q * (a.1 * x.1) + q * (a.2 * x.2))
        by (nonlinear_arith)
        requires
            dot(a, x) == a.0 * x.0 + a.1 * x.1 + a.2 * x.2,
    ;
    assert(q * dot(c, x) == q * (c.0 * x.0) + q * (c.1 * x.1) + q * (c.2 * x.2))
        by (nonlinear_arith)
        requires
            dot(c, x) == c.0 * x.0 + c.1 * x.1 + c.2 * x.2,
    ;
    assert(p * dot(d, x) == p * (d.0 * x.0) + p * (d.1 * x.1) + p * (d.2 * x.2))
        by (nonlinear_arith)
        requires
            dot(d, x) == d.0 * x.0 + d.1 * x.1 + d.2 * x.2,
    ;
}

/// One component of `lemma_combination_times`.
proof fn lemma_component_times(t: int, a: int, c: int, d: int, x: int, p: int, q: int)
    requires
        3 * (q * t) == q * (a + c) - 3 * (p * d),
    ensures
        3 * (q * (t * x)) == q * (a * x) + q * (c * x) - 3 * (p * (d * x)),
{
    assert((3 * (q * t)) * x == 3 * (q * (t * x))) by (nonlinear_arith);
    assert((q * (a + c) - 3 * (p * d)) * x == q * (a * x) + q * (c * x) - 3 * (p * (d * x)))
        by (nonlinear_arith);
}

/// Two quotients of numbers in the same ratio are the same, rounded down.
proof fn lemma_same_ratio(x: int, y: int, z: int, u: int)
    requires
        y > 0,
        u > 0,
        x * u == z * y,
    ensures
        x / y == z / u,
{
    let k = z / u;
    let r = z % u;
    vstd::arithmetic::div_mod::lemma_fundamental_div_mod(z, u);
    vstd::arithmetic::div_mod::lemma_mod_bound(z, u);
    // k u <= z < (k + 1) u, so (k y) u <= x u < ((k + 1) y) u.
    assert(u * k == k * u && (k + 1) * u == k * u + u) by (nonlinear_arith);
    assert(k * u <= z < (k + 1) * u);
    assert((k * y) * u <= x * u < ((k + 1) * y) * u) by (nonlinear_arith)
        requires
            k * u <= z < (k + 1) * u,
            x * u == z * y,
            y > 0,
    ;
    assert(k * y <= x < (k + 1) * y) by (nonlinear_arith)
        requires
            (k * y) * u <= x * u < ((k + 1) * y) * u,
            u > 0,
    ;
    assert((k + 1) * y == k * y + y) by (nonlinear_arith);
    vstd::arithmetic::div_mod::lemma_fundamental_div_mod_converse_div(x, y, k, x - k * y);
}

/// A ray through the centroid of a triangle hits it, from either side,
/// unless it runs nearly along the plane or meets the centroid nearer than
/// `EPSILON`: where the point at `p / q` of the direction is a third of the
/// sum of the three corners, the hit lies at `p / q`, and a third of the way
/// along each of the two edges from `v0`.
pub proof fn lemma_ray_through_centroid_hits(triangle: Triangle, ray: Ray, p: int, q: int)
    requires
        q > 0,
        p * SCALE >= EPSILON * q,
        !(-EPSILON * SCALE * SCALE < triangle.determinant(ray) < EPSILON * SCALE * SCALE),
        3 * (ray.origin.x * q + p * ray.direction.x) == q * (triangle.v0.x + triangle.v1.x
            + triangle.v2.x),
        3 * (ray.origin.y * q + p * ray.direction.y) == q * (triangle.v0.y + triangle.v1.y
            + triangle.v2.y),
        3 * (ray.origin.z * q + p * ray.direction.z) == q * (triangle.v0.z + triangle.v1.z
            + triangle.v2.z),
    ensures
        triangle.hit_distance(ray) == Some(((p * SCALE) / q) as i64),
        ({
            let e1 = offset(triangle.v0, triangle.v1);
            let e2 = offset(triangle.v0, triangle.v2);
            let d = (ray.direction.x as int, ray.direction.y as int, ray.direction.z as int);
            let t = offset(triangle.v0, ray.origin);
            &&& 3 * dot(t, cross(d, e2)) == triangle.determinant(ray)
            &&& 3 * dot(d, cross(t, e1)) == triangle.determinant(ray)
        }),
{
    let a = offset(triangle.v0, triangle.v1);
    let c = offset(triangle.v0, triangle.v2);
    let d = (ray.direction.x as int, ray.direction.y as int, ray.direction.z as int);
    let t = offset(triangle.v0, ray.origin);
    let det = dot(a, cross(d, c));
    let u0 = dot(t, cross(d, c));
    let v0 = dot(d, cross(t, a));
    let w0 = dot(c, cross(t, a));
    // Three times q t is q (a + c) - 3 p d.
    assert(3 * (q * t.0) == q * (a.0 + c.0) - 3 * (p * d.0)) by (nonlinear_arith)
        requires
            3 * (ray.origin.x * q + p * d.0) == q * (triangle.v0.x + triangle.v1.x
                + triangle.v2.x),
            t.0 == ray.origin.x - triangle.v0.x,
            a.0 == triangle.v1.x - triangle.v0.x,
            c.0 == triangle.v2.x - triangle.v0.x,
    ;
    assert(3 * (q * t.1) == q * (a.1 + c.1) - 3 * (p * d.1)) by (nonlinear_arith)
        requires
            3 * (ray.origin.y * q + p * d.1) == q * (triangle.v0.y + triangle.v1.y
                + triangle.v2.y),
            t.1 == ray.origin.y - triangle.v0.y,
            a.1 == triangle.v1.y - triangle.v0.y,
            c.1 == triangle.v2.y - triangle.v0.y,
    ;
    assert(3 * (q * t.2) == q * (a.2 + c.2) - 3 * (p * d.2)) by (nonlinear_arith)
        requires
            3 * (ray.origin.z * q + p * d.2) == q * (triangle.v0.z + triangle.v1.z
                + triangle.v2.z),
            t.2 == ray.origin.z - triangle.v0.z,
            a.2 == triangle.v1.z - triangle.v0.z,
            c.2 == triangle.v2.z - triangle.v0.z,
    ;
    // u: along d x c.
    lemma_combination_times(t, a, c, d, cross(d, c), p, q);
    lemma_triple_product(c, d, c);
    lemma_triple_product(d, d, c);
    assert(3 * (q * u0) == q * det);
    // v: d . (t x a) is t . (a x d).
    lemma_triple_product(d, t, a);
    lemma_combination_times(t, a, c, d, cross(a, d), p, q);
    lemma_triple_product(a, a, d);
    lemma_triple_product(a, d, c);
    lemma_triple_product(d, a, d);
    assert(3 * (q * v0) == q * det);
    // w: c . (t x a) is t . (a x c).
    lemma_triple_product(c, t, a);
    lemma_combination_times(t, a, c, d, cross(a, c), p, q);
    lemma_triple_product(a, a, c);
    lemma_triple_product(c, a, c);
    lemma_triple_product(d, a, c);
    lemma_triple_product(d, c, a);
    assert(dot(d, cross(a, c)) == -det);
    assert(p * dot(d, cross(a, c)) == -(p * det)) by (nonlinear_arith)
        requires
            dot(d, cross(a, c)) == -det,
    ;
    assert(3 * (q * w0) == 3 * (p * det));
    assert(3 * u0 == det && 3 * v0 == det) by (nonlinear_arith)
        requires
            3 * (q * u0) == q * det,
            3 * (q * v0) == q * det,
            q > 0,
    ;
    let den = turned(det, det);
    let u = turned(u0, det);
    let v = turned(v0, det);
    let w = turned(w0, det);
    assert(den > 0);
    assert(3 * u == den && 3 * v == den);
    assert(q * w == p * den) by (nonlinear_arith)
        requires
            3 * (q * w0) == 3 * (p * det),
            (w == w0 && den == det) || (w == -w0 && den == -det),
    ;
    let num = w * SCALE;
    assert(num * q == (p * SCALE) * den) by (nonlinear_arith)
        requires
            q * w == p * den,
            num == w * SCALE,
    ;
    assert(num >= EPSILON * den) by (nonlinear_arith)
        requires
            num * q == (p * SCALE) * den,
            p * SCALE >= EPSILON * q,
            q > 0,
            den > 0,
            EPSILON == 1,
    ;
    lemma_same_ratio(num, den, p * SCALE, q);
}

/// A ray that runs along the plane of a triangle misses it.
pub proof fn lemma_ray_along_plane_misses(triangle: Triangle, ray: Ray)
    requires
        triangle.determinant(ray) == 0,
    ensures
        triangle.hit_distance(ray) is None,
{
}

} // verus!
