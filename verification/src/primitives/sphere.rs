use vstd::prelude::*;
use crate::bvh::aabb::AABB;
use crate::fixed::{
    clamp32, dot, dot3, ints, is_sqrt_floor, isqrt, lemma_isqrt_exists, lemma_isqrt_is,
    lemma_product_within, lemma_square_monotone, sqrt_floor, to_i32,
};
use crate::material::Material;
use crate::primitives::primitive::Primitive;
use crate::ray::Ray;
use crate::vector::{components, normalize, normalized, Vec3};
use crate::SCALE;

verus! {

/// A sphere, by its centre and the square of its radius. The square is in
/// units of `1 / (SCALE * SCALE)`, as the square of a fixed-point length is.
pub struct Sphere {
    pub origin: Vec3,
    pub radius2: i64,
    pub material_index: usize,
}

/// The greatest size of a component of a direction that a sphere is tested
/// against: some 53 000 times the unit length.
pub const DIRECTION_LIMIT: i32 = 0x2000_0000;

/// No component of the direction is greater in size than `DIRECTION_LIMIT`.
pub open spec fn direction_counts(d: Vec3) -> bool {
    &&& -DIRECTION_LIMIT <= d.x <= DIRECTION_LIMIT
    &&& -DIRECTION_LIMIT <= d.y <= DIRECTION_LIMIT
    &&& -DIRECTION_LIMIT <= d.z <= DIRECTION_LIMIT
}

impl Sphere {
    /// The radius as far as the box around the sphere reaches: the root of
    /// `radius2`, rounded up.
    pub open spec fn reach(self) -> int {
        let r = isqrt(self.radius2 as int);
        if r * r < self.radius2 {
            r + 1
        } else {
            r
        }
    }

    /// From the ray's origin to the centre.
    pub open spec fn offset_from(self, ray: Ray) -> (int, int, int) {
        (
            self.origin.x - ray.origin.x,
            self.origin.y - ray.origin.y,
            self.origin.z - ray.origin.z,
        )
    }

    /// Where the ray meets the sphere: the parameter `t` at which the point
    /// `origin + t * direction / SCALE` lies on it, which for a direction of
    /// unit length is the distance. The direction counts by its own length,
    /// whatever that is.
    ///
    /// With `l` from the ray's origin to the centre, `a = l . d` and
    /// `D = d . d`: the ray misses if `a` is below 0, and if the square of
    /// the length of `l` across the ray, `(l . l) - a * a / D`, is above
    /// `radius2`. Else the two crossings lie at `(a - root) / D` and
    /// `(a + root) / D` of the direction, where `root` is the root of
    /// `a * a - D * ((l . l) - radius2)`, and the first of them that is not
    /// below 0 counts; root and quotient are rounded down.
    ///
    /// A ray that points nowhere meets nothing, and neither does one whose
    /// direction has a component greater in size than `DIRECTION_LIMIT`.
    pub open spec fn hit_distance(self, ray: Ray) -> Option<i64> {
        let l = self.offset_from(ray);
        let d = components(ray.direction);
        let dd = dot(d, d);
        let a = dot(l, d);
        let ll = dot(l, l);
        if !direction_counts(ray.direction) || dd == 0 {
            None
        } else if a < 0 {
            None
        } else if ll * dd - a * a > self.radius2 * dd {
            None
        } else {
            let root = isqrt(a * a - dd * (ll - self.radius2));
            if a - root >= 0 {
                Some((((a - root) * SCALE) / dd) as i64)
            } else {
                Some((((a + root) * SCALE) / dd) as i64)
            }
        }
    }

    /// The box from `reach()` below the centre to `reach()` above it on each
    /// axis, as far as coordinates go.
    pub open spec fn bounding_box(self) -> AABB {
        let r = self.reach();
        AABB {
            bmin: Vec3 {
                x: clamp32(self.origin.x - r) as i32,
                y: clamp32(self.origin.y - r) as i32,
                z: clamp32(self.origin.z - r) as i32,
            },
            bmax: Vec3 {
                x: clamp32(self.origin.x + r) as i32,
                y: clamp32(self.origin.y + r) as i32,
                z: clamp32(self.origin.z + r) as i32,
            },
        }
    }
}

impl Primitive for Sphere {
    open spec fn hit(&self, ray: Ray) -> Option<i64> {
        self.hit_distance(ray)
    }

    open spec fn material_index(&self) -> usize {
        self.material_index
    }

    /// From the centre to the point, at unit length.
    open spec fn normal(&self, point: Vec3) -> Vec3 {
        normalized(
            (point.x - self.origin.x, point.y - self.origin.y, point.z - self.origin.z),
        )
    }

    open spec fn centroid(&self) -> Vec3 {
        self.origin
    }

    open spec fn bounds(&self) -> AABB {
        self.bounding_box()
    }

    fn intersect(&self, ray: &Ray) -> (distance: Option<i64>) {
        let dir = &ray.direction;
        if dir.x > DIRECTION_LIMIT || dir.x < -DIRECTION_LIMIT || dir.y > DIRECTION_LIMIT || dir.y
            < -DIRECTION_LIMIT || dir.z > DIRECTION_LIMIT || dir.z < -DIRECTION_LIMIT {
            return None;
        }
        let l: (i128, i128, i128) = (
            self.origin.x as i128 - ray.origin.x as i128,
            self.origin.y as i128 - ray.origin.y as i128,
            self.origin.z as i128 - ray.origin.z as i128,
        );
        let d: (i128, i128, i128) = (dir.x as i128, dir.y as i128, dir.z as i128);
        let dd: i128 = dot3(d, d, Ghost(0x2000_0000), Ghost(0x2000_0000));
        if dd == 0 {
            return None;
        }
        let a: i128 = dot3(l, d, Ghost(0xFFFF_FFFF), Ghost(0x2000_0000));
        if a < 0 {
            return None;
        }
        let ll: i128 = dot3(l, l, Ghost(0xFFFF_FFFF), Ghost(0xFFFF_FFFF));
        let r2: i128 = self.radius2 as i128;
        proof {
            assert(dd >= 0 && ll >= 0) by (nonlinear_arith)
                requires
                    dd == d.0 * d.0 + d.1 * d.1 + d.2 * d.2,
                    ll == l.0 * l.0 + l.1 * l.1 + l.2 * l.2,
            ;
            assert(0 <= dd <= 0xC00_0000_0000_0000);
            assert(0 <= ll <= 0x3_0000_0000_0000_0000);
            assert(0 <= a <= 0x6000_0000_0000_0000);
            lemma_product_within(
                ll as int,
                dd as int,
                0x3_0000_0000_0000_0000,
                0xC00_0000_0000_0000,
            );
            lemma_product_within(
                a as int,
                a as int,
                0x6000_0000_0000_0000,
                0x6000_0000_0000_0000,
            );
            lemma_product_within(
                r2 as int,
                dd as int,
                0x8000_0000_0000_0000,
                0xC00_0000_0000_0000,
            );
            assert(dd * (ll - r2) == ll * dd - r2 * dd) by (nonlinear_arith);
            assert(a * a >= 0) by (nonlinear_arith);
        }
        let across: i128 = ll * dd - a * a;
        let allowed: i128 = r2 * dd;
        if across > allowed {
            return None;
        }
        let disc: i128 = a * a - (ll * dd - allowed);
        let root: i128 = sqrt_floor(disc as u128) as i128;
        proof {
            lemma_crossings_within_reach(ints(l), ints(d), r2 as int, root as int);
            let top: int = 0x3_0000_0000int * 10_000;
            lemma_quotient_of_bounded(a - root, dd as int, top);
            lemma_quotient_of_bounded(a + root, dd as int, top);
        }
        let scale: i128 = SCALE as i128;
        if a - root >= 0 {
            Some((((a - root) * scale) / dd) as i64)
        } else {
            Some((((a + root) * scale) / dd) as i64)
        }
    }

    fn get_material(&self, materials: &Vec<Material>) -> (material: Material) {
        materials[self.material_index]
    }

    fn get_normal(&self, intersection_point: &Vec3) -> (normal: Vec3) {
        normalize(
            (
                intersection_point.x as i128 - self.origin.x as i128,
                intersection_point.y as i128 - self.origin.y as i128,
                intersection_point.z as i128 - self.origin.z as i128,
            ),
        )
    }

    fn get_centroid(&self) -> (centroid: Vec3) {
        self.origin
    }

    fn get_bounds(&self) -> (bounds: AABB) {
        let root: i64 = if self.radius2 <= 0 {
            0
        } else {
            let floor: u64 = sqrt_floor(self.radius2 as u128);
            proof {
                if floor > 0xFFFF_FFFF {
                    lemma_square_monotone(0x1_0000_0000, floor as int);
                }
                lemma_product_within(floor as int, floor as int, 0xFFFF_FFFF, 0xFFFF_FFFF);
            }
            if (floor as i128) * (floor as i128) < self.radius2 as i128 {
                floor as i64 + 1
            } else {
                floor as i64
            }
        };
        let bmin = Vec3 {
            x: to_i32(self.origin.x as i128 - root as i128),
            y: to_i32(self.origin.y as i128 - root as i128),
            z: to_i32(self.origin.z as i128 - root as i128),
        };
        let bmax = Vec3 {
            x: to_i32(self.origin.x as i128 + root as i128),
            y: to_i32(self.origin.y as i128 + root as i128),
            z: to_i32(self.origin.z as i128 + root as i128),
        };
        AABB { bmin, bmax }
    }
}

/// Where `l * s` is `d * e`, `(l * k) * s` is `d * (e * k)`.
proof fn lemma_scaled_product(l: int, k: int, s: int, d: int, e: int)
    requires
        l * s == d * e,
    ensures
        (l * k) * s == d * (e * k),
{
    assert((l * k) * s == (l * s) * k) by (nonlinear_arith);
    assert((d * e) * k == d * (e * k)) by (nonlinear_arith);
}

/// Where `l * s` is `d * e`, the square of `l` times that of `s` is the
/// square of `d` times that of `e`.
proof fn lemma_scaled_square(l: int, s: int, d: int, e: int)
    requires
        l * s == d * e,
    ensures
        (l * l) * (s * s) == (d * d) * (e * e),
{
    assert((l * l) * (s * s) == (l * s) * (l * s)) by (nonlinear_arith);
    assert((d * e) * (d * e) == (d * d) * (e * e)) by (nonlinear_arith);
}

/// No whole number is greater in size than its square.
proof fn lemma_size_within_square(x: int)
    ensures
        -(x * x) <= x <= x * x,
{
    assert(-(x * x) <= x <= x * x) by (nonlinear_arith);
}

/// Both crossings of a ray and a sphere lie within reach: the length `a`
/// of the offset along the ray is at most 2^32 times the square of the
/// direction, and the root at most 2^33 times it.
proof fn lemma_crossings_within_reach(
    l: (int, int, int),
    d: (int, int, int),
    r2: int,
    root: int,
)
    requires
        -0xFFFF_FFFF <= l.0 <= 0xFFFF_FFFF && -0xFFFF_FFFF <= l.1 <= 0xFFFF_FFFF && -0xFFFF_FFFF
            <= l.2 <= 0xFFFF_FFFF,
        dot(d, d) > 0,
        dot(l, d) >= 0,
        r2 <= 0x7FFF_FFFF_FFFF_FFFF,
        root >= 0,
        root * root <= dot(l, d) * dot(l, d) - dot(d, d) * (dot(l, l) - r2),
    ensures
        dot(l, d) <= 0x1_0000_0000 * dot(d, d),
        root <= 0x2_0000_0000 * dot(d, d),
{
    let dd = dot(d, d);
    let a = dot(l, d);
    let ll = dot(l, l);
    let edge: int = 0x1_0000_0000;
    lemma_size_within_square(d.0);
    lemma_size_within_square(d.1);
    lemma_size_within_square(d.2);
    lemma_product_within(l.0, d.0, edge, d.0 * d.0);
    lemma_product_within(l.1, d.1, edge, d.1 * d.1);
    lemma_product_within(l.2, d.2, edge, d.2 * d.2);
    lemma_sum_scaled(edge, d.0 * d.0, d.1 * d.1, d.2 * d.2);
    assert(a <= edge * dd);
    // The square of the root is below the square of 2^33 D.
    let far: int = 2 * edge * dd;
    lemma_square_monotone(a, edge * dd);
    assert(ll >= 0) by (nonlinear_arith)
        requires
            ll == l.0 * l.0 + l.1 * l.1 + l.2 * l.2,
    ;
    assert(dd * (ll - r2) >= -(dd * dd) * 0x8000_0000_0000_0000) by (nonlinear_arith)
        requires
            dd >= 1,
            ll >= 0,
            r2 <= 0x7FFF_FFFF_FFFF_FFFF,
    ;
    assert((edge * dd) * (edge * dd) + (dd * dd) * 0x8000_0000_0000_0000 < far * far)
        by (nonlinear_arith)
        requires
            dd >= 1,
            edge == 0x1_0000_0000,
            far == 2 * edge * dd,
    ;
    if root > far {
        lemma_square_monotone(far, root);
    }
}

/// A number between 0 and `top` times a divisor, times `SCALE` over the
/// divisor, lies between 0 and `top` times `SCALE`; below 0 it stays above
/// the same below 0.
proof fn lemma_quotient_of_bounded(x: int, dd: int, top: int)
    requires
        dd > 0,
        top >= 0,
        -(top * dd) <= x <= top * dd,
    ensures
        -(top * SCALE) <= (x * SCALE) / dd <= top * SCALE,
{
    let s = SCALE as int;
    assert(-((top * s) * dd) <= x * s <= (top * s) * dd) by (nonlinear_arith)
        requires
            -(top * dd) <= x <= top * dd,
            s == 10_000,
    ;
    vstd::arithmetic::div_mod::lemma_div_is_ordered(x * s, (top * s) * dd, dd);
    vstd::arithmetic::div_mod::lemma_div_is_ordered(-((top * s) * dd), x * s, dd);
    vstd::arithmetic::div_mod::lemma_div_multiples_vanish(top * s, dd);
    vstd::arithmetic::div_mod::lemma_div_multiples_vanish(-(top * s), dd);
    assert((top * s) * dd == dd * (top * s) && -((top * s) * dd) == dd * (-(top * s)))
        by (nonlinear_arith);
}

/// A ray aimed at the centre of a sphere, whatever the length of its
/// direction: where the offset to the centre is `p / q` of the direction,
/// the ray misses if the centre lies behind, and else never misses. The
/// square across is 0, so the root is that of `D * radius2`, and the hit
/// lies at the centre's parameter less the radius's where the ray starts
/// outside the sphere, and at their sum where it starts inside.
pub proof fn lemma_sphere_on_ray(sphere: Sphere, ray: Ray, p: int, q: int)
    requires
        q > 0,
        sphere.radius2 >= 0,
        direction_counts(ray.direction),
        ray.direction != (Vec3 { x: 0, y: 0, z: 0 }),
        sphere.offset_from(ray).0 * q == p * ray.direction.x,
        sphere.offset_from(ray).1 * q == p * ray.direction.y,
        sphere.offset_from(ray).2 * q == p * ray.direction.z,
    ensures
        ({
            let d = components(ray.direction);
            let dd = dot(d, d);
            let a = dot(sphere.offset_from(ray), d);
            let root = isqrt(dd * sphere.radius2);
            &&& dd > 0
            &&& a * q == p * dd
            &&& dot(sphere.offset_from(ray), sphere.offset_from(ray)) * dd == a * a
            &&& root * root <= dd * sphere.radius2 < (root + 1) * (root + 1)
            &&& p < 0 ==> sphere.hit_distance(ray) is None
            &&& p >= 0 && a >= root ==> sphere.hit_distance(ray) == Some(
                (((a - root) * SCALE) / dd) as i64,
            )
            &&& p >= 0 && a < root ==> sphere.hit_distance(ray) == Some(
                (((a + root) * SCALE) / dd) as i64,
            )
        }),
{
    let l = sphere.offset_from(ray);
    let d = components(ray.direction);
    let dd = dot(d, d);
    let a = dot(l, d);
    let ll = dot(l, l);
    let r2 = sphere.radius2 as int;
    lemma_size_within_square(d.0);
    lemma_size_within_square(d.1);
    lemma_size_within_square(d.2);
    assert(d.0 * d.0 >= 0 && d.1 * d.1 >= 0 && d.2 * d.2 >= 0) by (nonlinear_arith);
    assert(dd > 0);
    // a q = p D, and (l . l) q q = p p D.
    lemma_scaled_product(l.0, d.0, q, p, d.0);
    lemma_scaled_product(l.1, d.1, q, p, d.1);
    lemma_scaled_product(l.2, d.2, q, p, d.2);
    lemma_sum_scaled(p, d.0 * d.0, d.1 * d.1, d.2 * d.2);
    assert(a * q == (l.0 * d.0) * q + (l.1 * d.1) * q + (l.2 * d.2) * q) by (nonlinear_arith)
        requires
            a == l.0 * d.0 + l.1 * d.1 + l.2 * d.2,
    ;
    assert(a * q == p * dd);
    lemma_scaled_square(l.0, q, p, d.0);
    lemma_scaled_square(l.1, q, p, d.1);
    lemma_scaled_square(l.2, q, p, d.2);
    lemma_sum_scaled(p * p, d.0 * d.0, d.1 * d.1, d.2 * d.2);
    assert(ll * (q * q) == (l.0 * l.0) * (q * q) + (l.1 * l.1) * (q * q) + (l.2 * l.2) * (q * q))
        by (nonlinear_arith)
        requires
            ll == l.0 * l.0 + l.1 * l.1 + l.2 * l.2,
    ;
    assert(ll * (q * q) == (p * p) * dd);
    // So the square across is 0.
    assert((ll * dd) * (q * q) == (a * a) * (q * q)) by (nonlinear_arith)
        requires
            ll * (q * q) == (p * p) * dd,
            a * q == p * dd,
    ;
    assert(ll * dd == a * a) by (nonlinear_arith)
        requires
            (ll * dd) * (q * q) == (a * a) * (q * q),
            q > 0,
    ;
    assert(a * a - dd * (ll - r2) == dd * r2) by (nonlinear_arith)
        requires
            ll * dd == a * a,
    ;
    assert(dd * r2 >= 0) by (nonlinear_arith)
        requires
            dd > 0,
            r2 >= 0,
    ;
    assert(r2 * dd == dd * r2) by (nonlinear_arith);
    lemma_isqrt_exists(dd * r2);
    if p < 0 {
        assert(a < 0) by (nonlinear_arith)
            requires
                a * q == p * dd,
                q > 0,
                dd > 0,
                p < 0,
        ;
    } else {
        assert(a >= 0) by (nonlinear_arith)
            requires
                a * q == p * dd,
                q > 0,
                dd > 0,
                p >= 0,
        ;
    }
}

/// A sphere whose centre lies `dist` along a ray of exactly unit direction,
/// with a radius of `r`, is met at `dist - r` where the ray starts outside
/// it and at `dist + r` where it starts inside; it is missed where it lies
/// behind.
pub proof fn lemma_sphere_on_unit_ray(sphere: Sphere, ray: Ray, dist: int, r: int)
    requires
        r >= 0,
        sphere.radius2 == r * r,
        direction_counts(ray.direction),
        dot(components(ray.direction), components(ray.direction)) == SCALE * SCALE,
        sphere.offset_from(ray).0 * SCALE == dist * ray.direction.x,
        sphere.offset_from(ray).1 * SCALE == dist * ray.direction.y,
        sphere.offset_from(ray).2 * SCALE == dist * ray.direction.z,
    ensures
        dist < 0 ==> sphere.hit_distance(ray) is None,
        dist >= r ==> sphere.hit_distance(ray) == Some((dist - r) as i64),
        0 <= dist < r ==> sphere.hit_distance(ray) == Some((dist + r) as i64),
{
    let s = SCALE as int;
    let d = components(ray.direction);
    let dd = dot(d, d);
    let a = dot(sphere.offset_from(ray), d);
    assert(r * r >= 0) by (nonlinear_arith);
    lemma_sphere_on_ray(sphere, ray, dist, s);
    assert(dd == 100_000_000);
    assert(a == dist * s) by (nonlinear_arith)
        requires
            a * s == dist * dd,
            dd == s * s,
            s == 10_000,
    ;
    // The root of D r r is SCALE r.
    assert(dd * (r * r) == (s * r) * (s * r)) by (nonlinear_arith)
        requires
            dd == s * s,
    ;
    assert(is_sqrt_floor((s * r) * (s * r), s * r)) by (nonlinear_arith)
        requires
            r >= 0,
            s == 10_000,
    ;
    lemma_isqrt_is((s * r) * (s * r), s * r);
    let root = isqrt(dd * sphere.radius2);
    assert(root == s * r);
    if dist >= 0 {
        assert(((a - root) * s) == dd * (dist - r) && ((a + root) * s) == dd * (dist + r))
            by (nonlinear_arith)
            requires
                a == dist * s,
                root == s * r,
                dd == s * s,
        ;
        vstd::arithmetic::div_mod::lemma_div_multiples_vanish(dist - r, dd);
        vstd::arithmetic::div_mod::lemma_div_multiples_vanish(dist + r, dd);
        assert((a >= root) <==> (dist >= r)) by (nonlinear_arith)
            requires
                a == dist * s,
                root == s * r,
                s == 10_000,
        ;
        // The distance lies within the coordinates' reach.
        let ll = dot(sphere.offset_from(ray), sphere.offset_from(ray));
        assert(a * a - dd * (ll - sphere.radius2) == dd * sphere.radius2) by (nonlinear_arith)
            requires
                ll * dd == a * a,
        ;
        lemma_crossings_within_reach(sphere.offset_from(ray), d, sphere.radius2 as int, root);
        assert(0 <= dist <= 0x1_0000_0000 * 10_000 && 0 <= r <= 0x2_0000_0000 * 10_000)
            by (nonlinear_arith)
            requires
                dist * s == a,
                s * r == root,
                0 <= a <= 0x1_0000_0000 * dd,
                0 <= root <= 0x2_0000_0000 * dd,
                dd == 100_000_000,
                s == 10_000,
        ;
    }
}

/// The box around the sphere is not cut off at the ends of space.
pub open spec fn box_is_whole(sphere: Sphere) -> bool {
    let r = sphere.reach();
    &&& i32::MIN <= sphere.origin.x - r && sphere.origin.x + r <= i32::MAX
    &&& i32::MIN <= sphere.origin.y - r && sphere.origin.y + r <= i32::MAX
    &&& i32::MIN <= sphere.origin.z - r && sphere.origin.z + r <= i32::MAX
}

/// A ray that hits a sphere meets the box around the sphere, whatever the
/// length of its direction, where that box is whole: the point of the ray
/// that lies nearest to the centre lies within the radius of it.
pub proof fn lemma_hit_meets_box(sphere: Sphere, ray: Ray)
    requires
        sphere.hit_distance(ray) is Some,
        box_is_whole(sphere),
    ensures
        ray.hits_box(sphere.bounding_box()),
{
    let l = sphere.offset_from(ray);
    let d = components(ray.direction);
    let n = dot(l, d);
    let ll = dot(l, l);
    let m = dot(d, d);
    let big = sphere.reach();
    let r2 = sphere.radius2 as int;
    // How far the nearest point lies from the centre, on each axis.
    let vx = l.0 * m - n * d.0;
    let vy = l.1 * m - n * d.1;
    let vz = l.2 * m - n * d.2;
    lemma_offset_squared(l.0, d.0, n, m);
    lemma_offset_squared(l.1, d.1, n, m);
    lemma_offset_squared(l.2, d.2, n, m);
    lemma_sum_scaled(m * m, l.0 * l.0, l.1 * l.1, l.2 * l.2);
    lemma_sum_scaled(2 * m * n, l.0 * d.0, l.1 * d.1, l.2 * d.2);
    lemma_sum_scaled(n * n, d.0 * d.0, d.1 * d.1, d.2 * d.2);
    assert((m * m) * ll - (2 * m * n) * n + (n * n) * m == m * (ll * m - n * n))
        by (nonlinear_arith);
    assert(vx * vx + vy * vy + vz * vz == m * (ll * m - n * n));
    assert(m >= 0) by (nonlinear_arith)
        requires
            m == d.0 * d.0 + d.1 * d.1 + d.2 * d.2,
    ;
    assert(m > 0 && n >= 0 && ll * m - n * n <= r2 * m);
    assert(m * (ll * m - n * n) <= (m * m) * r2) by (nonlinear_arith)
        requires
            ll * m - n * n <= r2 * m,
            m > 0,
    ;
    assert(vx * vx >= 0 && vy * vy >= 0 && vz * vz >= 0) by (nonlinear_arith);
    assert(r2 >= 0) by (nonlinear_arith)
        requires
            vx * vx + vy * vy + vz * vz <= (m * m) * r2,
            vx * vx >= 0 && vy * vy >= 0 && vz * vz >= 0,
            m > 0,
    ;
    lemma_isqrt_exists(r2);
    assert(big * big >= r2 && big >= 0) by {
        let root = isqrt(r2);
        assert((root + 1) * (root + 1) == root * root + 2 * root + 1) by (nonlinear_arith);
    }
    let limit = m * big;
    assert(limit * limit == (m * m) * (big * big)) by (nonlinear_arith)
        requires
            limit == m * big,
    ;
    assert((m * m) * r2 <= (m * m) * (big * big)) by (nonlinear_arith)
        requires
            r2 <= big * big,
            m > 0,
    ;
    assert(limit >= 0) by (nonlinear_arith)
        requires
            limit == m * big,
            big >= 0,
            m > 0,
    ;
    lemma_within_square(vx, limit);
    lemma_within_square(vy, limit);
    lemma_within_square(vz, limit);
    let b = sphere.bounding_box();
    assert(b.bmin.x == sphere.origin.x - big && b.bmax.x == sphere.origin.x + big);
    lemma_axis_within(sphere.origin.x as int, ray.origin.x as int, big, m, n * d.0, vx);
    lemma_axis_within(sphere.origin.y as int, ray.origin.y as int, big, m, n * d.1, vy);
    lemma_axis_within(sphere.origin.z as int, ray.origin.z as int, big, m, n * d.2, vz);
    assert(ray.reaches(b, n, m));
}

/// A factor taken out of a sum of three.
proof fn lemma_sum_scaled(k: int, x: int, y: int, z: int)
    ensures
        k * x + k * y + k * z == k * (x + y + z),
{
    assert(k * x + k * y + k * z == k * (x + y + z)) by (nonlinear_arith);
}

/// The square of `l m - n d`, written out.
proof fn lemma_offset_squared(l: int, d: int, n: int, m: int)
    ensures
        (l * m - n * d) * (l * m - n * d) == (m * m) * (l * l) - (2 * m * n) * (l * d) + (n * n)
            * (d * d),
{
    let x = l * m;
    let y = n * d;
    assert((x - y) * (x - y) == x * x - 2 * (x * y) + y * y) by (nonlinear_arith);
    assert(x * x == (m * m) * (l * l)) by (nonlinear_arith)
        requires
            x == l * m,
    ;
    assert(y * y == (n * n) * (d * d)) by (nonlinear_arith)
        requires
            y == n * d,
    ;
    assert(2 * (x * y) == (2 * m * n) * (l * d)) by (nonlinear_arith)
        requires
            x == l * m,
            y == n * d,
    ;
}

/// A number whose square does not exceed the square of a limit does not
/// exceed the limit in size.
proof fn lemma_within_square(v: int, limit: int)
    requires
        limit >= 0,
        v * v <= limit * limit,
    ensures
        -limit <= v <= limit,
{
    if v > limit {
        lemma_square_monotone(limit + 1, v);
        assert((limit + 1) * (limit + 1) > limit * limit) by (nonlinear_arith)
            requires
                limit >= 0,
        ;
    }
    if v < -limit {
        lemma_square_monotone(limit + 1, -v);
        assert((-v) * (-v) == v * v) by (nonlinear_arith);
        assert((limit + 1) * (limit + 1) > limit * limit) by (nonlinear_arith)
            requires
                limit >= 0,
        ;
    }
}

/// On one axis: a point no farther from the centre than the radius lies
/// between the two faces of the box.
proof fn lemma_axis_within(c: int, o: int, big: int, m: int, step: int, v: int)
    requires
        v == (c - o) * m - step,
        -(m * big) <= v <= m * big,
    ensures
        (c - big) * m <= o * m + step <= (c + big) * m,
{
    assert((c - o) * m == c * m - o * m && (c - big) * m == c * m - m * big && (c + big) * m == c
        * m + m * big) by (nonlinear_arith);
}

} // verus!
