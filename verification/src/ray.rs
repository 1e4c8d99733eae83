use vstd::prelude::*;
use crate::bvh::aabb::AABB;
use crate::camera::Camera;
use crate::fixed::{div_floor, fx_mul, lemma_product_within};
use crate::screen::Screen;
use crate::vector::{clamp_vector, clamped, normalize, normalized, Vec3};
use crate::SCALE;

verus! {

/// A half-line: where it starts and where it points. A direction of length
/// `SCALE` is a unit direction. A distance `t` along the ray means the point
/// `origin + t * direction / SCALE`: it counts in lengths of the direction,
/// whatever they are, so that a direction that is a little too short or too
/// long, as rounding leaves it, still leads to the right point.
#[derive(Clone, Copy, Debug, PartialEq, Eq, Structural)]
pub struct Ray {
    pub origin: Vec3,
    pub direction: Vec3,
}

/// `an / ad` does not exceed `bn / bd`, for denominators above 0.
pub open spec fn frac_le(an: int, ad: int, bn: int, bd: int) -> bool {
    an * bd <= bn * ad
}

/// A stretch of a ray: the parameters from `enter_n / enter_d` on, up to
/// `exit.0 / exit.1` where there is an exit.
#[derive(Clone, Copy, Debug)]
pub struct Stretch {
    pub enter_n: i128,
    pub enter_d: i128,
    pub exit: Option<(i128, i128)>,
}

impl Stretch {
    /// The whole ray: from parameter 0 on.
    pub open spec fn whole() -> Stretch {
        Stretch { enter_n: 0, enter_d: 1, exit: None }
    }

    /// The ends are differences of coordinates over a coordinate above 0.
    pub open spec fn well_formed(self) -> bool {
        &&& 0 <= self.enter_n <= 0xFFFF_FFFF
        &&& 0 < self.enter_d <= 0x8000_0000
        &&& self.exit matches Some(x) ==> -0xFFFF_FFFF <= x.0 <= 0xFFFF_FFFF && 0 < x.1
            <= 0x8000_0000
    }

    /// The parameter `n / m` lies on the stretch.
    pub open spec fn holds(self, n: int, m: int) -> bool {
        &&& frac_le(self.enter_n as int, self.enter_d as int, n, m)
        &&& self.exit matches Some(x) ==> frac_le(n, m, x.0 as int, x.1 as int)
    }

    /// Some parameter lies on the stretch.
    pub open spec fn inhabited(self) -> bool {
        self.exit matches Some(x) ==> frac_le(
            self.enter_n as int,
            self.enter_d as int,
            x.0 as int,
            x.1 as int,
        )
    }

    /// What is left of the stretch between the two planes `lo` and `hi`
    /// across one axis, for a ray that starts at `o` and moves by `d` there:
    /// all or nothing where the ray runs along the planes, else the part
    /// from the nearer plane to the farther one.
    pub open spec fn clipped(self, o: int, d: int, lo: int, hi: int) -> Option<Stretch> {
        if d == 0 {
            if lo <= o <= hi {
                Some(self)
            } else {
                None
            }
        } else {
            let near = if d > 0 {
                lo - o
            } else {
                o - hi
            };
            let far = if d > 0 {
                hi - o
            } else {
                o - lo
            };
            let den = if d > 0 {
                d
            } else {
                -d
            };
            let (enter_n, enter_d) = if near * self.enter_d > self.enter_n * den {
                (near as i128, den as i128)
            } else {
                (self.enter_n, self.enter_d)
            };
            let exit = match self.exit {
                Some(x) => if far * x.1 < x.0 * den {
                    Some((far as i128, den as i128))
                } else {
                    Some(x)
                },
                None => Some((far as i128, den as i128)),
            };
            Some(Stretch { enter_n, enter_d, exit })
        }
    }

    fn clip(&self, o: i32, d: i32, lo: i32, hi: i32) -> (rest: Option<Stretch>)
        requires
            self.well_formed(),
        ensures
            rest == self.clipped(o as int, d as int, lo as int, hi as int),
            rest matches Some(r) ==> r.well_formed(),
    {
        if d == 0 {
            if lo <= o && o <= hi {
                Some(*self)
            } else {
                None
            }
        } else {
            let near: i128 = if d > 0 {
                lo as i128 - o as i128
            } else {
                o as i128 - hi as i128
            };
            let far: i128 = if d > 0 {
                hi as i128 - o as i128
            } else {
                o as i128 - lo as i128
            };
            let den: i128 = if d > 0 {
                d as i128
            } else {
                -(d as i128)
            };
            proof {
                lemma_cross_bound(near as int, self.enter_d as int);
                lemma_cross_bound(self.enter_n as int, den as int);
            }
            let mut rest = *self;
            if near * self.enter_d > self.enter_n * den {
                rest.enter_n = near;
                rest.enter_d = den;
                assert(near * self.enter_d > 0 ==> near > 0) by (nonlinear_arith)
                    requires
                        self.enter_d > 0,
                ;
                assert(self.enter_n * den >= 0) by (nonlinear_arith)
                    requires
                        self.enter_n >= 0,
                        den > 0,
                ;
            }
            match self.exit {
                Some(x) => {
                    proof {
                        lemma_cross_bound(far as int, x.1 as int);
                        lemma_cross_bound(x.0 as int, den as int);
                    }
                    if far * x.1 < x.0 * den {
                        rest.exit = Some((far, den));
                    }
                },
                None => {
                    rest.exit = Some((far, den));
                },
            }
            Some(rest)
        }
    }
}

/// A difference of coordinates times a coordinate fits well in an `i128`.
proof fn lemma_cross_bound(a: int, b: int)
    requires
        -0xFFFF_FFFF <= a <= 0xFFFF_FFFF,
        0 <= b <= 0x8000_0000,
    ensures
        -0xFFFF_FFFF * 0x8000_0000 <= a * b <= 0xFFFF_FFFF * 0x8000_0000,
{
    assert(-0xFFFF_FFFF * 0x8000_0000 <= a * b <= 0xFFFF_FFFF * 0x8000_0000) by (nonlinear_arith)
        requires
            -0xFFFF_FFFF <= a <= 0xFFFF_FFFF,
            0 <= b <= 0x8000_0000,
    ;
}

/// The order of fractions passes on: what does not exceed a second that does
/// not exceed a third does not exceed the third.
pub proof fn lemma_frac_le_trans(an: int, ad: int, bn: int, bd: int, cn: int, cd: int)
    requires
        ad > 0,
        bd > 0,
        cd > 0,
        frac_le(an, ad, bn, bd),
        frac_le(bn, bd, cn, cd),
    ensures
        frac_le(an, ad, cn, cd),
{
    assert((an * bd) * cd <= (bn * ad) * cd) by (nonlinear_arith)
        requires
            an * bd <= bn * ad,
            cd > 0,
    ;
    assert((bn * cd) * ad <= (cn * bd) * ad) by (nonlinear_arith)
        requires
            bn * cd <= cn * bd,
            ad > 0,
    ;
    assert((an * cd) * bd <= (cn * ad) * bd) by (nonlinear_arith)
        requires
            (an * bd) * cd <= (bn * ad) * cd,
            (bn * cd) * ad <= (cn * bd) * ad,
    ;
    assert(an * cd <= cn * ad) by (nonlinear_arith)
        requires
            (an * cd) * bd <= (cn * ad) * bd,
            bd > 0,
    ;
}

/// A parameter lies on what is left of a stretch between two planes just
/// when it lies on the stretch and the ray's point there lies between the
/// planes.
pub proof fn lemma_clipped_holds(s: Stretch, o: int, d: int, lo: int, hi: int, n: int, m: int)
    requires
        s.enter_d > 0,
        s.exit matches Some(x) ==> x.1 > 0,
        m > 0,
        -0x8000_0000 <= o < 0x8000_0000,
        -0x8000_0000 <= d < 0x8000_0000,
        -0x8000_0000 <= lo < 0x8000_0000,
        -0x8000_0000 <= hi < 0x8000_0000,
    ensures
        (s.holds(n, m) && lo * m <= o * m + n * d <= hi * m) <==> (s.clipped(o, d, lo, hi) matches Some(
            r,
        ) && r.holds(n, m)),
{
    if d == 0 {
        assert(n * d == 0) by (nonlinear_arith)
            requires
                d == 0,
        ;
        assert((lo * m <= o * m) <==> lo <= o) by (nonlinear_arith)
            requires
                m > 0,
        ;
        assert((o * m <= hi * m) <==> o <= hi) by (nonlinear_arith)
            requires
                m > 0,
        ;
    } else {
        let near = if d > 0 {
            lo - o
        } else {
            o - hi
        };
        let far = if d > 0 {
            hi - o
        } else {
            o - lo
        };
        let den = if d > 0 {
            d
        } else {
            -d
        };
        let r = s.clipped(o, d, lo, hi).unwrap();
        // Between the planes is from the nearer crossing to the farther one.
        assert((lo * m <= o * m + n * d <= hi * m) <==> (frac_le(near, den, n, m) && frac_le(
            n,
            m,
            far,
            den,
        ))) by (nonlinear_arith)
            requires
                near == if d > 0 {
                    lo - o
                } else {
                    o - hi
                },
                far == if d > 0 {
                    hi - o
                } else {
                    o - lo
                },
                den == if d > 0 {
                    d
                } else {
                    -d
                },
                d != 0,
        ;
        // The later of two entries.
        if near * s.enter_d > s.enter_n * den {
            if frac_le(near, den, n, m) {
                lemma_frac_le_trans(s.enter_n as int, s.enter_d as int, near, den, n, m);
            }
        } else {
            if frac_le(s.enter_n as int, s.enter_d as int, n, m) {
                lemma_frac_le_trans(near, den, s.enter_n as int, s.enter_d as int, n, m);
            }
        }
        // The earlier of two exits.
        if let Some(x) = s.exit {
            if far * x.1 < x.0 * den {
                if frac_le(n, m, far, den) {
                    lemma_frac_le_trans(n, m, far, den, x.0 as int, x.1 as int);
                }
            } else {
                if frac_le(n, m, x.0 as int, x.1 as int) {
                    lemma_frac_le_trans(n, m, x.0 as int, x.1 as int, far, den);
                }
            }
        }
    }
}

impl Ray {
    /// The ray's point at the parameter `n / m` lies in the box.
    pub open spec fn reaches(self, b: AABB, n: int, m: int) -> bool {
        &&& m > 0
        &&& n >= 0
        &&& b.bmin.x * m <= self.origin.x * m + n * self.direction.x <= b.bmax.x * m
        &&& b.bmin.y * m <= self.origin.y * m + n * self.direction.y <= b.bmax.y * m
        &&& b.bmin.z * m <= self.origin.z * m + n * self.direction.z <= b.bmax.z * m
    }

    /// Some point of the ray lies in the box.
    pub open spec fn hits_box(self, b: AABB) -> bool {
        exists|n: int, m: int| self.reaches(b, n, m)
    }

    /// What is left of the ray between the three pairs of planes of the box.
    pub open spec fn stretch_in(self, b: AABB) -> Option<Stretch> {
        match Stretch::whole().clipped(
            self.origin.x as int,
            self.direction.x as int,
            b.bmin.x as int,
            b.bmax.x as int,
        ) {
            None => None,
            Some(sx) => match sx.clipped(
                self.origin.y as int,
                self.direction.y as int,
                b.bmin.y as int,
                b.bmax.y as int,
            ) {
                None => None,
                Some(sy) => sy.clipped(
                    self.origin.z as int,
                    self.direction.z as int,
                    b.bmin.z as int,
                    b.bmax.z as int,
                ),
            },
        }
    }

    /// The point that lies `dist` along the ray, for a ray of unit direction:
    /// each coordinate of the origin plus `dist` times the direction's,
    /// rounded down, as far as coordinates go.
    pub open spec fn point_at(self, dist: i64) -> Vec3 {
        clamped(
            (
                self.origin.x + fx_mul(self.direction.x as int, dist as int),
                self.origin.y + fx_mul(self.direction.y as int, dist as int),
                self.origin.z + fx_mul(self.direction.z as int, dist as int),
            ),
        )
    }

    /// The point that lies `dist` along the ray.
    pub fn get_intersection_point(&self, dist: i64) -> (point: Vec3)
        ensures
            point == self.point_at(dist),
    {
        proof {
            lemma_product_within(
                self.direction.x as int,
                dist as int,
                0x8000_0000,
                0x8000_0000_0000_0000,
            );
            lemma_product_within(
                self.direction.y as int,
                dist as int,
                0x8000_0000,
                0x8000_0000_0000_0000,
            );
            lemma_product_within(
                self.direction.z as int,
                dist as int,
                0x8000_0000,
                0x8000_0000_0000_0000,
            );
        }
        let scale: i128 = SCALE as i128;
        let step_x: i128 = div_floor(self.direction.x as i128 * dist as i128, scale);
        let step_y: i128 = div_floor(self.direction.y as i128 * dist as i128, scale);
        let step_z: i128 = div_floor(self.direction.z as i128 * dist as i128, scale);
        clamp_vector(
            (
                self.origin.x as i128 + step_x,
                self.origin.y as i128 + step_y,
                self.origin.z as i128 + step_z,
            ),
        )
    }

    /// The point of the screen behind the pixel `(x, y)`, on one axis: the
    /// corner where the pixels start, plus `x` of `width` parts of the way
    /// along the first row and `y` of `height` parts of the way down, each
    /// rounded down.
    pub open spec fn screen_point(x: int, y: int, screen: Screen, axis: int) -> int {
        screen.p0.axis(axis) + (x * (screen.p1.axis(axis) - screen.p0.axis(axis))) / (
        screen.width as int) + (y * (screen.p2.axis(axis) - screen.p0.axis(axis))) / (
        screen.height as int)
    }

    /// The ray from the camera through the pixel `(x, y)` of the screen.
    pub open spec fn through_pixel(x: int, y: int, camera: Camera, screen: Screen) -> Ray {
        Ray {
            origin: camera.origin,
            direction: normalized(
                (
                    Ray::screen_point(x, y, screen, 0) - camera.origin.x,
                    Ray::screen_point(x, y, screen, 1) - camera.origin.y,
                    Ray::screen_point(x, y, screen, 2) - camera.origin.z,
                ),
            ),
        }
    }

    /// Sends the ray from the camera through the pixel `(x, y)` of the
    /// screen.
    pub fn update_prim(&mut self, x: usize, y: usize, camera: &Camera, screen: &Screen)
        requires
            screen.width > 0,
            screen.height > 0,
        ensures
            *final(self) == Ray::through_pixel(x as int, y as int, *camera, *screen),
    {
        let w: i128 = screen.width as i128;
        let h: i128 = screen.height as i128;
        let px: i128 = Ray::pixel_on_axis(x, y, screen.p0.x, screen.p1.x, screen.p2.x, w, h);
        let py: i128 = Ray::pixel_on_axis(x, y, screen.p0.y, screen.p1.y, screen.p2.y, w, h);
        let pz: i128 = Ray::pixel_on_axis(x, y, screen.p0.z, screen.p1.z, screen.p2.z, w, h);
        let ray_direction: Vec3 = normalize(
            (
                px - camera.origin.x as i128,
                py - camera.origin.y as i128,
                pz - camera.origin.z as i128,
            ),
        );
        let ray_origin: Vec3 = camera.origin;

        self.origin = ray_origin;
        self.direction = ray_direction;
    }

    /// The same as `update_prim`.
    pub fn update(&mut self, x: usize, y: usize, camera: &Camera, screen: &Screen)
        requires
            screen.width > 0,
            screen.height > 0,
        ensures
            *final(self) == Ray::through_pixel(x as int, y as int, *camera, *screen),
    {
        self.update_prim(x, y, camera, screen);
    }

    fn pixel_on_axis(x: usize, y: usize, p0: i32, p1: i32, p2: i32, w: i128, h: i128) -> (p: i128)
        requires
            0 < w <= u32::MAX,
            0 < h <= u32::MAX,
        ensures
            p == p0 + (x * (p1 - p0)) / (w as int) + (y * (p2 - p0)) / (h as int),
            -0x4_0000_0000_0000_0000_0000_0000 <= p <= 0x4_0000_0000_0000_0000_0000_0000,
    {
        let along: i128 = p1 as i128 - p0 as i128;
        let down: i128 = p2 as i128 - p0 as i128;
        proof {
            lemma_product_within(x as int, along as int, 0x1_0000_0000_0000_0000, 0xFFFF_FFFF);
            lemma_product_within(y as int, down as int, 0x1_0000_0000_0000_0000, 0xFFFF_FFFF);
        }
        let step_x: i128 = div_floor(x as i128 * along, w);
        let step_y: i128 = div_floor(y as i128 * down, h);
        proof {
            let limit: int = 0x1_0000_0000_0000_0000int * 0xFFFF_FFFF;
            lemma_quotient_within(x * along, w as int, limit);
            lemma_quotient_within(y * down, h as int, limit);
        }
        p0 as i128 + step_x + step_y
    }

    /// The same as `init`.
    pub fn initial() -> (ray: Ray)
        ensures
            ray.origin == (Vec3 { x: 0, y: 0, z: 0 }),
            ray.direction == (Vec3 { x: 0, y: 0, z: 0 }),
    {
        Ray::init()
    }

    /// The ray at the origin that points nowhere.
    pub fn init() -> (ray: Ray)
        ensures
            ray.origin == (Vec3 { x: 0, y: 0, z: 0 }),
            ray.direction == (Vec3 { x: 0, y: 0, z: 0 }),
    {
        Ray { origin: Vec3::zeros(), direction: Vec3::zeros() }
    }

    /// Sets where the ray starts and where it points.
    pub fn update_shadow(&mut self, origin: Vec3, direction: Vec3)
        ensures
            final(self).origin == origin,
            final(self).direction == direction,
    {
        self.origin = origin;
        self.direction = direction;
    }

    /// Whether the ray meets the box: the ray is cut down to what lies
    /// between each pair of the box's planes in turn, and meets the box if
    /// something is left.
    pub fn intersect_bounds(&self, bounds: &AABB) -> (hit: bool)
        ensures
            hit == self.hits_box(*bounds),
    {
        proof {
            lemma_stretch_in_box(*self, *bounds);
        }
        let whole = Stretch { enter_n: 0, enter_d: 1, exit: None };
        let sx = match whole.clip(self.origin.x, self.direction.x, bounds.bmin.x, bounds.bmax.x) {
            None => {
                return false;
            },
            Some(sx) => sx,
        };
        let sy = match sx.clip(self.origin.y, self.direction.y, bounds.bmin.y, bounds.bmax.y) {
            None => {
                return false;
            },
            Some(sy) => sy,
        };
        let sz = match sy.clip(self.origin.z, self.direction.z, bounds.bmin.z, bounds.bmax.z) {
            None => {
                return false;
            },
            Some(sz) => sz,
        };
        match sz.exit {
            None => true,
            Some(x) => {
                proof {
                    lemma_cross_bound(x.0 as int, sz.enter_d as int);
                    lemma_cross_bound(sz.enter_n as int, x.1 as int);
                }
                sz.enter_n * x.1 <= x.0 * sz.enter_d
            },
        }
    }
}

/// A ray meets a box just when something is left of it between the three
/// pairs of planes of the box.
pub proof fn lemma_stretch_in_box(ray: Ray, b: AABB)
    ensures
        ray.hits_box(b) <==> (ray.stretch_in(b) matches Some(s) && s.inhabited()),
        forall|n: int, m: int|
            m > 0 ==> (#[trigger] ray.reaches(b, n, m) <==> (ray.stretch_in(b) matches Some(s)
                && s.holds(n, m))),
{
    let w = Stretch::whole();
    let (ox, dx, lx, hx) = (
        ray.origin.x as int,
        ray.direction.x as int,
        b.bmin.x as int,
        b.bmax.x as int,
    );
    let (oy, dy, ly, hy) = (
        ray.origin.y as int,
        ray.direction.y as int,
        b.bmin.y as int,
        b.bmax.y as int,
    );
    let (oz, dz, lz, hz) = (
        ray.origin.z as int,
        ray.direction.z as int,
        b.bmin.z as int,
        b.bmax.z as int,
    );
    assert forall|n: int, m: int| m > 0 implies (#[trigger] ray.reaches(b, n, m) <==> (
    ray.stretch_in(b) matches Some(s) && s.holds(n, m))) by {
        assert(w.holds(n, m) <==> n >= 0) by (nonlinear_arith)
            requires
                w.holds(n, m) <==> 0 * m <= n * 1,
        ;
        lemma_clipped_holds(w, ox, dx, lx, hx, n, m);
        if let Some(sx) = w.clipped(ox, dx, lx, hx) {
            lemma_clipped_denominators(w, ox, dx, lx, hx);
            lemma_clipped_holds(sx, oy, dy, ly, hy, n, m);
            if let Some(sy) = sx.clipped(oy, dy, ly, hy) {
                lemma_clipped_denominators(sx, oy, dy, ly, hy);
                lemma_clipped_holds(sy, oz, dz, lz, hz, n, m);
            }
        }
    }
    if let Some(s) = ray.stretch_in(b) {
        let sx = w.clipped(ox, dx, lx, hx).unwrap();
        let sy = sx.clipped(oy, dy, ly, hy).unwrap();
        lemma_clipped_denominators(w, ox, dx, lx, hx);
        lemma_clipped_denominators(sx, oy, dy, ly, hy);
        lemma_clipped_denominators(sy, oz, dz, lz, hz);
        if s.inhabited() {
            assert(s.holds(s.enter_n as int, s.enter_d as int));
            assert(ray.reaches(b, s.enter_n as int, s.enter_d as int));
        }
        if ray.hits_box(b) {
            let (n, m) = choose|n: int, m: int| ray.reaches(b, n, m);
            assert(ray.reaches(b, n, m));
            assert(s.holds(n, m));
            if let Some(x) = s.exit {
                lemma_frac_le_trans(
                    s.enter_n as int,
                    s.enter_d as int,
                    n,
                    m,
                    x.0 as int,
                    x.1 as int,
                );
            }
        }
    } else {
        if ray.hits_box(b) {
            let (n, m) = choose|n: int, m: int| ray.reaches(b, n, m);
            assert(ray.reaches(b, n, m));
        }
    }
}

/// What is left of a stretch with denominators above 0 has denominators
/// above 0.
proof fn lemma_clipped_denominators(s: Stretch, o: int, d: int, lo: int, hi: int)
    requires
        s.enter_d > 0,
        s.exit matches Some(x) ==> x.1 > 0,
        -0x8000_0000 <= d <= 0x8000_0000,
    ensures
        s.clipped(o, d, lo, hi) matches Some(r) ==> r.enter_d > 0 && (r.exit matches Some(x)
            ==> x.1 > 0),
{
}

/// A ray that meets a box meets every box that holds that box.
pub proof fn lemma_hits_larger_box(ray: Ray, inner: AABB, outer: AABB)
    requires
        outer.encloses(inner),
        ray.hits_box(inner),
    ensures
        ray.hits_box(outer),
{
    let (n, m) = choose|n: int, m: int| ray.reaches(inner, n, m);
    assert(outer.bmin.x * m <= inner.bmin.x * m && inner.bmax.x * m <= outer.bmax.x * m)
        by (nonlinear_arith)
        requires
            m > 0,
            outer.bmin.x <= inner.bmin.x,
            inner.bmax.x <= outer.bmax.x,
    ;
    assert(outer.bmin.y * m <= inner.bmin.y * m && inner.bmax.y * m <= outer.bmax.y * m)
        by (nonlinear_arith)
        requires
            m > 0,
            outer.bmin.y <= inner.bmin.y,
            inner.bmax.y <= outer.bmax.y,
    ;
    assert(outer.bmin.z * m <= inner.bmin.z * m && inner.bmax.z * m <= outer.bmax.z * m)
        by (nonlinear_arith)
        requires
            m > 0,
            outer.bmin.z <= inner.bmin.z,
            inner.bmax.z <= outer.bmax.z,
    ;
    assert(ray.reaches(outer, n, m));
}

/// A number divided by a number above 0 is no greater in size than it was.
proof fn lemma_quotient_within(a: int, b: int, limit: int)
    requires
        b > 0,
        -limit <= a <= limit,
    ensures
        -limit <= a / b <= limit,
{
    vstd::arithmetic::div_mod::lemma_fundamental_div_mod(a, b);
    vstd::arithmetic::div_mod::lemma_mod_bound(a, b);
    let q = a / b;
    let r = a % b;
    if q > limit {
        assert(b * q >= q) by (nonlinear_arith)
            requires
                b >= 1,
                q > 0,
        ;
    }
    if q < -limit {
        assert(b * q <= q) by (nonlinear_arith)
            requires
                b >= 1,
                q < 0,
        ;
        assert(b * (q + 1) <= q + 1) by (nonlinear_arith)
            requires
                b >= 1,
                q + 1 <= 0,
        ;
        assert(b * (q + 1) == b * q + b) by (nonlinear_arith);
    }
}

} // verus!
