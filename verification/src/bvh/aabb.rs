use vstd::prelude::*;
use crate::vector::Vec3;

verus! {

/// The lesser of two numbers.
pub open spec fn min_int(a: int, b: int) -> int {
    if a <= b { a } else { b }
}

/// The greater of two numbers.
pub open spec fn max_int(a: int, b: int) -> int {
    if a >= b { a } else { b }
}

/// An axis-aligned box, given by its least and greatest corner.
#[derive(Clone, Copy, Debug, PartialEq, Eq, Structural)]
pub struct AABB {
    pub bmin: Vec3,
    pub bmax: Vec3,
}

impl AABB {
    /// The box that holds nothing: growing it by a point gives that point.
    pub open spec fn empty() -> AABB {
        AABB {
            bmin: Vec3 { x: i32::MAX, y: i32::MAX, z: i32::MAX },
            bmax: Vec3 { x: i32::MIN, y: i32::MIN, z: i32::MIN },
        }
    }

    /// The least corner does not exceed the greatest on any axis.
    pub open spec fn is_bounded(self) -> bool {
        &&& self.bmin.x <= self.bmax.x
        &&& self.bmin.y <= self.bmax.y
        &&& self.bmin.z <= self.bmax.z
    }

    /// The point lies between the two corners on every axis.
    pub open spec fn contains_point(self, p: Vec3) -> bool {
        &&& self.bmin.x <= p.x <= self.bmax.x
        &&& self.bmin.y <= p.y <= self.bmax.y
        &&& self.bmin.z <= p.z <= self.bmax.z
    }

    /// One of the eight corners: on each axis the greatest coordinate where
    /// the flag is set, else the least.
    pub open spec fn corner(self, high_x: bool, high_y: bool, high_z: bool) -> Vec3 {
        Vec3 {
            x: if high_x {
                self.bmax.x
            } else {
                self.bmin.x
            },
            y: if high_y {
                self.bmax.y
            } else {
                self.bmin.y
            },
            z: if high_z {
                self.bmax.z
            } else {
                self.bmin.z
            },
        }
    }

    /// The least and the greatest corner of `other` lie in this box, and so
    /// do the other six.
    pub open spec fn encloses(self, other: AABB) -> bool {
        self.contains_point(other.bmin) && self.contains_point(other.bmax)
    }

    /// The least box around this box and the point.
    pub open spec fn grown_by_point(self, p: Vec3) -> AABB {
        AABB {
            bmin: Vec3 {
                x: min_int(self.bmin.x as int, p.x as int) as i32,
                y: min_int(self.bmin.y as int, p.y as int) as i32,
                z: min_int(self.bmin.z as int, p.z as int) as i32,
            },
            bmax: Vec3 {
                x: max_int(self.bmax.x as int, p.x as int) as i32,
                y: max_int(self.bmax.y as int, p.y as int) as i32,
                z: max_int(self.bmax.z as int, p.z as int) as i32,
            },
        }
    }

    /// Growing by a box is growing by its two corners.
    pub open spec fn grown_by_bounds(self, other: AABB) -> AABB {
        self.grown_by_point(other.bmin).grown_by_point(other.bmax)
    }

    /// The least box around both: the identity is `empty()`.
    pub open spec fn merged(self, other: AABB) -> AABB {
        AABB {
            bmin: Vec3 {
                x: min_int(self.bmin.x as int, other.bmin.x as int) as i32,
                y: min_int(self.bmin.y as int, other.bmin.y as int) as i32,
                z: min_int(self.bmin.z as int, other.bmin.z as int) as i32,
            },
            bmax: Vec3 {
                x: max_int(self.bmax.x as int, other.bmax.x as int) as i32,
                y: max_int(self.bmax.y as int, other.bmax.y as int) as i32,
                z: max_int(self.bmax.z as int, other.bmax.z as int) as i32,
            },
        }
    }

    /// Length of the box along `axis`; negative for a box that holds nothing.
    pub open spec fn extent(self, axis: int) -> int {
        self.bmax.axis(axis) - self.bmin.axis(axis)
    }

    /// Twice the sum of the three face areas, over the signed extents.
    pub open spec fn area(self) -> int {
        2 * (self.extent(0) * self.extent(1) + self.extent(1) * self.extent(2) + self.extent(2)
            * self.extent(0))
    }

    /// The axis of greatest extent; on ties x wins over y, and y over z.
    pub open spec fn longest_axis_spec(self) -> int {
        let dx = self.extent(0);
        let dy = self.extent(1);
        let dz = self.extent(2);
        if dz > dy && dz > dx {
            2
        } else if dy > dx {
            1
        } else {
            0
        }
    }

    /// The box that holds nothing.
    pub fn new() -> (b: AABB)
        ensures
            b == AABB::empty(),
    {
        AABB {
            bmin: Vec3 { x: i32::MAX, y: i32::MAX, z: i32::MAX },
            bmax: Vec3 { x: i32::MIN, y: i32::MIN, z: i32::MIN },
        }
    }

    /// Makes this the box that holds nothing.
    pub fn reset(&mut self)
        ensures
            *final(self) == AABB::empty(),
    {
        self.bmin = Vec3 { x: i32::MAX, y: i32::MAX, z: i32::MAX };
        self.bmax = Vec3 { x: i32::MIN, y: i32::MIN, z: i32::MIN };
    }

    /// Grows the box until it holds the point.
    pub fn grow_by_point(&mut self, point: &Vec3)
        ensures
            *final(self) == old(self).grown_by_point(*point),
            final(self).is_bounded(),
    {
        self.bmin = Vec3 {
            x: if self.bmin.x <= point.x { self.bmin.x } else { point.x },
            y: if self.bmin.y <= point.y { self.bmin.y } else { point.y },
            z: if self.bmin.z <= point.z { self.bmin.z } else { point.z },
        };
        self.bmax = Vec3 {
            x: if self.bmax.x >= point.x { self.bmax.x } else { point.x },
            y: if self.bmax.y >= point.y { self.bmax.y } else { point.y },
            z: if self.bmax.z >= point.z { self.bmax.z } else { point.z },
        };
    }

    /// Grows the box until it holds both corners of `bounds`.
    pub fn grow_by_bounds(&mut self, bounds: &AABB)
        ensures
            *final(self) == old(self).grown_by_bounds(*bounds),
            final(self).is_bounded(),
    {
        self.grow_by_point(&bounds.bmin);
        self.grow_by_point(&bounds.bmax);
    }

    /// Twice the sum of the three face areas; below 0 only for a box whose
    /// corners stand the wrong way round on one axis.
    pub fn surface_area(&self) -> (a: i128)
        ensures
            a == self.area(),
    {
        let dx: i128 = self.bmax.x as i128 - self.bmin.x as i128;
        let dy: i128 = self.bmax.y as i128 - self.bmin.y as i128;
        let dz: i128 = self.bmax.z as i128 - self.bmin.z as i128;
        proof {
            lemma_product_bound(dx as int, dy as int);
            lemma_product_bound(dy as int, dz as int);
            lemma_product_bound(dz as int, dx as int);
        }
        2 * (dx * dy + dy * dz + dz * dx)
    }

    /// The axis of greatest extent: 0 is x, 1 is y, 2 is z.
    pub fn longest_axis(&self) -> (axis: usize)
        ensures
            axis == self.longest_axis_spec(),
            axis < 3,
    {
        let dx: i64 = self.bmax.x as i64 - self.bmin.x as i64;
        let dy: i64 = self.bmax.y as i64 - self.bmin.y as i64;
        let dz: i64 = self.bmax.z as i64 - self.bmin.z as i64;
        let mut l_axis: usize = 0;
        if dy > dx {
            l_axis = 1;
        }
        if dz > dy && dz > dx {
            l_axis = 2;
        }
        l_axis
    }
}

impl Default for AABB {
    /// The box whose two corners are the origin.
    fn default() -> (b: AABB)
        ensures
            b == (AABB { bmin: Vec3 { x: 0, y: 0, z: 0 }, bmax: Vec3 { x: 0, y: 0, z: 0 } }),
    {
        AABB { bmin: Vec3 { x: 0, y: 0, z: 0 }, bmax: Vec3 { x: 0, y: 0, z: 0 } }
    }
}

/// The product of two differences of coordinates stays below 2^64 in size.
pub proof fn lemma_product_bound(a: int, b: int)
    requires
        -0xFFFF_FFFF <= a <= 0xFFFF_FFFF,
        -0xFFFF_FFFF <= b <= 0xFFFF_FFFF,
    ensures
        -0xFFFF_FFFE_0000_0001 <= a * b <= 0xFFFF_FFFE_0000_0001,
{
    assert(-0xFFFF_FFFE_0000_0001 <= a * b <= 0xFFFF_FFFE_0000_0001) by (nonlinear_arith)
        requires
            -0xFFFF_FFFF <= a <= 0xFFFF_FFFF,
            -0xFFFF_FFFF <= b <= 0xFFFF_FFFF,
    ;
}

/// Growing one of two boxes and then merging them gives what merging them
/// and then growing gives.
pub proof fn lemma_grow_then_merge(p: AABB, q: AABB, x: AABB)
    ensures
        p.grown_by_bounds(x).merged(q) == p.merged(q).grown_by_bounds(x),
        p.merged(q.grown_by_bounds(x)) == p.merged(q).grown_by_bounds(x),
{
}

/// No surface area exceeds six faces of the widest box in size.
pub proof fn lemma_area_bound(b: AABB)
    ensures
        -6 * 0xFFFF_FFFE_0000_0001 <= b.area() <= 6 * 0xFFFF_FFFE_0000_0001,
{
    lemma_product_bound(b.extent(0), b.extent(1));
    lemma_product_bound(b.extent(1), b.extent(2));
    lemma_product_bound(b.extent(2), b.extent(0));
}

/// Grown by a box and then by another, an empty box holds every corner of
/// both, and its surface area is not negative.
pub proof fn lemma_grown_twice_encloses(a: AABB, b: AABB)
    ensures
        forall|x: bool, y: bool, z: bool|
            AABB::empty().grown_by_bounds(a).grown_by_bounds(b).contains_point(
                #[trigger] a.corner(x, y, z),
            ),
        forall|x: bool, y: bool, z: bool|
            AABB::empty().grown_by_bounds(a).grown_by_bounds(b).contains_point(
                #[trigger] b.corner(x, y, z),
            ),
        AABB::empty().grown_by_bounds(a).grown_by_bounds(b).encloses(a),
        AABB::empty().grown_by_bounds(a).grown_by_bounds(b).encloses(b),
        AABB::empty().grown_by_bounds(a).grown_by_bounds(b).is_bounded(),
        AABB::empty().grown_by_bounds(a).grown_by_bounds(b).area() >= 0,
{
    let r = AABB::empty().grown_by_bounds(a).grown_by_bounds(b);
    lemma_bounded_area_nonnegative(r);
}

/// A box that was grown by a point or by a box has a least corner that does
/// not exceed its greatest, whatever it was before, and holds what it was
/// grown by.
pub proof fn lemma_grown_is_bounded(b: AABB, p: Vec3, other: AABB)
    ensures
        b.grown_by_point(p).is_bounded(),
        b.grown_by_point(p).contains_point(p),
        b.grown_by_bounds(other).is_bounded(),
        b.grown_by_bounds(other).encloses(other),
        b.grown_by_bounds(other).area() >= 0,
{
    lemma_bounded_area_nonnegative(b.grown_by_bounds(other));
}

/// A box whose least corner does not exceed its greatest has a surface area
/// that is not negative.
pub proof fn lemma_bounded_area_nonnegative(b: AABB)
    requires
        b.is_bounded(),
    ensures
        b.area() >= 0,
{
    let dx = b.extent(0);
    let dy = b.extent(1);
    let dz = b.extent(2);
    assert(dx * dy >= 0 && dy * dz >= 0 && dz * dx >= 0) by (nonlinear_arith)
        requires
            dx >= 0,
            dy >= 0,
            dz >= 0,
    ;
}

} // verus!
