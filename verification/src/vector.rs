use vstd::prelude::*;
use crate::fixed::{
    clamp32, div_floor, dot, ints, isqrt, lemma_square_monotone, sqrt_floor, to_i32, within,
};
use crate::SCALE;

verus! {

/// A point or a direction in space, in fixed-point units.
#[derive(Clone, Copy, Debug, PartialEq, Eq, Structural)]
pub struct Vec3 {
    pub x: i32,
    pub y: i32,
    pub z: i32,
}

impl Vec3 {
    /// The coordinate along `axis`: 0 is x, 1 is y, anything else z.
    pub open spec fn axis(self, axis: int) -> int {
        if axis == 0 {
            self.x as int
        } else if axis == 1 {
            self.y as int
        } else {
            self.z as int
        }
    }

    /// The vector with the three components.
    pub fn new(x: i32, y: i32, z: i32) -> (v: Vec3)
        ensures
            v == (Vec3 { x, y, z }),
    {
        Vec3 { x, y, z }
    }

    /// The vector of no length.
    pub fn zeros() -> (v: Vec3)
        ensures
            v == (Vec3 { x: 0, y: 0, z: 0 }),
    {
        Vec3 { x: 0, y: 0, z: 0 }
    }

    /// The coordinate along `axis`.
    pub fn get(&self, axis: usize) -> (c: i32)
        requires
            axis < 3,
        ensures
            c == self.axis(axis as int),
    {
        if axis == 0 {
            self.x
        } else if axis == 1 {
            self.y
        } else {
            self.z
        }
    }
}

/// The three components of a vector as mathematical integers.
pub open spec fn components(v: Vec3) -> (int, int, int) {
    (v.x as int, v.y as int, v.z as int)
}

/// A component held within what squares and sums without loss.
pub open spec fn limited(c: int) -> int {
    if c < -0x4000_0000_0000_0000 {
        -0x4000_0000_0000_0000
    } else if c > 0x4000_0000_0000_0000 {
        0x4000_0000_0000_0000
    } else {
        c
    }
}

/// The unit vector along `v`: each component times `SCALE` over the length
/// of `v`, both rounded down. A component greater in size than 2^62 counts
/// as that, and the vector of no length stays as it is.
pub open spec fn normalized(v: (int, int, int)) -> Vec3 {
    let w = (limited(v.0), limited(v.1), limited(v.2));
    let len = isqrt(dot(w, w));
    if len == 0 {
        Vec3 { x: 0, y: 0, z: 0 }
    } else {
        Vec3 {
            x: ((w.0 * SCALE) / len) as i32,
            y: ((w.1 * SCALE) / len) as i32,
            z: ((w.2 * SCALE) / len) as i32,
        }
    }
}

/// A vector with each component cut off at the ends of the range of `i32`.
pub open spec fn clamped(v: (int, int, int)) -> Vec3 {
    Vec3 { x: clamp32(v.0) as i32, y: clamp32(v.1) as i32, z: clamp32(v.2) as i32 }
}

/// No component of a vector is longer than the vector, and so none of the
/// unit vector along it is greater in size than `SCALE`.
pub proof fn lemma_normalized_component(c: int, sq: int, len: int)
    requires
        0 <= c * c <= sq,
        len > 0,
        len * len <= sq < (len + 1) * (len + 1),
    ensures
        -len <= c <= len,
        -SCALE <= (c * SCALE) / len <= SCALE,
{
    if c > len {
        lemma_square_monotone(len + 1, c);
    }
    if c < -len {
        lemma_square_monotone(len + 1, -c);
        assert((-c) * (-c) == c * c) by (nonlinear_arith);
    }
    let s = SCALE as int;
    assert(-(s * len) <= c * s <= s * len) by (nonlinear_arith)
        requires
            -len <= c <= len,
            s == 10_000,
    ;
    vstd::arithmetic::div_mod::lemma_div_is_ordered(c * s, s * len, len);
    vstd::arithmetic::div_mod::lemma_div_is_ordered(-(s * len), c * s, len);
    vstd::arithmetic::div_mod::lemma_div_multiples_vanish(s, len);
    vstd::arithmetic::div_mod::lemma_div_multiples_vanish(-s, len);
    assert(s * len == len * s && -(s * len) == len * (-s)) by (nonlinear_arith);
}

fn limit(c: i128) -> (r: i128)
    ensures
        r == limited(c as int),
{
    if c < -0x4000_0000_0000_0000 {
        -0x4000_0000_0000_0000
    } else if c > 0x4000_0000_0000_0000 {
        0x4000_0000_0000_0000
    } else {
        c
    }
}

/// The unit vector along `v`.
pub fn normalize(v: (i128, i128, i128)) -> (unit: Vec3)
    ensures
        unit == normalized(ints(v)),
        -SCALE <= unit.x <= SCALE,
        -SCALE <= unit.y <= SCALE,
        -SCALE <= unit.z <= SCALE,
{
    let w: (i128, i128, i128) = (limit(v.0), limit(v.1), limit(v.2));
    proof {
        crate::fixed::lemma_product_within(
            w.0 as int,
            w.0 as int,
            0x4000_0000_0000_0000,
            0x4000_0000_0000_0000,
        );
        crate::fixed::lemma_product_within(
            w.1 as int,
            w.1 as int,
            0x4000_0000_0000_0000,
            0x4000_0000_0000_0000,
        );
        crate::fixed::lemma_product_within(
            w.2 as int,
            w.2 as int,
            0x4000_0000_0000_0000,
            0x4000_0000_0000_0000,
        );
        assert(w.0 * w.0 >= 0 && w.1 * w.1 >= 0 && w.2 * w.2 >= 0) by (nonlinear_arith);
    }
    let sq: i128 = w.0 * w.0 + w.1 * w.1 + w.2 * w.2;
    let len: i128 = sqrt_floor(sq as u128) as i128;
    if len == 0 {
        return Vec3 { x: 0, y: 0, z: 0 };
    }
    proof {
        lemma_normalized_component(w.0 as int, sq as int, len as int);
        lemma_normalized_component(w.1 as int, sq as int, len as int);
        lemma_normalized_component(w.2 as int, sq as int, len as int);
        crate::fixed::lemma_product_within(w.0 as int, SCALE as int, len as int, SCALE as int);
        crate::fixed::lemma_product_within(w.1 as int, SCALE as int, len as int, SCALE as int);
        crate::fixed::lemma_product_within(w.2 as int, SCALE as int, len as int, SCALE as int);
        crate::fixed::lemma_product_within(
            len as int,
            SCALE as int,
            0x1_0000_0000_0000_0000,
            SCALE as int,
        );
    }
    let scale: i128 = SCALE as i128;
    Vec3 {
        x: div_floor(w.0 * scale, len) as i32,
        y: div_floor(w.1 * scale, len) as i32,
        z: div_floor(w.2 * scale, len) as i32,
    }
}

/// The vector with each component cut off at the ends of the range of a
/// coordinate.
pub fn clamp_vector(v: (i128, i128, i128)) -> (r: Vec3)
    ensures
        r == clamped(ints(v)),
{
    Vec3 { x: to_i32(v.0), y: to_i32(v.1), z: to_i32(v.2) }
}

} // verus!
