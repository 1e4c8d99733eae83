//! Whole-number helpers for fixed-point arithmetic.

use vstd::prelude::*;
use crate::SCALE;

verus! {

/// A number cut off at the ends of the range of `i32`.
pub open spec fn clamp32(c: int) -> int {
    if c < i32::MIN {
        i32::MIN as int
    } else if c > i32::MAX {
        i32::MAX as int
    } else {
        c
    }
}

/// A number cut off at the ends of the range of `i64`.
pub open spec fn clamp64(c: int) -> int {
    if c < i64::MIN {
        i64::MIN as int
    } else if c > i64::MAX {
        i64::MAX as int
    } else {
        c
    }
}

/// The number as an `i32`, cut off at the ends of its range.
pub fn to_i32(c: i128) -> (r: i32)
    ensures
        r == clamp32(c as int),
{
    if c < i32::MIN as i128 {
        i32::MIN
    } else if c > i32::MAX as i128 {
        i32::MAX
    } else {
        c as i32
    }
}

/// The number as an `i64`, cut off at the ends of its range.
pub fn to_i64(c: i128) -> (r: i64)
    ensures
        r == clamp64(c as int),
{
    if c < i64::MIN as i128 {
        i64::MIN
    } else if c > i64::MAX as i128 {
        i64::MAX
    } else {
        c as i64
    }
}

/// `a / b`, rounded down.
pub fn div_floor(a: i128, b: i128) -> (q: i128)
    requires
        0 < b,
        i128::MIN < a,
        -a + b <= i128::MAX,
    ensures
        q == a / b,
{
    if a >= 0 {
        a / b
    } else {
        let k: i128 = (-a + b - 1) / b;
        proof {
            let n: int = -a + b - 1;
            let d: int = b as int;
            let kk: int = k as int;
            vstd::arithmetic::div_mod::lemma_fundamental_div_mod(n, d);
            vstd::arithmetic::div_mod::lemma_mod_bound(n, d);
            let r: int = n % d;
            assert(d * kk == kk * d) by (nonlinear_arith);
            assert((-kk) * d == -(kk * d)) by (nonlinear_arith);
            assert(a == (-kk) * d + (d - 1 - r));
            vstd::arithmetic::div_mod::lemma_fundamental_div_mod_converse_div(
                a as int,
                d,
                -kk,
                d - 1 - r,
            );
        }
        -k
    }
}

/// The product of two fixed-point numbers: `a * b / SCALE`, rounded down.
pub open spec fn fx_mul(a: int, b: int) -> int {
    (a * b) / (SCALE as int)
}

/// The product of two fixed-point numbers, as far as an `i64` holds it.
pub open spec fn fx(a: int, b: int) -> int {
    clamp64(fx_mul(a, b))
}

/// The product of two fixed-point numbers, as far as an `i64` holds it.
pub fn fx_times(a: i64, b: i64) -> (r: i64)
    ensures
        r == fx(a as int, b as int),
{
    proof {
        lemma_product_within(a as int, b as int, 0x8000_0000_0000_0000, 0x8000_0000_0000_0000);
    }
    to_i64(div_floor(a as i128 * b as i128, SCALE as i128))
}

/// `val` held between `min` and `max`: `min` unless `val` is greater, and
/// then `val` if that is below `max`, else `max`.
pub open spec fn clamped_between(val: int, min: int, max: int) -> int {
    if val > min {
        if val < max {
            val
        } else {
            max
        }
    } else {
        min
    }
}

/// Calls `nalgebra::clamp` on three `i64` values. It returns `min` unless
/// `val` is greater, and then `val` if that is below `max`, else `max`.
#[verifier::external_body]
pub(crate) fn clamp_i64(val: i64, min: i64, max: i64) -> (r: i64)
    ensures
        r == clamped_between(val as int, min as int, max as int),
{
    nalgebra::clamp(val, min, max)
}

/// `r` is the square root of `x`, rounded down.
pub open spec fn is_sqrt_floor(x: int, r: int) -> bool {
    r >= 0 && r * r <= x < (r + 1) * (r + 1)
}

/// The square root of `x`, rounded down; 0 for an `x` below 0.
pub open spec fn isqrt(x: int) -> int {
    if x <= 0 {
        0
    } else {
        choose|r: int| is_sqrt_floor(x, r)
    }
}

/// Squaring keeps the order of numbers that are not negative.
pub proof fn lemma_square_monotone(a: int, b: int)
    requires
        0 <= a <= b,
    ensures
        a * a <= b * b,
{
    assert(a * a <= b * b) by (nonlinear_arith)
        requires
            0 <= a <= b,
    ;
}

/// A number has one rounded-down square root, and `isqrt` names it.
pub proof fn lemma_isqrt_is(x: int, r: int)
    requires
        is_sqrt_floor(x, r),
    ensures
        isqrt(x) == r,
{
    if x <= 0 {
        assert(r * r >= 0) by (nonlinear_arith);
        if r >= 1 {
            lemma_square_monotone(1, r);
        }
    } else {
        let c = choose|c: int| is_sqrt_floor(x, c);
        if c < r {
            lemma_square_monotone(c + 1, r);
        }
        if r < c {
            lemma_square_monotone(r + 1, c);
        }
    }
}

/// Every number that is not negative has a rounded-down square root.
pub proof fn lemma_isqrt_exists(x: int)
    requires
        x >= 0,
    ensures
        is_sqrt_floor(x, isqrt(x)),
    decreases x,
{
    if x == 0 {
        assert(is_sqrt_floor(0, 0));
    } else {
        lemma_isqrt_exists(x - 1);
        let r = isqrt(x - 1);
        if x < (r + 1) * (r + 1) {
            assert(is_sqrt_floor(x, r));
            lemma_isqrt_is(x, r);
        } else {
            assert((r + 2) * (r + 2) > (r + 1) * (r + 1)) by (nonlinear_arith)
                requires
                    r >= 0,
            ;
            assert(is_sqrt_floor(x, r + 1));
            lemma_isqrt_is(x, r + 1);
        }
    }
}

/// The square root of `x`, rounded down.
pub fn sqrt_floor(x: u128) -> (r: u64)
    ensures
        r == isqrt(x as int),
        is_sqrt_floor(x as int, r as int),
{
    let mut lo: u128 = 0;
    let mut hi: u128 = 0x1_0000_0000_0000_0000;
    assert(lo * lo <= x < hi * hi) by (nonlinear_arith)
        requires
            lo == 0,
            hi == 0x1_0000_0000_0000_0000,
            x <= u128::MAX,
    ;
    while hi - lo > 1
        invariant
            lo < hi <= 0x1_0000_0000_0000_0000,
            lo * lo <= x < hi * hi,
        decreases hi - lo,
    {
        let mid: u128 = lo + (hi - lo) / 2;
        assert(mid * mid <= 0xFFFF_FFFF_FFFF_FFFF * 0xFFFF_FFFF_FFFF_FFFF) by (nonlinear_arith)
            requires
                0 <= mid <= 0xFFFF_FFFF_FFFF_FFFF,
        ;
        if mid * mid <= x {
            lo = mid;
        } else {
            hi = mid;
        }
    }
    proof {
        lemma_isqrt_is(x as int, lo as int);
    }
    lo as u64
}

/// A product of two numbers of limited size is of limited size.
pub proof fn lemma_product_within(a: int, b: int, la: int, lb: int)
    requires
        -la <= a <= la,
        -lb <= b <= lb,
    ensures
        -(la * lb) <= a * b <= la * lb,
{
    assert(-(la * lb) <= a * b <= la * lb) by (nonlinear_arith)
        requires
            -la <= a <= la,
            -lb <= b <= lb,
    ;
}

/// The sum of the products of three pairs.
pub open spec fn dot(a: (int, int, int), b: (int, int, int)) -> int {
    a.0 * b.0 + a.1 * b.1 + a.2 * b.2
}

/// The vector product.
pub open spec fn cross(a: (int, int, int), b: (int, int, int)) -> (int, int, int) {
    (a.1 * b.2 - a.2 * b.1, a.2 * b.0 - a.0 * b.2, a.0 * b.1 - a.1 * b.0)
}

/// A product of three vectors, `x . (y x z)`, stays as it is when the three
/// take each other's places in turn, and changes its sign when two of them
/// change places; so it is 0 where two of them are one vector.
pub proof fn lemma_triple_product(x: (int, int, int), y: (int, int, int), z: (int, int, int))
    ensures
        dot(x, cross(y, z)) == dot(y, cross(z, x)),
        dot(x, cross(y, z)) == dot(z, cross(x, y)),
        dot(x, cross(y, z)) == -dot(x, cross(z, y)),
        dot(x, cross(x, z)) == 0,
        dot(z, cross(x, z)) == 0,
        dot(x, cross(z, x)) == 0,
{
    lemma_triple_turns(x, y, z);
    lemma_triple_turns(y, z, x);
    lemma_triple_turns(x, x, z);
    lemma_triple_turns(x, z, x);
    lemma_triple_turns(z, x, z);
    lemma_triple_turns(x, z, z);
}

/// The first two of the statements of `lemma_triple_product`.
proof fn lemma_triple_turns(x: (int, int, int), y: (int, int, int), z: (int, int, int))
    ensures
        dot(x, cross(y, z)) == dot(y, cross(z, x)),
        dot(x, cross(y, z)) == -dot(x, cross(z, y)),
{
    let one = dot(x, cross(y, z));
    assert(x.0 * (y.1 * z.2) == x.0 * y.1 * z.2) by (nonlinear_arith);
    assert(x.0 * (y.2 * z.1) == x.0 * y.2 * z.1) by (nonlinear_arith);
    assert(x.1 * (y.2 * z.0) == x.1 * y.2 * z.0) by (nonlinear_arith);
    assert(x.1 * (y.0 * z.2) == x.1 * y.0 * z.2) by (nonlinear_arith);
    assert(x.2 * (y.0 * z.1) == x.2 * y.0 * z.1) by (nonlinear_arith);
    assert(x.2 * (y.1 * z.0) == x.2 * y.1 * z.0) by (nonlinear_arith);
    assert(x.0 * (y.1 * z.2 - y.2 * z.1) == x.0 * (y.1 * z.2) - x.0 * (y.2 * z.1)) by (nonlinear_arith);
    assert(x.1 * (y.2 * z.0 - y.0 * z.2) == x.1 * (y.2 * z.0) - x.1 * (y.0 * z.2)) by (nonlinear_arith);
    assert(x.2 * (y.0 * z.1 - y.1 * z.0) == x.2 * (y.0 * z.1) - x.2 * (y.1 * z.0)) by (nonlinear_arith);
    assert(one == x.0 * y.1 * z.2 - x.0 * y.2 * z.1 + x.1 * y.2 * z.0 - x.1 * y.0 * z.2 + x.2 * y.0 * z.1 - x.2 * y.1 * z.0);
    let two = dot(y, cross(z, x));
    assert(y.0 * (z.1 * x.2) == x.2 * y.0 * z.1) by (nonlinear_arith);
    assert(y.0 * (z.2 * x.1) == x.1 * y.0 * z.2) by (nonlinear_arith);
    assert(y.1 * (z.2 * x.0) == x.0 * y.1 * z.2) by (nonlinear_arith);
    assert(y.1 * (z.0 * x.2) == x.2 * y.1 * z.0) by (nonlinear_arith);
    assert(y.2 * (z.0 * x.1) == x.1 * y.2 * z.0) by (nonlinear_arith);
    assert(y.2 * (z.1 * x.0) == x.0 * y.2 * z.1) by (nonlinear_arith);
    assert(y.0 * (z.1 * x.2 - z.2 * x.1) == y.0 * (z.1 * x.2) - y.0 * (z.2 * x.1)) by (nonlinear_arith);
    assert(y.1 * (z.2 * x.0 - z.0 * x.2) == y.1 * (z.2 * x.0) - y.1 * (z.0 * x.2)) by (nonlinear_arith);
    assert(y.2 * (z.0 * x.1 - z.1 * x.0) == y.2 * (z.0 * x.1) - y.2 * (z.1 * x.0)) by (nonlinear_arith);
    assert(two == x.2 * y.0 * z.1 - x.1 * y.0 * z.2 + x.0 * y.1 * z.2 - x.2 * y.1 * z.0 + x.1 * y.2 * z.0 - x.0 * y.2 * z.1);
    let three = dot(x, cross(z, y));
    assert(x.0 * (z.1 * y.2) == x.0 * y.2 * z.1) by (nonlinear_arith);
    assert(x.0 * (z.2 * y.1) == x.0 * y.1 * z.2) by (nonlinear_arith);
    assert(x.1 * (z.2 * y.0) == x.1 * y.0 * z.2) by (nonlinear_arith);
    assert(x.1 * (z.0 * y.2) == x.1 * y.2 * z.0) by (nonlinear_arith);
    assert(x.2 * (z.0 * y.1) == x.2 * y.1 * z.0) by (nonlinear_arith);
    assert(x.2 * (z.1 * y.0) == x.2 * y.0 * z.1) by (nonlinear_arith);
    assert(x.0 * (z.1 * y.2 - z.2 * y.1) == x.0 * (z.1 * y.2) - x.0 * (z.2 * y.1)) by (nonlinear_arith);
    assert(x.1 * (z.2 * y.0 - z.0 * y.2) == x.1 * (z.2 * y.0) - x.1 * (z.0 * y.2)) by (nonlinear_arith);
    assert(x.2 * (z.0 * y.1 - z.1 * y.0) == x.2 * (z.0 * y.1) - x.2 * (z.1 * y.0)) by (nonlinear_arith);
    assert(three == x.0 * y.2 * z.1 - x.0 * y.1 * z.2 + x.1 * y.0 * z.2 - x.1 * y.2 * z.0 + x.2 * y.1 * z.0 - x.2 * y.0 * z.1);
}

/// No component is greater in size than `limit`.
pub open spec fn within(a: (i128, i128, i128), limit: int) -> bool {
    &&& -limit <= a.0 <= limit
    &&& -limit <= a.1 <= limit
    &&& -limit <= a.2 <= limit
}

/// The same three numbers as mathematical integers.
pub open spec fn ints(a: (i128, i128, i128)) -> (int, int, int) {
    (a.0 as int, a.1 as int, a.2 as int)
}

pub(crate) fn dot3(
    a: (i128, i128, i128),
    b: (i128, i128, i128),
    Ghost(la): Ghost<int>,
    Ghost(lb): Ghost<int>,
) -> (r: i128)
    requires
        within(a, la),
        within(b, lb),
        3 * (la * lb) <= i128::MAX,
    ensures
        r == dot(ints(a), ints(b)),
        -3 * (la * lb) <= r <= 3 * (la * lb),
{
    let ghost m = la * lb;
    proof {
        lemma_product_within(a.0 as int, b.0 as int, la, lb);
        lemma_product_within(a.1 as int, b.1 as int, la, lb);
        lemma_product_within(a.2 as int, b.2 as int, la, lb);
        assert(-m <= a.0 * b.0 <= m);
        assert(-m <= a.1 * b.1 <= m);
        assert(-m <= a.2 * b.2 <= m);
    }
    let r: i128 = a.0 * b.0 + a.1 * b.1 + a.2 * b.2;
    assert(-3 * m <= r <= 3 * m);
    r
}

pub(crate) fn cross3(
    a: (i128, i128, i128),
    b: (i128, i128, i128),
    Ghost(la): Ghost<int>,
    Ghost(lb): Ghost<int>,
) -> (r: (i128, i128, i128))
    requires
        within(a, la),
        within(b, lb),
        2 * (la * lb) <= i128::MAX,
    ensures
        ints(r) == cross(ints(a), ints(b)),
        within(r, 2 * (la * lb)),
{
    proof {
        lemma_product_within(a.1 as int, b.2 as int, la, lb);
        lemma_product_within(a.2 as int, b.1 as int, la, lb);
        lemma_product_within(a.2 as int, b.0 as int, la, lb);
        lemma_product_within(a.0 as int, b.2 as int, la, lb);
        lemma_product_within(a.0 as int, b.1 as int, la, lb);
        lemma_product_within(a.1 as int, b.0 as int, la, lb);
    }
    (a.1 * b.2 - a.2 * b.1, a.2 * b.0 - a.0 * b.2, a.0 * b.1 - a.1 * b.0)
}

} // verus!
