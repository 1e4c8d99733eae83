use vstd::prelude::*;
use crate::camera::Camera;
use crate::fixed::{
    clamp32, cross, cross3, div_floor, fx_mul, ints, lemma_product_within, to_i32, within,
};
use crate::vector::{clamp_vector, clamped, components, Vec3};
use crate::SCALE;

verus! {

/// The plane before the camera through which the rays are sent: how many
/// pixels it has each way, its centre, its width over its height, and three
/// of its corners: `p0` where the pixels start, `p1` at the end of the first
/// row and `p2` at the start of the last row.
#[derive(Clone, Copy, Debug, PartialEq, Eq, Structural)]
pub struct Screen {
    pub width: u32,
    pub height: u32,
    pub center: Vec3,
    pub ratio: i64,
    pub p0: Vec3,
    pub p1: Vec3,
    pub p2: Vec3,
}

/// Each component over `SCALE`, rounded down.
pub open spec fn unscaled(v: (int, int, int)) -> (int, int, int) {
    (v.0 / (SCALE as int), v.1 / (SCALE as int), v.2 / (SCALE as int))
}

/// The point `distance` before the camera, along its view.
pub open spec fn centre_of(camera: Camera, distance: i64) -> (int, int, int) {
    (
        camera.origin.x + fx_mul(distance as int, camera.forward.x as int),
        camera.origin.y + fx_mul(distance as int, camera.forward.y as int),
        camera.origin.z + fx_mul(distance as int, camera.forward.z as int),
    )
}

/// The direction across the screen: the camera's upward direction times its
/// view, as a vector product.
pub open spec fn across(camera: Camera) -> (int, int, int) {
    unscaled(cross(components(camera.up), components(camera.forward)))
}

/// The direction up the screen at right angles to the view: the view times
/// the direction across.
pub open spec fn upright(camera: Camera) -> (int, int, int) {
    unscaled(cross(components(camera.forward), across(camera)))
}

/// A corner of the screen: the centre, plus or minus `ratio` times the
/// direction across, plus or minus the direction up, as far as coordinates
/// go.
pub open spec fn corner_at(
    centre: (int, int, int),
    side: (int, int, int),
    up: (int, int, int),
    ratio: i64,
    right: bool,
    top: bool,
) -> Vec3 {
    let sx = if right {
        1int
    } else {
        -1int
    };
    let sy = if top {
        1int
    } else {
        -1int
    };
    Vec3 {
        x: clamp32(centre.0 + sx * fx_mul(side.0, ratio as int) + sy * up.0) as i32,
        y: clamp32(centre.1 + sx * fx_mul(side.1, ratio as int) + sy * up.1) as i32,
        z: clamp32(centre.2 + sx * fx_mul(side.2, ratio as int) + sy * up.2) as i32,
    }
}

fn parts_of(v: &Vec3) -> (r: (i128, i128, i128))
    ensures
        ints(r) == components(*v),
        within(r, 0x8000_0000),
{
    (v.x as i128, v.y as i128, v.z as i128)
}

fn unscale(v: (i128, i128, i128)) -> (r: (i128, i128, i128))
    requires
        within(v, 0x1_0000_0000_0000_0000_0000_0000),
    ensures
        ints(r) == unscaled(ints(v)),
        within(r, 0x1_0000_0000_0000_0000_0000_0000),
{
    let scale: i128 = SCALE as i128;
    (div_floor(v.0, scale), div_floor(v.1, scale), div_floor(v.2, scale))
}

fn centre(camera: &Camera, distance: i64) -> (r: (i128, i128, i128))
    ensures
        ints(r) == centre_of(*camera, distance),
        within(r, 0x1_0000_0000_0000_0000_0000_0000),
{
    proof {
        lemma_product_within(
            distance as int,
            camera.forward.x as int,
            0x8000_0000_0000_0000,
            0x8000_0000,
        );
        lemma_product_within(
            distance as int,
            camera.forward.y as int,
            0x8000_0000_0000_0000,
            0x8000_0000,
        );
        lemma_product_within(
            distance as int,
            camera.forward.z as int,
            0x8000_0000_0000_0000,
            0x8000_0000,
        );
    }
    let scale: i128 = SCALE as i128;
    (
        camera.origin.x as i128 + div_floor(distance as i128 * camera.forward.x as i128, scale),
        camera.origin.y as i128 + div_floor(distance as i128 * camera.forward.y as i128, scale),
        camera.origin.z as i128 + div_floor(distance as i128 * camera.forward.z as i128, scale),
    )
}

fn side_of(camera: &Camera) -> (r: (i128, i128, i128))
    ensures
        ints(r) == across(*camera),
        within(r, 0x8000_0000_0000_0000),
{
    let up = parts_of(&camera.up);
    let forward = parts_of(&camera.forward);
    unscale(cross3(up, forward, Ghost(0x8000_0000), Ghost(0x8000_0000)))
}

fn upright_of(camera: &Camera) -> (r: (i128, i128, i128))
    ensures
        ints(r) == upright(*camera),
        within(r, 0x1_0000_0000_0000_0000_0000_0000),
{
    let forward = parts_of(&camera.forward);
    let side = side_of(camera);
    unscale(cross3(forward, side, Ghost(0x8000_0000), Ghost(0x8000_0000_0000_0000)))
}

fn corner(
    centre: (i128, i128, i128),
    side: (i128, i128, i128),
    up: (i128, i128, i128),
    ratio: i64,
    right: bool,
    top: bool,
) -> (r: Vec3)
    requires
        within(centre, 0x1_0000_0000_0000_0000_0000_0000),
        within(side, 0x8000_0000_0000_0000),
        within(up, 0x1_0000_0000_0000_0000_0000_0000),
    ensures
        r == corner_at(ints(centre), ints(side), ints(up), ratio, right, top),
{
    proof {
        lemma_product_within(
            side.0 as int,
            ratio as int,
            0x8000_0000_0000_0000,
            0x8000_0000_0000_0000,
        );
        lemma_product_within(
            side.1 as int,
            ratio as int,
            0x8000_0000_0000_0000,
            0x8000_0000_0000_0000,
        );
        lemma_product_within(
            side.2 as int,
            ratio as int,
            0x8000_0000_0000_0000,
            0x8000_0000_0000_0000,
        );
    }
    let scale: i128 = SCALE as i128;
    let wide: (i128, i128, i128) = (
        div_floor(side.0 * ratio as i128, scale),
        div_floor(side.1 * ratio as i128, scale),
        div_floor(side.2 * ratio as i128, scale),
    );
    let sx: i128 = if right {
        1
    } else {
        -1
    };
    let sy: i128 = if top {
        1
    } else {
        -1
    };
    assert(1 * wide.0 == wide.0 && -1 * wide.0 == -wide.0 && 1 * up.0 == up.0 && -1 * up.0
        == -up.0);
    assert(1 * wide.1 == wide.1 && -1 * wide.1 == -wide.1 && 1 * up.1 == up.1 && -1 * up.1
        == -up.1);
    assert(1 * wide.2 == wide.2 && -1 * wide.2 == -wide.2 && 1 * up.2 == up.2 && -1 * up.2
        == -up.2);
    Vec3 {
        x: to_i32(centre.0 + sx * wide.0 + sy * up.0),
        y: to_i32(centre.1 + sx * wide.1 + sy * up.1),
        z: to_i32(centre.2 + sx * wide.2 + sy * up.2),
    }
}

impl Screen {
    /// The screen of `width` by `height` pixels, `distance` before the
    /// camera, whose edges run across the view and along the camera's upward
    /// direction. It reaches one unit up and down, and `ratio` units to
    /// each side.
    pub fn new(camera: &Camera, width: u32, height: u32, distance: i64) -> (screen: Screen)
        requires
            height > 0,
        ensures
            screen.width == width,
            screen.height == height,
            screen.ratio == (width * SCALE) / (height as int),
            screen.center == clamped(centre_of(*camera, distance)),
            screen.p0 == corner_at(
                centre_of(*camera, distance),
                across(*camera),
                components(camera.up),
                screen.ratio,
                false,
                true,
            ),
            screen.p1 == corner_at(
                centre_of(*camera, distance),
                across(*camera),
                components(camera.up),
                screen.ratio,
                true,
                true,
            ),
            screen.p2 == corner_at(
                centre_of(*camera, distance),
                across(*camera),
                components(camera.up),
                screen.ratio,
                false,
                false,
            ),
    {
        let ratio: i64 = (width as i64 * SCALE) / (height as i64);
        let center = centre(camera, distance);
        let r = side_of(camera);
        let u = parts_of(&camera.up);
        Screen {
            width,
            height,
            center: clamp_vector(center),
            ratio,
            p0: corner(center, r, u, ratio, false, true),
            p1: corner(center, r, u, ratio, true, true),
            p2: corner(center, r, u, ratio, false, false),
        }
    }

    /// The same screen with its upward edge at right angles to the view.
    pub fn create_screen(camera: &Camera, width: u32, height: u32, distance: i64) -> (screen:
        Screen)
        requires
            height > 0,
        ensures
            screen.width == width,
            screen.height == height,
            screen.ratio == (width * SCALE) / (height as int),
            screen.center == clamped(centre_of(*camera, distance)),
            screen.p0 == corner_at(
                centre_of(*camera, distance),
                across(*camera),
                upright(*camera),
                screen.ratio,
                false,
                true,
            ),
            screen.p1 == corner_at(
                centre_of(*camera, distance),
                across(*camera),
                upright(*camera),
                screen.ratio,
                true,
                true,
            ),
            screen.p2 == corner_at(
                centre_of(*camera, distance),
                across(*camera),
                upright(*camera),
                screen.ratio,
                false,
                false,
            ),
    {
        let ratio: i64 = (width as i64 * SCALE) / (height as i64);
        let center = centre(camera, distance);
        let r = side_of(camera);
        let u = upright_of(camera);
        Screen {
            width,
            height,
            center: clamp_vector(center),
            ratio,
            p0: corner(center, r, u, ratio, false, true),
            p1: corner(center, r, u, ratio, true, true),
            p2: corner(center, r, u, ratio, false, false),
        }
    }

    /// Moves the three corners to where the camera now looks, `distance`
    /// before it, with the upward edge at right angles to the view. The
    /// rest of the screen stays as it is.
    pub fn update_screen(&mut self, camera: &Camera, distance: i64)
        ensures
            *final(self) == (Screen {
                p0: corner_at(
                    centre_of(*camera, distance),
                    across(*camera),
                    upright(*camera),
                    old(self).ratio,
                    false,
                    true,
                ),
                p1: corner_at(
                    centre_of(*camera, distance),
                    across(*camera),
                    upright(*camera),
                    old(self).ratio,
                    true,
                    true,
                ),
                p2: corner_at(
                    centre_of(*camera, distance),
                    across(*camera),
                    upright(*camera),
                    old(self).ratio,
                    false,
                    false,
                ),
                ..*old(self)
            }),
    {
        let center = centre(camera, distance);
        let r = side_of(camera);
        let u = upright_of(camera);
        let ratio: i64 = self.ratio;
        self.p0 = corner(center, r, u, ratio, false, true);
        self.p1 = corner(center, r, u, ratio, true, true);
        self.p2 = corner(center, r, u, ratio, false, false);
    }
}

} // verus!
