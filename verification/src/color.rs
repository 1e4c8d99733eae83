use vstd::prelude::*;
use crate::fixed::{clamp64, clamp_i64, div_floor, fx, fx_times, to_i64};
use crate::SCALE;

verus! {

/// Light energy in three channels. A channel is a fixed-point scalar; sums
/// and products that a channel cannot hold stop at the ends of its range.
#[derive(Clone, Copy, Debug, PartialEq, Eq, Structural)]
pub struct Color {
    pub red: i64,
    pub green: i64,
    pub blue: i64,
}

/// What a channel becomes in a pixel: 256 times its value, rounded down and
/// cut off at 0 and at 255.
pub open spec fn channel_byte(channel: i64) -> int {
    let scaled = (channel * 256) / (SCALE as int);
    if scaled < 0 {
        0
    } else if scaled > 255 {
        255
    } else {
        scaled
    }
}

/// 256 times the channel, rounded down, as far as a `u32` can count.
fn channel_scaled(channel: i64) -> (r: u32)
    ensures
        r == ({
            let scaled = (channel * 256) / (SCALE as int);
            if scaled < 0 {
                0
            } else if scaled > u32::MAX {
                u32::MAX as int
            } else {
                scaled
            }
        }),
{
    let scaled: i128 = div_floor(channel as i128 * 256, SCALE as i128);
    if scaled < 0 {
        0
    } else if scaled > u32::MAX as i128 {
        u32::MAX
    } else {
        scaled as u32
    }
}

impl Color {
    /// The pixel `0xRRGGBB` of this colour.
    pub open spec fn packed(self) -> int {
        channel_byte(self.red) * 65536 + channel_byte(self.green) * 256 + channel_byte(self.blue)
    }

    /// The sum of two colours, channel by channel.
    pub open spec fn plus(self, other: Color) -> Color {
        Color {
            red: clamp64(self.red + other.red) as i64,
            green: clamp64(self.green + other.green) as i64,
            blue: clamp64(self.blue + other.blue) as i64,
        }
    }

    /// The colour with each channel multiplied by a fixed-point factor.
    pub open spec fn times(self, factor: i64) -> Color {
        Color {
            red: fx(self.red as int, factor as int) as i64,
            green: fx(self.green as int, factor as int) as i64,
            blue: fx(self.blue as int, factor as int) as i64,
        }
    }

    /// The pixel `0xRRGGBB` of this colour: each channel times 256, cut off
    /// at 0 and at 255.
    pub fn to_u32(&self) -> (pixel: u32)
        ensures
            pixel == self.packed(),
            pixel <= 0xFF_FFFF,
    {
        let r: u32 = clamp_i64(channel_scaled(self.red) as i64, 0, 255) as u32;
        let g: u32 = clamp_i64(channel_scaled(self.green) as i64, 0, 255) as u32;
        let b: u32 = clamp_i64(channel_scaled(self.blue) as i64, 0, 255) as u32;
        assert(r << 16 == r * 65536) by (bit_vector)
            requires
                r <= 255,
        ;
        assert(g << 8 == g * 256) by (bit_vector)
            requires
                g <= 255,
        ;
        (r << 16) + (g << 8) + b
    }

    /// No light.
    pub fn black() -> (c: Color)
        ensures
            c == (Color { red: 0, green: 0, blue: 0 }),
    {
        Color { red: 0, green: 0, blue: 0 }
    }

    /// Red at 1.0.
    pub fn red() -> (c: Color)
        ensures
            c == (Color { red: SCALE, green: 0, blue: 0 }),
    {
        Color { red: SCALE, green: 0, blue: 0 }
    }

    /// Green at 1.0.
    pub fn green() -> (c: Color)
        ensures
            c == (Color { red: 0, green: SCALE, blue: 0 }),
    {
        Color { red: 0, green: SCALE, blue: 0 }
    }

    /// Blue at 1.0.
    pub fn blue() -> (c: Color)
        ensures
            c == (Color { red: 0, green: 0, blue: SCALE }),
    {
        Color { red: 0, green: 0, blue: SCALE }
    }

    /// Adds `other` to this colour, channel by channel.
    pub fn add_assign(&mut self, other: Color)
        ensures
            *final(self) == old(self).plus(other),
    {
        *self = Color {
            red: to_i64(self.red as i128 + other.red as i128),
            green: to_i64(self.green as i128 + other.green as i128),
            blue: to_i64(self.blue as i128 + other.blue as i128),
        };
    }
}

impl core::ops::Add for Color {
    type Output = Color;

    fn add(self, other: Color) -> (sum: Color) {
        Color {
            red: to_i64(self.red as i128 + other.red as i128),
            green: to_i64(self.green as i128 + other.green as i128),
            blue: to_i64(self.blue as i128 + other.blue as i128),
        }
    }
}

impl vstd::std_specs::ops::AddSpecImpl for Color {
    open spec fn obeys_add_spec() -> bool {
        true
    }

    open spec fn add_req(self, other: Color) -> bool {
        true
    }

    open spec fn add_spec(self, other: Color) -> Color {
        self.plus(other)
    }
}

impl core::ops::Mul<i64> for Color {
    type Output = Color;

    fn mul(self, factor: i64) -> (product: Color) {
        Color {
            red: fx_times(self.red, factor),
            green: fx_times(self.green, factor),
            blue: fx_times(self.blue, factor),
        }
    }
}

impl vstd::std_specs::ops::MulSpecImpl<i64> for Color {
    open spec fn obeys_mul_spec() -> bool {
        true
    }

    open spec fn mul_req(self, factor: i64) -> bool {
        true
    }

    open spec fn mul_spec(self, factor: i64) -> Color {
        self.times(factor)
    }
}

/// A channel of 1.0 or more fills its byte, a channel of 0 or less leaves it
/// empty, and no channel spills into the next one: full red alone packs to
/// `0xFF0000`.
pub proof fn lemma_packing_clamps(c: Color)
    ensures
        0 <= channel_byte(c.red) <= 255,
        0 <= channel_byte(c.green) <= 255,
        0 <= channel_byte(c.blue) <= 255,
        0 <= c.packed() <= 0xFF_FFFF,
        c.red >= SCALE ==> channel_byte(c.red) == 255,
        c.red <= 0 ==> channel_byte(c.red) == 0,
        (Color { red: SCALE, green: 0, blue: 0 }).packed() == 0xFF0000,
{
}

} // verus!
