use vstd::prelude::*;

use crate::bytes::{spec_u16, u16_bytes, ByteOrder};

verus! {

/// Color format the Nintendo DS uses: one 16-bit cell holding three 5-bit
/// channels (red in bits 0-4, green in 5-9, blue in 10-14) and one unused
/// high bit.
#[derive(Debug, Clone, Copy, PartialEq, Eq, Structural)]
pub struct ColorBGR555 {
    pub r: u8,
    pub g: u8,
    pub b: u8,
    /// Unused bit, kept from decoding; always written back as 0.
    pub x: bool,
}

impl ColorBGR555 {
    /// Each channel fits in its 5 bits.
    pub open spec fn wf(self) -> bool {
        self.r < 32 && self.g < 32 && self.b < 32
    }

    /// The color packed into its 16-bit cell, with the unused bit as 0.
    pub open spec fn spec_to_u16(self) -> u16 {
        (self.r + self.g * 32 + self.b * 1024) as u16
    }

    /// The color a 16-bit cell denotes.
    pub open spec fn spec_from_u16(num: u16) -> ColorBGR555 {
        ColorBGR555 {
            r: (num % 32) as u8,
            g: ((num / 32) % 32) as u8,
            b: ((num / 1024) % 32) as u8,
            x: num / 32768 != 0,
        }
    }

    /// Unpacks a 16-bit color cell.
    pub fn from_u16(num: u16) -> (r: ColorBGR555)
        ensures
            r == ColorBGR555::spec_from_u16(num),
            r.wf(),
    {
        ColorBGR555 { r: (num % 32) as u8, g: ((num / 32) % 32) as u8, b: ((num / 1024) % 32) as u8, x: num / 32768 != 0 }
    }

    /// Packs the color into its 16-bit cell, writing the unused bit as 0.
    pub fn to_u16(&self) -> (r: u16)
        requires
            self.wf(),
        ensures
            r == self.spec_to_u16(),
    {
        self.r as u16 + self.g as u16 * 32 + self.b as u16 * 1024
    }

    /// Converts the color to the RGB888 (24-bit) format: each channel is
    /// multiplied by 8, the authentic DS expansion, so the largest value a
    /// channel can take is 248.
    pub fn to_rgb888(&self) -> (rgb: [u8; 3])
        requires
            self.wf(),
        ensures
            rgb@ == seq![(self.r * 8) as u8, (self.g * 8) as u8, (self.b * 8) as u8],
    {
        let rgb = [self.r * 8, self.g * 8, self.b * 8];
        proof {
            assert(rgb@ =~= seq![(self.r * 8) as u8, (self.g * 8) as u8, (self.b * 8) as u8]);
        }
        rgb
    }

    /// The nearest 5-bit channels for an 8-bit-per-channel pixel.
    pub fn from_rgb8(rgb: [u8; 3]) -> (c: ColorBGR555)
        ensures
            c == (ColorBGR555 { r: (rgb@[0] / 8) as u8, g: (rgb@[1] / 8) as u8, b: (rgb@[2] / 8) as u8, x: false }),
            c.wf(),
    {
        ColorBGR555 { r: rgb[0] / 8, g: rgb[1] / 8, b: rgb[2] / 8, x: false }
    }
}

/// A well-formed color survives the trip through its 16-bit cell unchanged
/// but for the unused bit, which packing normalizes to 0.
pub proof fn lemma_color_round_trip(c: ColorBGR555)
    requires
        c.wf(),
    ensures
        ColorBGR555::spec_from_u16(c.spec_to_u16()) == (ColorBGR555 { x: false, ..c }),
{
    let n = c.r + c.g * 32 + c.b * 1024;
    assert(n % 32 == c.r && (n / 32) % 32 == c.g && (n / 1024) % 32 == c.b && n / 32768 == 0)
        by (nonlinear_arith)
        requires
            c.r < 32 && c.g < 32 && c.b < 32 && n == c.r + c.g * 32 + c.b * 1024,
    ;
}

/// Every channel value a display expansion can produce is a multiple of 8,
/// is at most 248, and in particular is never 255.
pub proof fn lemma_display_channel_values(v: u8)
    requires
        v < 32,
    ensures
        (v * 8) % 8 == 0,
        v * 8 <= 248,
        v * 8 != 255,
{
}

/// Conversely, every multiple of 8 up to 248 is produced by some 5-bit
/// channel value: the display expansion yields exactly the 32 values
/// 0, 8, 16 and so on up to 248.
pub proof fn lemma_display_channel_complete(m: u8)
    requires
        m % 8 == 0,
        m <= 248,
    ensures
        exists|v: u8| v < 32 && #[trigger] (v * 8) == m,
{
    let v = (m / 8) as u8;
    assert(v < 32 && v * 8 == m);
}

} // verus!
