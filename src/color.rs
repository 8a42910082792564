//! 24-bit RGB colours with hexadecimal packing and saturating addition.

use vstd::prelude::*;

verus! {

/// A colour with one byte per channel.
#[derive(Debug, Clone, Copy, PartialEq, Eq, Structural)]
pub struct Color {
    pub r: u8,
    pub g: u8,
    pub b: u8,
}

/// The channel sum clamped to a byte.
pub open spec fn saturating_channel(a: u8, b: u8) -> u8 {
    if a + b > 255 { 255 } else { (a + b) as u8 }
}

/// The colour packed as `0xRRGGBB`.
pub open spec fn packed(c: Color) -> int {
    c.r * 65536 + c.g * 256 + c.b
}

impl Color {
    pub fn new(r: u8, g: u8, b: u8) -> (c: Color)
        ensures
            c == (Color { r, g, b }),
    {
        Color { r, g, b }
    }

    pub fn black() -> (c: Color)
        ensures
            c == (Color { r: 0, g: 0, b: 0 }),
    {
        Color { r: 0, g: 0, b: 0 }
    }

    /// Reads the low 24 bits of `hex` as `0xRRGGBB`; higher bits are ignored.
    pub fn from_hex(hex: u32) -> (c: Color)
        ensures
            c.r == (hex / 65536) % 256,
            c.g == (hex / 256) % 256,
            c.b == hex % 256,
    {
        let r = ((hex >> 16) & 0xFF) as u8;
        let g = ((hex >> 8) & 0xFF) as u8;
        let b = (hex & 0xFF) as u8;
        assert((hex >> 16) & 0xFF == (hex / 65536) % 256) by (bit_vector);
        assert((hex >> 8) & 0xFF == (hex / 256) % 256) by (bit_vector);
        assert(hex & 0xFF == hex % 256) by (bit_vector);
        Color { r, g, b }
    }

    /// Packs the colour as `0xRRGGBB`.
    pub fn to_hex(&self) -> (hex: u32)
        ensures
            hex == packed(*self),
    {
        let r = self.r as u32;
        let g = self.g as u32;
        let b = self.b as u32;
        assert(((r << 16) | (g << 8) | b) == r * 65536 + g * 256 + b) by (bit_vector)
            requires r < 256, g < 256, b < 256;
        (r << 16) | (g << 8) | b
    }
}

impl std::ops::Add for Color {
    type Output = Color;

    /// Adds channel by channel, clamping each channel at 255.
    fn add(self, other: Color) -> (c: Color) {
        Color {
            r: self.r.saturating_add(other.r),
            g: self.g.saturating_add(other.g),
            b: self.b.saturating_add(other.b),
        }
    }
}

impl vstd::std_specs::ops::AddSpecImpl for Color {
    open spec fn obeys_add_spec() -> bool {
        true
    }

    open spec fn add_req(self, rhs: Color) -> bool {
        true
    }

    open spec fn add_spec(self, rhs: Color) -> Color {
        Color {
            r: saturating_channel(self.r, rhs.r),
            g: saturating_channel(self.g, rhs.g),
            b: saturating_channel(self.b, rhs.b),
        }
    }
}

/// Packing a colour and reading it back gives the same colour, and
/// reading the low 24 bits of a word and packing them gives those bits.
pub proof fn lemma_hex_round_trip(c: Color, hex: u32)
    ensures
        packed(c) < 0x100_0000,
        (packed(c) / 65536) % 256 == c.r,
        (packed(c) / 256) % 256 == c.g,
        packed(c) % 256 == c.b,
        packed(Color {
            r: ((hex / 65536) % 256) as u8,
            g: ((hex / 256) % 256) as u8,
            b: (hex % 256) as u8,
        }) == hex % 0x100_0000,
{
    let r = c.r as u32;
    let g = c.g as u32;
    let b = c.b as u32;
    assert(r * 65536 + g * 256 + b < 0x100_0000 && ((r * 65536 + g * 256 + b) / 65536) % 256 == r
        && ((r * 65536 + g * 256 + b) / 256) % 256 == g && (r * 65536 + g * 256 + b) % 256 == b)
        by (bit_vector)
        requires r < 256, g < 256, b < 256;
    assert(((hex / 65536) % 256) * 65536 + ((hex / 256) % 256) * 256 + hex % 256 == hex % 0x100_0000)
        by (bit_vector);
}

} // verus!
