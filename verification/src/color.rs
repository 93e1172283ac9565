//! 24-bit RGB colours and their packed 32-bit pixel form `0x00RRGGBB`.

use vstd::prelude::*;

verus! {

/// A colour with three 8-bit channels.
#[derive(Clone, Copy, Debug, PartialEq, Eq, Structural)]
pub struct Color {
    pub r: u8,
    pub g: u8,
    pub b: u8,
}

/// The pixel word `0x00RRGGBB` built from three channels.
pub open spec fn pack_rgb(r: u8, g: u8, b: u8) -> u32 {
    (r as u32) << 16 | (g as u32) << 8 | (b as u32)
}

/// The red channel of a pixel word: bits 16 to 23.
pub open spec fn red_of(word: u32) -> u8 {
    ((word >> 16) & 0xff) as u8
}

/// The green channel of a pixel word: bits 8 to 15.
pub open spec fn green_of(word: u32) -> u8 {
    ((word >> 8) & 0xff) as u8
}

/// The blue channel of a pixel word: bits 0 to 7.
pub open spec fn blue_of(word: u32) -> u8 {
    (word & 0xff) as u8
}

impl Color {
    /// The packed pixel word of this colour.
    pub open spec fn packed(self) -> u32 {
        pack_rgb(self.r, self.g, self.b)
    }

    /// The colour whose channels are the three low bytes of `word`.
    pub open spec fn unpacked(word: u32) -> Color {
        Color { r: red_of(word), g: green_of(word), b: blue_of(word) }
    }

    /// Black, the background of a fresh canvas.
    pub open spec fn spec_black() -> Color {
        Color { r: 0, g: 0, b: 0 }
    }

    /// White, the drawing colour of a fresh canvas.
    pub open spec fn spec_white() -> Color {
        Color { r: 255, g: 255, b: 255 }
    }

    /// The colour with the given channels.
    pub fn new(r: u8, g: u8, b: u8) -> (c: Color)
        ensures
            c == (Color { r, g, b }),
    {
        Color { r, g, b }
    }

    /// Black.
    #[verifier::when_used_as_spec(spec_black)]
    pub fn black() -> (c: Color)
        ensures
            c == Color::spec_black(),
    {
        Color { r: 0, g: 0, b: 0 }
    }

    /// White.
    #[verifier::when_used_as_spec(spec_white)]
    pub fn white() -> (c: Color)
        ensures
            c == Color::spec_white(),
    {
        Color { r: 255, g: 255, b: 255 }
    }

    /// Packs the colour into the pixel word `0x00RRGGBB`.
    pub fn to_hex(&self) -> (word: u32)
        ensures
            word == self.packed(),
            word <= 0xff_ffff,
            Color::unpacked(word) == *self,
    {
        proof {
            lemma_pack_unpack(self.r, self.g, self.b);
        }
        (self.r as u32) << 16 | (self.g as u32) << 8 | (self.b as u32)
    }

    /// Reads a colour from the three low bytes of a pixel word; the high byte
    /// is ignored.
    pub fn from_hex(word: u32) -> (c: Color)
        ensures
            c == Color::unpacked(word),
            c.packed() == word & 0xff_ffff,
    {
        proof {
            lemma_unpack_pack(word);
        }
        Color {
            r: ((word >> 16) & 0xff) as u8,
            g: ((word >> 8) & 0xff) as u8,
            b: (word & 0xff) as u8,
        }
    }
}

/// Unpacking a packed colour gives its channels back, and a packed colour
/// leaves the high byte of the word clear.
pub proof fn lemma_pack_unpack(r: u8, g: u8, b: u8)
    ensures
        red_of(pack_rgb(r, g, b)) == r,
        green_of(pack_rgb(r, g, b)) == g,
        blue_of(pack_rgb(r, g, b)) == b,
        pack_rgb(r, g, b) <= 0xff_ffff,
{
    assert(((((r as u32) << 16 | (g as u32) << 8 | (b as u32)) >> 16) & 0xff) as u8 == r
        && ((((r as u32) << 16 | (g as u32) << 8 | (b as u32)) >> 8) & 0xff) as u8 == g && (((r as u32)
        << 16 | (g as u32) << 8 | (b as u32)) & 0xff) as u8 == b && ((r as u32) << 16 | (g as u32)
        << 8 | (b as u32)) <= 0xff_ffff) by (bit_vector);
}

/// Packing the channels of a pixel word gives the word back without its high
/// byte.
pub proof fn lemma_unpack_pack(word: u32)
    ensures
        pack_rgb(red_of(word), green_of(word), blue_of(word)) == word & 0xff_ffff,
{
    assert(((((word >> 16) & 0xff) as u8) as u32) << 16 | ((((word >> 8) & 0xff) as u8) as u32) << 8
        | (((word & 0xff) as u8) as u32) == word & 0xff_ffff) by (bit_vector);
}

} // verus!
