//! Pixels and the color-cache hash shared by the encoder and the decoder.

use vstd::prelude::*;

verus! {

/// One RGBA pixel: four unsigned 8-bit channels, compared by exact equality
/// of all four channels.
#[derive(Clone, Copy, PartialEq, Eq, Structural, Debug)]
pub struct Pixel {
    pub r: u8,
    pub g: u8,
    pub b: u8,
    pub a: u8,
}

/// The cache hash of a pixel: `(r*3 + g*5 + b*7 + a*11) mod 64`.
pub open spec fn hash_spec(p: Pixel) -> int {
    (p.r * 3 + p.g * 5 + p.b * 7 + p.a * 11) % 64
}

/// Hash a color's four channels to its slot in the 64-entry color cache.
pub fn color_hash(r: u8, g: u8, b: u8, a: u8) -> (h: usize)
    ensures
        h == hash_spec(Pixel { r, g, b, a }),
        h < 64,
{
    ((r as u32 * 3 + g as u32 * 5 + b as u32 * 7 + a as u32 * 11) % 64) as usize
}

/// Pack four channels into one 32-bit word, red in the highest byte.
pub fn pack_rgba(r: u8, g: u8, b: u8, a: u8) -> (w: u32)
    ensures
        w == r * 0x1000000 + g * 0x10000 + b * 0x100 + a,
{
    r as u32 * 0x1000000 + g as u32 * 0x10000 + b as u32 * 0x100 + a as u32
}

} // verus!
