//! Packed 24-bit RGB colours.

use vstd::prelude::*;

verus! {

/// Namespace for packed 24-bit RGB colours held in a `u32`.
pub struct Colors;

/// The packed value of three 8-bit channels: red in bits 16..24, green in
/// bits 8..16, blue in bits 0..8.
pub open spec fn packed_rgb(r: u8, g: u8, b: u8) -> u32 {
    ((r as u32) << 16) | ((g as u32) << 8) | (b as u32)
}

impl Colors {
    /// No channel lit.
    pub const BLACK: u32 = 0;
    /// All three channels at 255.
    pub const WHITE: u32 = 16777215;
    /// Green at 255.
    pub const GREEN: u32 = 65280;
    /// Red at 255.
    pub const RED: u32 = 16711680;
    /// Blue at 255.
    pub const BLUE: u32 = 255;

    /// Packs three channels into one colour. The channels occupy disjoint
    /// bit ranges, so the packed value is also `r * 65536 + g * 256 + b`.
    pub fn from_u8_rgb(r: u8, g: u8, b: u8) -> (c: u32)
        ensures
            c == packed_rgb(r, g, b),
            c == r * 65536 + g * 256 + b,
            c <= Colors::WHITE,
    {
        let (r32, g32, b32): (u32, u32, u32) = (r as u32, g as u32, b as u32);
        assert(((r32 << 16) | (g32 << 8) | b32) == r32 * 65536 + g32 * 256 + b32) by (bit_vector)
            requires
                r32 < 256,
                g32 < 256,
                b32 < 256,
        ;
        (r32 << 16) | (g32 << 8) | b32
    }

    /// A colour drawn from the thread's random generator. All 32 bits are
    /// random: the byte above the three channels is not cleared.
    pub fn random() -> u32 {
        random_u32()
    }
}

/// Calls `rand::random::<u32>()`, which samples the thread-local generator.
/// Nothing is claimed of the value: any `u32` may come back, and two calls
/// may differ.
#[verifier::external_body]
fn random_u32() -> u32 {
    rand::random::<u32>()
}

} // verus!
