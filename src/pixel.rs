use vstd::prelude::*;

verus! {

/// One pixel with its four 8-bit channels; an image without alpha reads
/// every pixel as fully opaque.
#[derive(Clone, Copy, Debug, PartialEq, Eq, Structural)]
pub struct Pixel {
    pub r: u8,
    pub g: u8,
    pub b: u8,
    pub a: u8,
}

/// Slot of the 64-entry color cache that a pixel maps to.
pub open spec fn hash_of(p: Pixel) -> int {
    (p.r as int * 3 + p.g as int * 5 + p.b as int * 7 + p.a as int * 11) % 64
}

impl Pixel {
    pub fn new(r: u8, g: u8, b: u8, a: u8) -> (p: Pixel)
        ensures
            p == (Pixel { r, g, b, a }),
    {
        Pixel { r, g, b, a }
    }

    /// The cache slot of this pixel: `(3r + 5g + 7b + 11a) mod 64`.
    pub fn hash_index(&self) -> (h: usize)
        ensures
            h as int == hash_of(*self),
            h < 64,
    {
        let s: u32 = self.r as u32 * 3 + self.g as u32 * 5 + self.b as u32 * 7 + self.a as u32 * 11;
        (s % 64) as usize
    }
}

} // verus!
