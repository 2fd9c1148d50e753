use vstd::prelude::*;

verus! {

/// The canonical identity of one pixel: either fully transparent, or fully
/// opaque with an exact RGB triple. A pixel with any other alpha value is an
/// input-format violation and has no representation here.
#[derive(Clone, Copy, PartialEq, Eq, Structural, Hash, Debug)]
pub enum PixelColor {
    Empty,
    Full(u8, u8, u8),
}

/// Packed numeric encoding of a color: `Empty` sorts below every opaque
/// color, and opaque colors are ordered by their 24-bit RGB value.
pub open spec fn color_key(c: PixelColor) -> int {
    match c {
        PixelColor::Empty => 0,
        PixelColor::Full(r, g, b) => 0x1000000 + r * 0x10000 + g * 0x100 + b,
    }
}

impl PixelColor {
    /// Canonicalizes a raw RGBA pixel. Alpha must be fully transparent (0)
    /// or fully opaque (255); callers reject anything in between first.
    pub fn new(r: u8, g: u8, b: u8, alpha: u8) -> (c: PixelColor)
        requires
            alpha == 0 || alpha == 255,
        ensures
            alpha == 0 ==> c == PixelColor::Empty,
            alpha == 255 ==> c == PixelColor::Full(r, g, b),
    {
        if alpha == 0 {
            PixelColor::Empty
        } else {
            PixelColor::Full(r, g, b)
        }
    }

    /// The packed numeric encoding, as executable code.
    pub fn as_u32(&self) -> (k: u32)
        ensures
            k == color_key(*self),
    {
        match self {
            PixelColor::Empty => 0,
            PixelColor::Full(r, g, b) => {
                0x1000000u32 + (*r as u32) * 0x10000 + (*g as u32) * 0x100 + (*b as u32)
            },
        }
    }
}

/// Two distinct colors never share a packed encoding.
pub proof fn lemma_color_key_injective(a: PixelColor, b: PixelColor)
    ensures
        color_key(a) == color_key(b) ==> a == b,
{
}

} // verus!
