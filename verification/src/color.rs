//! The exact color value type and its dense table address.

use vstd::prelude::*;

verus! {

/// One color: an exact triple of 8-bit channels. Equality is by value.
#[derive(Clone, Copy, PartialEq, Eq, Structural, Debug, Hash)]
pub struct Color {
    pub r: u8,
    pub g: u8,
    pub b: u8,
}

impl Color {
    pub fn new(r: u8, g: u8, b: u8) -> (c: Color)
        ensures
            c == (Color { r, g, b }),
    {
        Color { r, g, b }
    }
}

/// The address of a color in a dense table over all 24-bit colors.
pub open spec fn color_code(c: Color) -> int {
    c.r * 0x10000 + c.g * 0x100 + c.b
}

/// How many distinct 24-bit colors there are: the size of a dense table.
pub const TABLE_SIZE: usize = 0x1000000;

/// The dense table address of a color: `R * 65536 + G * 256 + B`.
pub fn color_index(c: &Color) -> (i: usize)
    ensures
        i == color_code(*c),
        i < TABLE_SIZE,
{
    c.r as usize * 0x10000 + c.g as usize * 0x100 + c.b as usize
}

/// Distinct colors have distinct table addresses.
pub proof fn lemma_color_code_injective(a: Color, b: Color)
    ensures
        color_code(a) == color_code(b) ==> a == b,
{
    if color_code(a) == color_code(b) {
        assert(a.r == b.r && a.g == b.g && a.b == b.b) by (nonlinear_arith)
            requires
                a.r * 0x10000 + a.g * 0x100 + a.b == b.r * 0x10000 + b.g * 0x100 + b.b,
                a.r < 256 && a.g < 256 && a.b < 256,
                b.r < 256 && b.g < 256 && b.b < 256,
        ;
    }
}

} // verus!
