//! Pixel colours and the lightness by which they are selected and ordered.

use vstd::prelude::*;

verus! {

/// One raster cell: red, green, blue and alpha, eight bits each.
#[derive(Clone, Copy, Debug, PartialEq, Eq, Structural)]
pub struct Color {
    pub r: u8,
    pub g: u8,
    pub b: u8,
    pub a: u8,
}

/// The largest value that `get_lightness` returns; it stands for lightness 1.
pub const LIGHTNESS_SCALE: u16 = 510;

/// The smaller of two integers.
pub open spec fn min2(a: int, b: int) -> int {
    if a <= b { a } else { b }
}

/// The larger of two integers.
pub open spec fn max2(a: int, b: int) -> int {
    if a >= b { a } else { b }
}

/// Lightness of a pixel in units of 1/510: the least colour channel plus the
/// greatest one. Dividing by 510 gives the fraction between 0 and 1. Alpha
/// plays no part.
pub open spec fn lightness(p: Color) -> int {
    min2(p.r as int, min2(p.g as int, p.b as int)) + max2(p.r as int, max2(p.g as int, p.b as int))
}

/// Lightness depends on the colour channels alone and lies between 0 and 510.
pub proof fn lemma_lightness_range(p: Color, q: Color)
    ensures
        0 <= lightness(p) <= LIGHTNESS_SCALE,
        (p.r == q.r && p.g == q.g && p.b == q.b) ==> lightness(p) == lightness(q),
{
}

/// Computes the lightness of `color` in units of 1/510.
pub fn get_lightness(color: Color) -> (key: u16)
    ensures
        key as int == lightness(color),
        key <= LIGHTNESS_SCALE,
{
    let mut max: u8 = color.r;
    let mut min: u8 = color.r;
    if color.g > max {
        max = color.g;
    }
    if color.b > max {
        max = color.b;
    }
    if color.g < min {
        min = color.g;
    }
    if color.b < min {
        min = color.b;
    }
    let lo: u16 = min.into();
    let hi: u16 = max.into();
    lo + hi
}

} // verus!
