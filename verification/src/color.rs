//! RGB colors and the perceptual distance keys the resolver minimizes.

use vstd::prelude::*;

verus! {

/// An 8-bit-per-channel RGB color.
#[derive(Clone, Copy, PartialEq, Eq, Structural, Debug)]
pub struct Color {
    pub r: u8,
    pub g: u8,
    pub b: u8,
}

/// The scalar comparison key of the perceptual difference between the colors
/// `(ar, ag, ab)` and `(br, bg, bb)`: the bit pattern of the CIEDE2000 value
/// computed by the outside metric. On non-negative IEEE 754 floats the bit
/// pattern orders exactly as the value does, so comparing keys compares the
/// metric's values.
pub uninterp spec fn de2000_key(ar: u8, ag: u8, ab: u8, br: u8, bg: u8, bb: u8) -> u32;

/// Relies on `delta_e::DE2000::from_rgb`: the CIEDE2000 color difference of
/// two RGB colors (through CIE Lab), a pure function of the six channel
/// values, always non-negative, whose f32 bit pattern is returned as the key.
#[verifier::external_body]
fn de2000_key_of(a: Color, b: Color) -> (r: u32)
    ensures
        r == de2000_key(a.r, a.g, a.b, b.r, b.g, b.b),
{
    delta_e::DE2000::from_rgb(&[a.r, a.g, a.b], &[b.r, b.g, b.b]).to_bits()
}

/// Strict lexicographic order on the channel triple, used only to pick a
/// canonical argument order for the metric.
pub open spec fn lex_lt(a: Color, b: Color) -> bool {
    a.r < b.r || (a.r == b.r && (a.g < b.g || (a.g == b.g && a.b < b.b)))
}

/// The distance between two colors: zero for identical colors, and otherwise
/// the metric's key taken with the arguments in canonical order, which makes
/// the function symmetric by construction.
pub open spec fn color_dist(a: Color, b: Color) -> u32 {
    if a == b {
        0
    } else if lex_lt(a, b) {
        de2000_key(a.r, a.g, a.b, b.r, b.g, b.b)
    } else {
        de2000_key(b.r, b.g, b.b, a.r, a.g, a.b)
    }
}

/// The distance is symmetric, and the distance from a color to itself is zero.
pub proof fn lemma_distance_symmetric(a: Color, b: Color)
    ensures
        color_dist(a, b) == color_dist(b, a),
        color_dist(a, a) == 0,
{
}

/// Computes the perceptual distance key between two colors.
pub fn distance(a: Color, b: Color) -> (r: u32)
    ensures
        r == color_dist(a, b),
{
    if a.r == b.r && a.g == b.g && a.b == b.b {
        0
    } else if a.r < b.r || (a.r == b.r && (a.g < b.g || (a.g == b.g && a.b < b.b))) {
        de2000_key_of(a, b)
    } else {
        de2000_key_of(b, a)
    }
}

} // verus!
