use vstd::prelude::*;

verus! {

/// The stored pixel for a face of base colour 0xRRGGBB under a light
/// divisor: the colour is moved up one byte into the surface's channel
/// order and every 8-bit channel is divided by the divisor.
///
/// This crude darkening by an integer divisor derived from the face normal
/// is the renderer's deliberate flat-shading rule; it is kept exactly as
/// designed rather than replaced by a physically based model.
pub open spec fn shaded_pixel(color: u32, light: u8) -> int
    recommends
        1 <= light,
        color <= 0xFFFFFF,
{
    let c = (color as int) * 256;
    let b1 = (c / 256) % 256;
    let b2 = (c / 65536) % 256;
    let b3 = c / 16777216;
    (b1 / (light as int)) * 256 + (b2 / (light as int)) * 65536 + (b3 / (light as int)) * 16777216
}

/// Darken a face colour channel by channel.
pub fn face_pixel(color: u32, light: u8) -> (r: u32)
    requires
        1 <= light,
        color <= 0xFFFFFF,
    ensures
        r == shaded_pixel(color, light),
{
    let c = color * 256;
    let l = light as u32;
    let b1 = ((c / 256) % 256) / l;
    let b2 = ((c / 65536) % 256) / l;
    let b3 = (c / 16777216) / l;
    b1 * 256 + b2 * 65536 + b3 * 16777216
}

} // verus!
