//! Choosing a foreground color that contrasts with a background color.
use vstd::prelude::*;

verus! {

/// Perceptual luminance of an RGB color, `(299 R + 587 G + 114 B) / 1000`,
/// with truncating division.
pub open spec fn luminance(c: [u8; 3]) -> int {
    (299 * c[0] + 587 * c[1] + 114 * c[2]) / 1000
}

/// Black on a background brighter than the threshold, white otherwise.
pub open spec fn contrasting(c: [u8; 3]) -> [u8; 3] {
    if luminance(c) > 128 {
        [0u8, 0u8, 0u8]
    } else {
        [255u8, 255u8, 255u8]
    }
}

/// Picks pure black for a bright background (luminance above 128) and pure
/// white for any other.
pub fn choose_contrasting_color(bg_color: [u8; 3]) -> (r: [u8; 3])
    ensures
        r == contrasting(bg_color),
{
    let brightness: u32 = (bg_color[0] as u32 * 299 + bg_color[1] as u32 * 587 + bg_color[2] as u32
        * 114) / 1000;
    if brightness > 128 {
        [0, 0, 0]
    } else {
        [255, 255, 255]
    }
}

/// Relies on `rand::random`: a byte drawn from the thread-local generator.
/// Nothing is known of its value.
#[verifier::external_body]
fn random_channel() -> (r: u8) {
    rand::random::<u8>()
}

/// A color whose three channels are drawn at random.
pub fn generate_random_color() -> (r: [u8; 3]) {
    [random_channel(), random_channel(), random_channel()]
}

} // verus!
