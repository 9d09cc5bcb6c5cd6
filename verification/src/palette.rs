//! Colors and the saturating additive blend used for glowing effects.

use vstd::prelude::*;

verus! {

/// An 8-bit-per-channel color.
pub type Rgb = (u8, u8, u8);

/// One channel of an additive blend: the sum, saturated at 255.
pub open spec fn channel_sum(a: u8, b: u8) -> u8 {
    if a + b > 255 {
        255u8
    } else {
        (a + b) as u8
    }
}

/// The additive blend of two colors, channel by channel.
pub open spec fn spec_add(a: Rgb, b: Rgb) -> Rgb {
    (channel_sum(a.0, b.0), channel_sum(a.1, b.1), channel_sum(a.2, b.2))
}

fn add_channel(a: u8, b: u8) -> (r: u8)
    ensures
        r == channel_sum(a, b),
{
    let s: u16 = a as u16 + b as u16;
    if s > 255 {
        255
    } else {
        s as u8
    }
}

/// Additive blend of two colors, each channel saturating at 255.
pub fn add(a: Rgb, b: Rgb) -> (r: Rgb)
    ensures
        r == spec_add(a, b),
{
    (add_channel(a.0, b.0), add_channel(a.1, b.1), add_channel(a.2, b.2))
}

/// Adding light is symmetric: `add(a, b) == add(b, a)`.
pub proof fn lemma_add_commutative(a: Rgb, b: Rgb)
    ensures
        spec_add(a, b) == spec_add(b, a),
{
}

/// Black is the neutral element of the additive blend.
pub proof fn lemma_add_black_identity(a: Rgb)
    ensures
        spec_add(a, (0u8, 0u8, 0u8)) == a,
{
}

/// Adding light never darkens a channel.
pub proof fn lemma_add_monotone(a: Rgb, b: Rgb)
    ensures
        spec_add(a, b).0 >= a.0,
        spec_add(a, b).1 >= a.1,
        spec_add(a, b).2 >= a.2,
{
}

} // verus!
