//! Experience gems and rare pickups dropped by enemies.

use vstd::prelude::*;

use crate::palette::Rgb;

verus! {

/// The tint of an experience gem: bigger gems are warmer and brighter.
pub open spec fn spec_gem_color(value: u32) -> Rgb {
    if value >= 25 {
        (255u8, 220u8, 90u8)
    } else if value >= 5 {
        (120u8, 230u8, 255u8)
    } else {
        (90u8, 200u8, 255u8)
    }
}

/// Tint for a gem worth `value` experience.
pub fn gem_color(value: u32) -> (r: Rgb)
    ensures
        r == spec_gem_color(value),
{
    if value >= 25 {
        (255, 220, 90)
    } else if value >= 5 {
        (120, 230, 255)
    } else {
        (90, 200, 255)
    }
}

/// A gem's tint never gets cooler as its value grows: the three tiers are
/// ordered by value.
pub proof fn lemma_gem_tiers(a: u32, b: u32)
    requires
        a <= b,
    ensures
        spec_gem_color(b) == (255u8, 220u8, 90u8) || b < 25,
        a >= 25 ==> spec_gem_color(b) == spec_gem_color(a),
{
}

/// Rare drops.
#[derive(Clone, Copy, PartialEq, Eq, Debug, Structural)]
pub enum PickupKind {
    Heal,
    Magnet,
    Nuke,
}

impl PickupKind {
    pub open spec fn spec_color(self) -> Rgb {
        match self {
            PickupKind::Heal => (90u8, 255u8, 120u8),
            PickupKind::Magnet => (120u8, 180u8, 255u8),
            PickupKind::Nuke => (255u8, 120u8, 90u8),
        }
    }

    pub open spec fn spec_glyph(self) -> Seq<char> {
        match self {
            PickupKind::Heal => "+"@,
            PickupKind::Magnet => "M"@,
            PickupKind::Nuke => "*"@,
        }
    }

    pub fn color(self) -> (r: Rgb)
        ensures
            r == self.spec_color(),
    {
        match self {
            PickupKind::Heal => (90, 255, 120),
            PickupKind::Magnet => (120, 180, 255),
            PickupKind::Nuke => (255, 120, 90),
        }
    }

    pub fn glyph(self) -> (r: &'static str)
        ensures
            r@ == self.spec_glyph(),
    {
        match self {
            PickupKind::Heal => "+",
            PickupKind::Magnet => "M",
            PickupKind::Nuke => "*",
        }
    }

    /// The pickup a roll of `0`, `1` or anything else selects.
    pub fn from_roll(roll: u32) -> (r: PickupKind)
        ensures
            roll == 0 ==> r == PickupKind::Heal,
            roll == 1 ==> r == PickupKind::Magnet,
            roll >= 2 ==> r == PickupKind::Nuke,
    {
        match roll {
            0 => PickupKind::Heal,
            1 => PickupKind::Magnet,
            _ => PickupKind::Nuke,
        }
    }
}

} // verus!
