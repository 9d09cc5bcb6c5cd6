//! Enemy kinds and their integer traits: the experience each is worth, its
//! body color, and whether it shoots. Hit points, speed, size and damage are
//! real-valued and live with the simulation.

use vstd::prelude::*;

use crate::palette::Rgb;
use crate::screen::Sfx;

verus! {

/// The horde: five regular insects and the boss.
#[derive(Clone, Copy, PartialEq, Eq, Debug, Structural)]
pub enum EnemyKind {
    Skitterer,
    Bat,
    Cat,
    Spitter,
    Brute,
    Boss,
}

impl EnemyKind {
    pub open spec fn spec_xp(self) -> u32 {
        match self {
            EnemyKind::Skitterer => 1,
            EnemyKind::Bat => 1,
            EnemyKind::Cat => 3,
            EnemyKind::Spitter => 4,
            EnemyKind::Brute => 10,
            EnemyKind::Boss => 200,
        }
    }

    pub open spec fn spec_color(self) -> Rgb {
        match self {
            EnemyKind::Skitterer => (150u8, 120u8, 90u8),
            EnemyKind::Bat => (120u8, 90u8, 160u8),
            EnemyKind::Cat => (90u8, 90u8, 100u8),
            EnemyKind::Spitter => (120u8, 200u8, 90u8),
            EnemyKind::Brute => (170u8, 70u8, 60u8),
            EnemyKind::Boss => (220u8, 60u8, 120u8),
        }
    }

    /// Experience dropped on death.
    pub fn xp(self) -> (r: u32)
        ensures
            r == self.spec_xp(),
    {
        match self {
            EnemyKind::Skitterer => 1,
            EnemyKind::Bat => 1,
            EnemyKind::Cat => 3,
            EnemyKind::Spitter => 4,
            EnemyKind::Brute => 10,
            EnemyKind::Boss => 200,
        }
    }

    /// Body color.
    pub fn color(self) -> (r: Rgb)
        ensures
            r == self.spec_color(),
    {
        match self {
            EnemyKind::Skitterer => (150, 120, 90),
            EnemyKind::Bat => (120, 90, 160),
            EnemyKind::Cat => (90, 90, 100),
            EnemyKind::Spitter => (120, 200, 90),
            EnemyKind::Brute => (170, 70, 60),
            EnemyKind::Boss => (220, 60, 120),
        }
    }

    /// Spitters fire enemy bullets; the others are melee.
    pub fn ranged(self) -> (r: bool)
        ensures
            r == (self == EnemyKind::Spitter),
    {
        matches!(self, EnemyKind::Spitter)
    }

    /// Score awarded for a kill: ten points per experience point.
    pub fn kill_score(self) -> (r: u32)
        ensures
            r == self.spec_xp() * 10,
    {
        self.xp() * 10
    }
}

impl EnemyKind {
    pub open spec fn spec_is_big(self) -> bool {
        self == EnemyKind::Brute || self == EnemyKind::Boss
    }

    /// Brutes and the boss die big: a larger burst, a screen shake and an
    /// explosion.
    pub fn is_big(self) -> (r: bool)
        ensures
            r == self.spec_is_big(),
    {
        match self {
            EnemyKind::Brute | EnemyKind::Boss => true,
            _ => false,
        }
    }

    /// Particles in the burst when one dies: 120 for the boss, 28 for a
    /// brute, 10 for the rest.
    pub fn death_particles(self) -> (r: u32)
        ensures
            r == (if self == EnemyKind::Boss {
                120u32
            } else if self.spec_is_big() {
                28u32
            } else {
                10u32
            }),
    {
        match self {
            EnemyKind::Boss => 120,
            EnemyKind::Brute => 28,
            _ => 10,
        }
    }

    /// The sound of a death: an explosion for the big kinds, a squish for
    /// the rest.
    pub fn death_sfx(self) -> (r: Sfx)
        ensures
            r == (if self.spec_is_big() { Sfx::Explosion } else { Sfx::Kill }),
    {
        if self.is_big() {
            Sfx::Explosion
        } else {
            Sfx::Kill
        }
    }
}

/// The insect anatomy an enemy is drawn with.
#[derive(Clone, Copy, Debug, PartialEq, Eq, Structural)]
pub struct BugStyle {
    /// Body segments.
    pub segs: i32,
    /// Pairs of legs.
    pub leg_pairs: i32,
    pub wings: bool,
    pub stripes: bool,
    pub horn: bool,
    pub eyes: bool,
}

/// The anatomy of each kind: ant, fly, beetle, wasp, rhino beetle and
/// hornet queen.
pub open spec fn spec_bug_style(kind: EnemyKind) -> BugStyle {
    match kind {
        EnemyKind::Skitterer => BugStyle { segs: 3, leg_pairs: 3, wings: false, stripes: false, horn: false, eyes: false },
        EnemyKind::Bat => BugStyle { segs: 2, leg_pairs: 2, wings: true, stripes: false, horn: false, eyes: true },
        EnemyKind::Cat => BugStyle { segs: 2, leg_pairs: 3, wings: false, stripes: false, horn: false, eyes: true },
        EnemyKind::Spitter => BugStyle { segs: 3, leg_pairs: 3, wings: true, stripes: true, horn: false, eyes: true },
        EnemyKind::Brute => BugStyle { segs: 2, leg_pairs: 3, wings: false, stripes: false, horn: true, eyes: true },
        EnemyKind::Boss => BugStyle { segs: 3, leg_pairs: 4, wings: true, stripes: true, horn: true, eyes: true },
    }
}

/// Per-kind insect anatomy.
pub fn bug_style(kind: EnemyKind) -> (s: BugStyle)
    ensures
        s == spec_bug_style(kind),
{
    match kind {
        // Ant: three crisp segments, six legs, antennae.
        EnemyKind::Skitterer => BugStyle { segs: 3, leg_pairs: 3, wings: false, stripes: false, horn: false, eyes: false },
        // Fly: tiny body, fast buzzing wings.
        EnemyKind::Bat => BugStyle { segs: 2, leg_pairs: 2, wings: true, stripes: false, horn: false, eyes: true },
        // Beetle: rounded shell, six legs, eyes.
        EnemyKind::Cat => BugStyle { segs: 2, leg_pairs: 3, wings: false, stripes: false, horn: false, eyes: true },
        // Wasp: striped abdomen, wings.
        EnemyKind::Spitter => BugStyle { segs: 3, leg_pairs: 3, wings: true, stripes: true, horn: false, eyes: true },
        // Rhino beetle: bulky, horn, heavy legs.
        EnemyKind::Brute => BugStyle { segs: 2, leg_pairs: 3, wings: false, stripes: false, horn: true, eyes: true },
        // Hornet queen: big, winged, striped.
        EnemyKind::Boss => BugStyle { segs: 3, leg_pairs: 4, wings: true, stripes: true, horn: true, eyes: true },
    }
}

/// Every kind has two or three body segments and two to four pairs of legs;
/// only the flying kinds have wings, and only the boss has four leg pairs.
pub proof fn lemma_bug_anatomy(kind: EnemyKind)
    ensures
        2 <= spec_bug_style(kind).segs <= 3,
        2 <= spec_bug_style(kind).leg_pairs <= 4,
        spec_bug_style(kind).leg_pairs == 4 <==> kind == EnemyKind::Boss,
{
}

} // verus!
