//! Auto-firing weapons: the kinds, their text and color, and the per-level
//! projectile counts. Cooldowns and damage are real-valued and live with the
//! simulation.

use vstd::prelude::*;

use crate::palette::Rgb;

verus! {

/// The six weapons a rat can carry.
#[derive(Clone, Copy, PartialEq, Eq, Debug, Structural)]
pub enum WeaponKind {
    Gnaw,
    CheeseSpray,
    SqueakNova,
    SporeOrbit,
    TailWhip,
    AcidSpit,
}

/// The highest level any weapon reaches.
pub open spec fn spec_max_level() -> u8 {
    5
}

/// Every weapon kind, in menu order.
pub open spec fn all_weapon_kinds() -> Seq<WeaponKind> {
    seq![
        WeaponKind::Gnaw,
        WeaponKind::CheeseSpray,
        WeaponKind::SqueakNova,
        WeaponKind::SporeOrbit,
        WeaponKind::TailWhip,
        WeaponKind::AcidSpit,
    ]
}

impl WeaponKind {
    pub open spec fn spec_name(self) -> Seq<char> {
        match self {
            WeaponKind::Gnaw => "Gnaw"@,
            WeaponKind::CheeseSpray => "Cheese Spray"@,
            WeaponKind::SqueakNova => "Squeak Nova"@,
            WeaponKind::SporeOrbit => "Spore Orbit"@,
            WeaponKind::TailWhip => "Tail Whip"@,
            WeaponKind::AcidSpit => "Acid Spit"@,
        }
    }

    pub open spec fn spec_desc(self) -> Seq<char> {
        match self {
            WeaponKind::Gnaw => "Fires a dart at the nearest foe."@,
            WeaponKind::CheeseSpray => "Scatters darts in a forward arc."@,
            WeaponKind::SqueakNova => "Bursts shots in every direction."@,
            WeaponKind::SporeOrbit => "Spores circle and shred nearby foes."@,
            WeaponKind::TailWhip => "Pulses damage to everything close."@,
            WeaponKind::AcidSpit => "Lobs acid that pools and burns."@,
        }
    }

    pub open spec fn spec_flavor(self) -> Seq<char> {
        match self {
            WeaponKind::Gnaw => "Teeth are the original weapon."@,
            WeaponKind::CheeseSpray => "Weaponized dairy. Don't ask."@,
            WeaponKind::SqueakNova => "A scream pitched past hearing. It still hurts."@,
            WeaponKind::SporeOrbit => "Fungal hitchhikers from Vat 9, now loyal."@,
            WeaponKind::TailWhip => "Forty grams of pure indignation."@,
            WeaponKind::AcidSpit => "Stomach contents, redirected."@,
        }
    }

    pub open spec fn spec_color(self) -> Rgb {
        match self {
            WeaponKind::Gnaw => (255u8, 240u8, 180u8),
            WeaponKind::CheeseSpray => (255u8, 210u8, 90u8),
            WeaponKind::SqueakNova => (200u8, 160u8, 255u8),
            WeaponKind::SporeOrbit => (140u8, 255u8, 180u8),
            WeaponKind::TailWhip => (255u8, 150u8, 200u8),
            WeaponKind::AcidSpit => (160u8, 255u8, 90u8),
        }
    }

    /// Every weapon kind, each exactly once.
    pub fn all() -> (r: [WeaponKind; 6])
        ensures
            r@ == all_weapon_kinds(),
    {
        [
            WeaponKind::Gnaw,
            WeaponKind::CheeseSpray,
            WeaponKind::SqueakNova,
            WeaponKind::SporeOrbit,
            WeaponKind::TailWhip,
            WeaponKind::AcidSpit,
        ]
    }

    pub fn name(self) -> (r: &'static str)
        ensures
            r@ == self.spec_name(),
    {
        match self {
            WeaponKind::Gnaw => "Gnaw",
            WeaponKind::CheeseSpray => "Cheese Spray",
            WeaponKind::SqueakNova => "Squeak Nova",
            WeaponKind::SporeOrbit => "Spore Orbit",
            WeaponKind::TailWhip => "Tail Whip",
            WeaponKind::AcidSpit => "Acid Spit",
        }
    }

    pub fn desc(self) -> (r: &'static str)
        ensures
            r@ == self.spec_desc(),
    {
        match self {
            WeaponKind::Gnaw => "Fires a dart at the nearest foe.",
            WeaponKind::CheeseSpray => "Scatters darts in a forward arc.",
            WeaponKind::SqueakNova => "Bursts shots in every direction.",
            WeaponKind::SporeOrbit => "Spores circle and shred nearby foes.",
            WeaponKind::TailWhip => "Pulses damage to everything close.",
            WeaponKind::AcidSpit => "Lobs acid that pools and burns.",
        }
    }

    pub fn flavor(self) -> (r: &'static str)
        ensures
            r@ == self.spec_flavor(),
    {
        match self {
            WeaponKind::Gnaw => "Teeth are the original weapon.",
            WeaponKind::CheeseSpray => "Weaponized dairy. Don't ask.",
            WeaponKind::SqueakNova => "A scream pitched past hearing. It still hurts.",
            WeaponKind::SporeOrbit => "Fungal hitchhikers from Vat 9, now loyal.",
            WeaponKind::TailWhip => "Forty grams of pure indignation.",
            WeaponKind::AcidSpit => "Stomach contents, redirected.",
        }
    }

    pub fn color(self) -> (r: Rgb)
        ensures
            r == self.spec_color(),
    {
        match self {
            WeaponKind::Gnaw => (255, 240, 180),
            WeaponKind::CheeseSpray => (255, 210, 90),
            WeaponKind::SqueakNova => (200, 160, 255),
            WeaponKind::SporeOrbit => (140, 255, 180),
            WeaponKind::TailWhip => (255, 150, 200),
            WeaponKind::AcidSpit => (160, 255, 90),
        }
    }

    /// Every weapon tops out at level 5.
    pub fn max_level(self) -> (r: u8)
        ensures
            r == spec_max_level(),
    {
        5
    }
}

/// A weapon the rat owns: its kind and its level (1 when first picked up).
#[derive(Clone, Copy, PartialEq, Eq, Debug, Structural)]
pub struct Weapon {
    pub kind: WeaponKind,
    pub level: u8,
}

impl Weapon {
    pub open spec fn spec_is_max(self) -> bool {
        self.level >= spec_max_level()
    }

    /// Projectiles (or pulse size) fired per trigger at this level.
    pub open spec fn spec_level_projectiles(self) -> int {
        match self.kind {
            WeaponKind::CheeseSpray => 2 + self.level,
            WeaponKind::SqueakNova => 6 + 2 * self.level,
            WeaponKind::SporeOrbit => 2 + self.level,
            _ => self.level as int,
        }
    }

    /// A freshly acquired weapon at level 1.
    pub fn new(kind: WeaponKind) -> (w: Weapon)
        ensures
            w.kind == kind,
            w.level == 1,
    {
        Weapon { kind, level: 1 }
    }

    /// Whether the weapon has reached its maximum level.
    pub fn is_max(&self) -> (r: bool)
        ensures
            r == self.spec_is_max(),
    {
        self.level >= self.kind.max_level()
    }

    /// Extra projectiles granted by level (for multi-shot weapons).
    pub fn level_projectiles(&self) -> (r: i32)
        ensures
            r == self.spec_level_projectiles(),
    {
        match self.kind {
            WeaponKind::CheeseSpray => 2 + self.level as i32,
            WeaponKind::SqueakNova => 6 + 2 * self.level as i32,
            WeaponKind::SporeOrbit => 2 + self.level as i32,
            _ => self.level as i32,
        }
    }
}

/// Levelling a weapon adds projectiles: two more pulse points for Squeak
/// Nova, one more for every other kind. At level 1, Cheese Spray and Spore
/// Orbit fire three, Squeak Nova pulses eight, the others fire one.
pub proof fn lemma_projectiles_grow_with_level(w: Weapon)
    requires
        w.level < 255,
    ensures
        (Weapon { level: (w.level + 1) as u8, ..w }).spec_level_projectiles() - w.spec_level_projectiles() == (
        if w.kind == WeaponKind::SqueakNova {
            2int
        } else {
            1int
        }),
        (Weapon { level: 1, ..w }).spec_level_projectiles() == match w.kind {
            WeaponKind::CheeseSpray => 3int,
            WeaponKind::SporeOrbit => 3int,
            WeaponKind::SqueakNova => 8int,
            _ => 1int,
        },
{
}

/// `all()` lists each weapon kind exactly once.
pub proof fn lemma_all_weapons_distinct_and_complete(k: WeaponKind)
    ensures
        all_weapon_kinds().contains(k),
        all_weapon_kinds().no_duplicates(),
{
    let s = all_weapon_kinds();
    let i: int = match k {
        WeaponKind::Gnaw => 0,
        WeaponKind::CheeseSpray => 1,
        WeaponKind::SqueakNova => 2,
        WeaponKind::SporeOrbit => 3,
        WeaponKind::TailWhip => 4,
        WeaponKind::AcidSpit => 5,
    };
    assert(s[i] == k);
}

} // verus!
