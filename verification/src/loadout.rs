//! Player loadout: owned weapons, passive upgrades taken, and the level-up
//! upgrade choices.

use vstd::prelude::*;
use vstd::string::*;

use rand::rngs::StdRng;
use rand::seq::SliceRandom;

use crate::weapon::{all_weapon_kinds, lemma_all_weapons_distinct_and_complete, spec_max_level, Weapon, WeaponKind};

verus! {

broadcast use vstd::seq_lib::group_to_multiset_ensures;

/// Passive upgrades.
#[derive(Clone, Copy, PartialEq, Eq, Debug, Structural)]
pub enum PassiveKind {
    MaxHp,
    MoveSpeed,
    Damage,
    FireRate,
    Magnet,
    Regen,
    Armor,
}

/// Every passive, in card order.
pub open spec fn all_passive_kinds() -> Seq<PassiveKind> {
    seq![
        PassiveKind::MaxHp,
        PassiveKind::MoveSpeed,
        PassiveKind::Damage,
        PassiveKind::FireRate,
        PassiveKind::Magnet,
        PassiveKind::Regen,
        PassiveKind::Armor,
    ]
}

impl PassiveKind {
    pub open spec fn spec_name(self) -> Seq<char> {
        match self {
            PassiveKind::MaxHp => "Fat Reserves"@,
            PassiveKind::MoveSpeed => "Quick Paws"@,
            PassiveKind::Damage => "Sharp Teeth"@,
            PassiveKind::FireRate => "Frenzy"@,
            PassiveKind::Magnet => "Whiskers"@,
            PassiveKind::Regen => "Resilience"@,
            PassiveKind::Armor => "Thick Hide"@,
        }
    }

    pub open spec fn spec_desc(self) -> Seq<char> {
        match self {
            PassiveKind::MaxHp => "+20 max HP (and heal)."@,
            PassiveKind::MoveSpeed => "+12% move speed."@,
            PassiveKind::Damage => "+15% damage."@,
            PassiveKind::FireRate => "+12% fire rate."@,
            PassiveKind::Magnet => "+40% pickup radius."@,
            PassiveKind::Regen => "+0.5 HP/s regen."@,
            PassiveKind::Armor => "+1 armor (flat dmg cut)."@,
        }
    }

    /// Every passive, each once.
    pub fn all() -> (r: [PassiveKind; 7])
        ensures
            r@ == all_passive_kinds(),
    {
        [
            PassiveKind::MaxHp,
            PassiveKind::MoveSpeed,
            PassiveKind::Damage,
            PassiveKind::FireRate,
            PassiveKind::Magnet,
            PassiveKind::Regen,
            PassiveKind::Armor,
        ]
    }

    pub fn name(self) -> (r: &'static str)
        ensures
            r@ == self.spec_name(),
    {
        match self {
            PassiveKind::MaxHp => "Fat Reserves",
            PassiveKind::MoveSpeed => "Quick Paws",
            PassiveKind::Damage => "Sharp Teeth",
            PassiveKind::FireRate => "Frenzy",
            PassiveKind::Magnet => "Whiskers",
            PassiveKind::Regen => "Resilience",
            PassiveKind::Armor => "Thick Hide",
        }
    }

    pub fn desc(self) -> (r: &'static str)
        ensures
            r@ == self.spec_desc(),
    {
        match self {
            PassiveKind::MaxHp => "+20 max HP (and heal).",
            PassiveKind::MoveSpeed => "+12% move speed.",
            PassiveKind::Damage => "+15% damage.",
            PassiveKind::FireRate => "+12% fire rate.",
            PassiveKind::Magnet => "+40% pickup radius.",
            PassiveKind::Regen => "+0.5 HP/s regen.",
            PassiveKind::Armor => "+1 armor (flat dmg cut).",
        }
    }
}

/// One level-up card.
#[derive(Clone, Copy, PartialEq, Eq, Debug, Structural)]
pub enum Upgrade {
    NewWeapon(WeaponKind),
    LevelWeapon(usize),
    Passive(PassiveKind),
}

/// How many times each passive has been taken. The real-valued stats (max
/// HP, speed, multipliers...) are a function of these counts alone.
#[derive(Clone, Copy, PartialEq, Eq, Debug, Structural)]
pub struct PassiveStacks {
    pub max_hp: u32,
    pub move_speed: u32,
    pub damage: u32,
    pub fire_rate: u32,
    pub magnet: u32,
    pub regen: u32,
    pub armor: u32,
}

/// One more, saturating at the top of the counter.
pub open spec fn bump(n: u32) -> u32 {
    if n < u32::MAX {
        (n + 1) as u32
    } else {
        n
    }
}

fn bump_exec(n: u32) -> (r: u32)
    ensures
        r == bump(n),
{
    if n < u32::MAX {
        n + 1
    } else {
        n
    }
}

impl PassiveStacks {
    /// How many times `p` has been taken.
    pub open spec fn count(self, p: PassiveKind) -> u32 {
        match p {
            PassiveKind::MaxHp => self.max_hp,
            PassiveKind::MoveSpeed => self.move_speed,
            PassiveKind::Damage => self.damage,
            PassiveKind::FireRate => self.fire_rate,
            PassiveKind::Magnet => self.magnet,
            PassiveKind::Regen => self.regen,
            PassiveKind::Armor => self.armor,
        }
    }

    /// No passive taken yet.
    pub fn new() -> (s: PassiveStacks)
        ensures
            forall|p: PassiveKind| #[trigger] s.count(p) == 0,
    {
        PassiveStacks { max_hp: 0, move_speed: 0, damage: 0, fire_rate: 0, magnet: 0, regen: 0, armor: 0 }
    }

    /// How many times `p` has been taken.
    pub fn get(&self, p: PassiveKind) -> (r: u32)
        ensures
            r == self.count(p),
    {
        match p {
            PassiveKind::MaxHp => self.max_hp,
            PassiveKind::MoveSpeed => self.move_speed,
            PassiveKind::Damage => self.damage,
            PassiveKind::FireRate => self.fire_rate,
            PassiveKind::Magnet => self.magnet,
            PassiveKind::Regen => self.regen,
            PassiveKind::Armor => self.armor,
        }
    }

    /// Take `p` once more.
    pub fn add(&mut self, p: PassiveKind)
        ensures
            final(self).count(p) == bump(old(self).count(p)),
            forall|q: PassiveKind| q != p ==> #[trigger] final(self).count(q) == old(self).count(q),
    {
        match p {
            PassiveKind::MaxHp => self.max_hp = bump_exec(self.max_hp),
            PassiveKind::MoveSpeed => self.move_speed = bump_exec(self.move_speed),
            PassiveKind::Damage => self.damage = bump_exec(self.damage),
            PassiveKind::FireRate => self.fire_rate = bump_exec(self.fire_rate),
            PassiveKind::Magnet => self.magnet = bump_exec(self.magnet),
            PassiveKind::Regen => self.regen = bump_exec(self.regen),
            PassiveKind::Armor => self.armor = bump_exec(self.armor),
        }
    }
}

/// Owned weapons and the passives taken so far.
pub struct Loadout {
    pub weapons: Vec<Weapon>,
    pub stacks: PassiveStacks,
}

/// Whether any weapon of `ws` is of kind `k`.
pub open spec fn owns(ws: Seq<Weapon>, k: WeaponKind) -> bool {
    exists|i: int| 0 <= i < ws.len() && (#[trigger] ws[i]).kind == k
}

/// No two weapons of `ws` are of the same kind.
pub open spec fn kinds_distinct(ws: Seq<Weapon>) -> bool {
    forall|i: int, j: int| 0 <= i < ws.len() && 0 <= j < ws.len() && i != j ==> #[trigger] ws[i].kind != #[trigger] ws[j].kind
}

/// "Level up weapon `i`" for every weapon among the first `n` not yet maxed,
/// in slot order.
pub open spec fn level_up_options(ws: Seq<Weapon>, n: nat) -> Seq<Upgrade>
    decreases n,
{
    if n == 0 {
        Seq::empty()
    } else {
        let prev = level_up_options(ws, (n - 1) as nat);
        if !ws[n - 1].spec_is_max() {
            prev.push(Upgrade::LevelWeapon((n - 1) as usize))
        } else {
            prev
        }
    }
}

/// "New weapon `k`" for every kind among the first `n` of the weapon list
/// that `ws` does not own.
pub open spec fn new_weapon_options(ws: Seq<Weapon>, n: nat) -> Seq<Upgrade>
    decreases n,
{
    if n == 0 {
        Seq::empty()
    } else {
        let prev = new_weapon_options(ws, (n - 1) as nat);
        let k = all_weapon_kinds()[n - 1];
        if !owns(ws, k) {
            prev.push(Upgrade::NewWeapon(k))
        } else {
            prev
        }
    }
}

/// Every passive, as upgrade cards.
pub open spec fn passive_options() -> Seq<Upgrade> {
    all_passive_kinds().map_values(|p: PassiveKind| Upgrade::Passive(p))
}

/// The cards a level-up may draw from: level-ups of unmaxed weapons, then
/// new weapons while fewer than six are owned, then every passive.
pub open spec fn upgrade_pool(ws: Seq<Weapon>) -> Seq<Upgrade> {
    level_up_options(ws, ws.len())
        + (if ws.len() < 6 { new_weapon_options(ws, 6) } else { Seq::empty() })
        + passive_options()
}

/// The decimal digits of `n`, most significant first.
pub open spec fn spec_digit(d: int) -> Seq<char> {
    if d == 0 {
        "0"@
    } else if d == 1 {
        "1"@
    } else if d == 2 {
        "2"@
    } else if d == 3 {
        "3"@
    } else if d == 4 {
        "4"@
    } else if d == 5 {
        "5"@
    } else if d == 6 {
        "6"@
    } else if d == 7 {
        "7"@
    } else if d == 8 {
        "8"@
    } else {
        "9"@
    }
}

/// The decimal numeral of a byte value.
pub open spec fn spec_decimal(n: u8) -> Seq<char> {
    if n >= 100 {
        spec_digit((n / 100) as int) + spec_digit(((n / 10) % 10) as int) + spec_digit((n % 10) as int)
    } else if n >= 10 {
        spec_digit((n / 10) as int) + spec_digit((n % 10) as int)
    } else {
        spec_digit(n as int)
    }
}

fn push_digit(s: &mut String, d: u8)
    requires
        d < 10,
    ensures
        final(s)@ == old(s)@ + spec_digit(d as int),
{
    match d {
        0 => s.append("0"),
        1 => s.append("1"),
        2 => s.append("2"),
        3 => s.append("3"),
        4 => s.append("4"),
        5 => s.append("5"),
        6 => s.append("6"),
        7 => s.append("7"),
        8 => s.append("8"),
        _ => s.append("9"),
    }
}

fn push_decimal(s: &mut String, n: u8)
    ensures
        final(s)@ == old(s)@ + spec_decimal(n),
{
    if n >= 100 {
        push_digit(s, n / 100);
        push_digit(s, (n / 10) % 10);
        push_digit(s, n % 10);
    } else if n >= 10 {
        push_digit(s, n / 10);
        push_digit(s, n % 10);
    } else {
        push_digit(s, n);
    }
}

/// Trusted: `rand`'s `SliceRandom::shuffle`, which permutes the vector in
/// place by swaps. Claimed: the result holds the same items, each as many
/// times. Which permutation comes out depends on the generator's state and
/// is not stated.
#[verifier::external_body]
fn shuffle_upgrades(pool: &mut Vec<Upgrade>, rng: &mut StdRng)
    ensures
        final(pool)@.to_multiset() == old(pool)@.to_multiset(),
        final(pool)@.len() == old(pool)@.len(),
{
    pool.shuffle(rng);
}

/// The cards offered from a shuffled pool: its first three, or all of it
/// when it holds fewer.
pub fn first_choices(shuffled: Vec<Upgrade>) -> (c: Vec<Upgrade>)
    ensures
        c@ == shuffled@.take(if shuffled@.len() < 3 { shuffled@.len() as int } else { 3 }),
{
    let mut c = shuffled;
    c.truncate(3);
    c
}

impl Loadout {
    /// A loadout holding one level-1 weapon and no passives.
    pub fn new(start: WeaponKind) -> (lo: Loadout)
        ensures
            lo.weapons@ == seq![Weapon { kind: start, level: 1 }],
            forall|p: PassiveKind| #[trigger] lo.stacks.count(p) == 0,
    {
        let mut weapons: Vec<Weapon> = Vec::new();
        weapons.push(Weapon::new(start));
        Loadout { weapons, stacks: PassiveStacks::new() }
    }

    /// Whether a weapon of kind `k` is owned.
    pub fn has(&self, k: WeaponKind) -> (r: bool)
        ensures
            r == owns(self.weapons@, k),
    {
        let mut i: usize = 0;
        while i < self.weapons.len()
            invariant
                i <= self.weapons.len(),
                forall|j: int| 0 <= j < i ==> (#[trigger] self.weapons@[j]).kind != k,
            decreases self.weapons.len() - i,
        {
            if self.weapons[i].kind == k {
                return true;
            }
            i = i + 1;
        }
        false
    }

    /// Every card a level-up may offer right now, in pool order.
    pub fn upgrade_pool(&self) -> (pool: Vec<Upgrade>)
        ensures
            pool@ == upgrade_pool(self.weapons@),
    {
        let mut pool: Vec<Upgrade> = Vec::new();
        let n = self.weapons.len();
        let mut i: usize = 0;
        while i < n
            invariant
                n == self.weapons@.len(),
                i <= n,
                pool@ == level_up_options(self.weapons@, i as nat),
            decreases n - i,
        {
            if !self.weapons[i].is_max() {
                pool.push(Upgrade::LevelWeapon(i));
            }
            i = i + 1;
        }
        let ghost levels = pool@;
        if n < 6 {
            let kinds = WeaponKind::all();
            let mut k: usize = 0;
            while k < 6
                invariant
                    kinds@ == all_weapon_kinds(),
                    k <= 6,
                    pool@ == levels + new_weapon_options(self.weapons@, k as nat),
                decreases 6 - k,
            {
                if !self.has(kinds[k]) {
                    pool.push(Upgrade::NewWeapon(kinds[k]));
                }
                k = k + 1;
            }
        }
        let ghost before_passives = pool@;
        let passives = PassiveKind::all();
        let mut p: usize = 0;
        while p < 7
            invariant
                passives@ == all_passive_kinds(),
                p <= 7,
                pool@ == before_passives + passive_options().take(p as int),
            decreases 7 - p,
        {
            pool.push(Upgrade::Passive(passives[p]));
            proof {
                assert(passive_options().take(p + 1) == passive_options().take(p as int).push(
                    Upgrade::Passive(passives@[p as int]),
                ));
            }
            p = p + 1;
        }
        proof {
            assert(passive_options().take(7) == passive_options());
        }
        pool
    }

    /// Up to three distinct level-up cards, drawn at random from the pool.
    pub fn generate_choices(&self, rng: &mut StdRng) -> (choices: Vec<Upgrade>)
        ensures
            choices@.len() == (if upgrade_pool(self.weapons@).len() < 3 {
                upgrade_pool(self.weapons@).len()
            } else {
                3
            }),
            choices@.no_duplicates(),
            forall|i: int| 0 <= i < choices@.len() ==> upgrade_pool(self.weapons@).contains(#[trigger] choices@[i]),
    {
        let mut pool = self.upgrade_pool();
        proof {
            assert(self.weapons.len() == self.weapons@.len());
            lemma_pool_no_duplicates(self.weapons@);
        }
        let ghost full = pool@;
        shuffle_upgrades(&mut pool, rng);
        proof {
            full.lemma_multiset_has_no_duplicates();
            assert forall|x: Upgrade| pool@.to_multiset().contains(x) implies pool@.to_multiset().count(x) == 1 by {
                assert(full.to_multiset().count(x) == pool@.to_multiset().count(x));
            }
            pool@.lemma_multiset_has_no_duplicates_conv();
        }
        let ghost shuffled = pool@;
        let pool = first_choices(pool);
        proof {
            assert forall|i: int| 0 <= i < pool@.len() implies full.contains(#[trigger] pool@[i]) by {
                assert(shuffled[i] == pool@[i]);
                assert(shuffled.contains(pool@[i]));
                assert(shuffled.to_multiset().count(pool@[i]) > 0);
                assert(full.to_multiset().count(pool@[i]) > 0);
            }
            assert forall|i: int, j: int| 0 <= i < pool@.len() && 0 <= j < pool@.len() && i != j implies pool@[i] != pool@[j] by {
                assert(shuffled[i] == pool@[i]);
                assert(shuffled[j] == pool@[j]);
            }
        }
        pool
    }

    /// Title and description for an upgrade card.
    pub fn describe(&self, up: &Upgrade) -> (r: (String, String))
        requires
            match *up {
                Upgrade::LevelWeapon(i) => i < self.weapons@.len() && self.weapons@[i as int].level < 255,
                _ => true,
            },
        ensures
            match *up {
                Upgrade::NewWeapon(k) => r.0@ == k.spec_name() + " (NEW)"@ && r.1@ == k.spec_desc(),
                Upgrade::LevelWeapon(i) => {
                    let w = self.weapons@[i as int];
                    &&& r.0@ == w.kind.spec_name() + " Lv"@ + spec_decimal(w.level) + "→"@
                        + spec_decimal((w.level + 1) as u8)
                    &&& r.1@ == w.kind.spec_desc()
                },
                Upgrade::Passive(p) => r.0@ == p.spec_name() && r.1@ == p.spec_desc(),
            },
    {
        match *up {
            Upgrade::NewWeapon(k) => {
                let mut title = String::from_str(k.name());
                title.append(" (NEW)");
                (title, String::from_str(k.desc()))
            },
            Upgrade::LevelWeapon(i) => {
                let w = self.weapons[i];
                let mut title = String::from_str(w.kind.name());
                title.append(" Lv");
                push_decimal(&mut title, w.level);
                title.append("→");
                push_decimal(&mut title, w.level + 1);
                (title, String::from_str(w.kind.desc()))
            },
            Upgrade::Passive(p) => (String::from_str(p.name()), String::from_str(p.desc())),
        }
    }

    /// Apply an upgrade; returns the hit points to restore with it (20 for
    /// Fat Reserves, else 0).
    pub fn apply(&mut self, up: &Upgrade) -> (heal: u32)
        ensures
            match *up {
                Upgrade::NewWeapon(k) => {
                    &&& final(self).weapons@ == (if owns(old(self).weapons@, k) {
                        old(self).weapons@
                    } else {
                        old(self).weapons@.push(Weapon { kind: k, level: 1 })
                    })
                    &&& final(self).stacks == old(self).stacks
                    &&& heal == 0
                },
                Upgrade::LevelWeapon(i) => {
                    &&& final(self).weapons@ == (if i < old(self).weapons@.len()
                        && !old(self).weapons@[i as int].spec_is_max() {
                        old(self).weapons@.update(
                            i as int,
                            Weapon { kind: old(self).weapons@[i as int].kind, level: (old(self).weapons@[i as int].level + 1) as u8 },
                        )
                    } else {
                        old(self).weapons@
                    })
                    &&& final(self).stacks == old(self).stacks
                    &&& heal == 0
                },
                Upgrade::Passive(p) => {
                    &&& final(self).weapons@ == old(self).weapons@
                    &&& final(self).stacks.count(p) == bump(old(self).stacks.count(p))
                    &&& forall|q: PassiveKind| q != p ==> #[trigger] final(self).stacks.count(q) == old(self).stacks.count(q)
                    &&& heal == (if p == PassiveKind::MaxHp { 20u32 } else { 0u32 })
                },
            },
    {
        match *up {
            Upgrade::NewWeapon(k) => {
                if !self.has(k) {
                    self.weapons.push(Weapon::new(k));
                }
                0
            },
            Upgrade::LevelWeapon(i) => {
                if i < self.weapons.len() {
                    let w = self.weapons[i];
                    if !w.is_max() {
                        self.weapons.set(i, Weapon { kind: w.kind, level: w.level + 1 });
                    }
                }
                0
            },
            Upgrade::Passive(p) => {
                self.stacks.add(p);
                match p {
                    PassiveKind::MaxHp => 20,
                    _ => 0,
                }
            },
        }
    }
}

proof fn lemma_level_up_options_shape(ws: Seq<Weapon>, n: nat)
    requires
        n <= ws.len(),
        ws.len() <= usize::MAX,
    ensures
        forall|a: int| 0 <= a < level_up_options(ws, n).len() ==> (#[trigger] level_up_options(ws, n)[a]) is LevelWeapon
            && level_up_options(ws, n)[a]->LevelWeapon_0 < n,
        forall|a: int, b: int| 0 <= a < b < level_up_options(ws, n).len()
            ==> (#[trigger] level_up_options(ws, n)[a])->LevelWeapon_0 < (#[trigger] level_up_options(ws, n)[b])->LevelWeapon_0,
    decreases n,
{
    if n > 0 {
        lemma_level_up_options_shape(ws, (n - 1) as nat);
        let prev = level_up_options(ws, (n - 1) as nat);
        let cur = level_up_options(ws, n);
        assert forall|a: int, b: int| 0 <= a < b < cur.len() implies (#[trigger] cur[a])->LevelWeapon_0
            < (#[trigger] cur[b])->LevelWeapon_0 by {
            assert(cur[a] == prev[a]);
            assert(prev[a]->LevelWeapon_0 < n - 1);
            if b < prev.len() {
                assert(cur[b] == prev[b]);
            } else {
                assert(cur == prev.push(Upgrade::LevelWeapon((n - 1) as usize)));
                assert(cur[b] == Upgrade::LevelWeapon((n - 1) as usize));
            }
        }
    }
}

proof fn lemma_new_weapon_options_shape(ws: Seq<Weapon>, n: nat)
    requires
        n <= 6,
    ensures
        forall|a: int| 0 <= a < new_weapon_options(ws, n).len() ==> (#[trigger] new_weapon_options(ws, n)[a]) is NewWeapon
            && (exists|j: int| 0 <= j < n && #[trigger] all_weapon_kinds()[j] == new_weapon_options(ws, n)[a]->NewWeapon_0),
        new_weapon_options(ws, n).no_duplicates(),
    decreases n,
{
    if n > 0 {
        let prev = new_weapon_options(ws, (n - 1) as nat);
        lemma_new_weapon_options_shape(ws, (n - 1) as nat);
        let k = all_weapon_kinds()[n - 1];
        lemma_all_weapons_distinct_and_complete(k);
        assert forall|a: int| 0 <= a < prev.len() implies (#[trigger] prev[a])->NewWeapon_0 != k by {
            let kk = prev[a]->NewWeapon_0;
            let j = choose|j: int| 0 <= j < n - 1 && #[trigger] all_weapon_kinds()[j] == kk;
            assert(all_weapon_kinds()[j] != all_weapon_kinds()[n - 1]);
        }
        let cur = new_weapon_options(ws, n);
        assert forall|a: int| 0 <= a < cur.len() implies (#[trigger] cur[a]) is NewWeapon
            && (exists|j: int| 0 <= j < n && #[trigger] all_weapon_kinds()[j] == cur[a]->NewWeapon_0) by {
            if a < prev.len() {
                assert(cur[a] == prev[a]);
                let j = choose|j: int| 0 <= j < n - 1 && #[trigger] all_weapon_kinds()[j] == prev[a]->NewWeapon_0;
                assert(all_weapon_kinds()[j] == cur[a]->NewWeapon_0);
            } else {
                assert(all_weapon_kinds()[n - 1] == cur[a]->NewWeapon_0);
            }
        }
    }
}

/// The level-up pool never lists the same card twice.
pub proof fn lemma_pool_no_duplicates(ws: Seq<Weapon>)
    requires
        ws.len() <= usize::MAX,
    ensures
        upgrade_pool(ws).no_duplicates(),
{
    let l = level_up_options(ws, ws.len());
    let nw = if ws.len() < 6 { new_weapon_options(ws, 6) } else { Seq::<Upgrade>::empty() };
    let ps = passive_options();
    lemma_level_up_options_shape(ws, ws.len());
    lemma_new_weapon_options_shape(ws, 6);
    let pool = l + nw + ps;
    assert forall|a: int, b: int| 0 <= a < pool.len() && 0 <= b < pool.len() && a != b implies pool[a] != pool[b] by {
        if a < l.len() && b < l.len() {
            if a < b {
                assert(l[a]->LevelWeapon_0 < l[b]->LevelWeapon_0);
            } else {
                assert(l[b]->LevelWeapon_0 < l[a]->LevelWeapon_0);
            }
        } else if a >= l.len() + nw.len() && b >= l.len() + nw.len() {
            let ia = a - l.len() - nw.len();
            let ib = b - l.len() - nw.len();
            assert(pool[a] == ps[ia]);
            assert(pool[b] == ps[ib]);
        } else if a < l.len() {
            assert(pool[a] is LevelWeapon);
            if b < l.len() + nw.len() {
                assert(pool[b] == nw[b - l.len()]);
            }
        } else if b < l.len() {
            assert(pool[b] is LevelWeapon);
            if a < l.len() + nw.len() {
                assert(pool[a] == nw[a - l.len()]);
            }
        } else if a < l.len() + nw.len() && b < l.len() + nw.len() {
            assert(pool[a] == nw[a - l.len()]);
            assert(pool[b] == nw[b - l.len()]);
        } else if a < l.len() + nw.len() {
            assert(pool[a] == nw[a - l.len()]);
            assert(pool[a] is NewWeapon);
        } else {
            assert(pool[b] == nw[b - l.len()]);
            assert(pool[b] is NewWeapon);
        }
    }
}

proof fn lemma_push_contains(s: Seq<Upgrade>, x: Upgrade, u: Upgrade)
    ensures
        s.push(x).contains(u) <==> (s.contains(u) || u == x),
{
    let t = s.push(x);
    if t.contains(u) {
        let k = choose|k: int| 0 <= k < t.len() && t[k] == u;
        if k < s.len() {
            assert(s[k] == u);
        }
    }
    if s.contains(u) {
        let k = choose|k: int| 0 <= k < s.len() && s[k] == u;
        assert(t[k] == u);
    }
    if u == x {
        assert(t[s.len() as int] == u);
    }
}

proof fn lemma_concat_contains(a: Seq<Upgrade>, b: Seq<Upgrade>, u: Upgrade)
    ensures
        (a + b).contains(u) <==> (a.contains(u) || b.contains(u)),
{
    let t = a + b;
    if t.contains(u) {
        let k = choose|k: int| 0 <= k < t.len() && t[k] == u;
        if k < a.len() {
            assert(a[k] == u);
        } else {
            assert(b[k - a.len()] == u);
        }
    }
    if a.contains(u) {
        let k = choose|k: int| 0 <= k < a.len() && a[k] == u;
        assert(t[k] == u);
    }
    if b.contains(u) {
        let k = choose|k: int| 0 <= k < b.len() && b[k] == u;
        assert(t[a.len() + k] == u);
    }
}

proof fn lemma_level_up_options_contains(ws: Seq<Weapon>, n: nat, u: Upgrade)
    requires
        n <= ws.len(),
        ws.len() <= usize::MAX,
    ensures
        level_up_options(ws, n).contains(u) <==> (u is LevelWeapon && (u->LevelWeapon_0 as int) < n
            && !ws[u->LevelWeapon_0 as int].spec_is_max()),
    decreases n,
{
    if n > 0 {
        lemma_level_up_options_contains(ws, (n - 1) as nat, u);
        let prev = level_up_options(ws, (n - 1) as nat);
        if !ws[n - 1].spec_is_max() {
            lemma_push_contains(prev, Upgrade::LevelWeapon((n - 1) as usize), u);
        }
    }
}

/// Where kind `k` stands in the list of every weapon kind.
spec fn kind_slot(k: WeaponKind) -> int {
    match k {
        WeaponKind::Gnaw => 0,
        WeaponKind::CheeseSpray => 1,
        WeaponKind::SqueakNova => 2,
        WeaponKind::SporeOrbit => 3,
        WeaponKind::TailWhip => 4,
        WeaponKind::AcidSpit => 5,
    }
}

proof fn lemma_new_weapon_options_contains(ws: Seq<Weapon>, n: nat, u: Upgrade)
    requires
        n <= 6,
    ensures
        new_weapon_options(ws, n).contains(u) <==> (u is NewWeapon && kind_slot(u->NewWeapon_0) < n && !owns(
            ws,
            u->NewWeapon_0,
        )),
    decreases n,
{
    if n > 0 {
        lemma_new_weapon_options_contains(ws, (n - 1) as nat, u);
        let prev = new_weapon_options(ws, (n - 1) as nat);
        let kn = all_weapon_kinds()[n - 1];
        if !owns(ws, kn) {
            lemma_push_contains(prev, Upgrade::NewWeapon(kn), u);
        }
        if u is NewWeapon {
            let k = u->NewWeapon_0;
            lemma_all_weapons_distinct_and_complete(k);
            assert(all_weapon_kinds()[kind_slot(k)] == k);
            if kn == k {
                assert(all_weapon_kinds()[n - 1] == all_weapon_kinds()[kind_slot(k)]);
            }
        }
    }
}

proof fn lemma_passive_options_contains(u: Upgrade)
    ensures
        passive_options().contains(u) <==> u is Passive,
{
    let ps = passive_options();
    if ps.contains(u) {
        let k = choose|k: int| 0 <= k < ps.len() && ps[k] == u;
        assert(ps[k] == Upgrade::Passive(all_passive_kinds()[k]));
    }
    if u is Passive {
        let i: int = match u->Passive_0 {
            PassiveKind::MaxHp => 0,
            PassiveKind::MoveSpeed => 1,
            PassiveKind::Damage => 2,
            PassiveKind::FireRate => 3,
            PassiveKind::Magnet => 4,
            PassiveKind::Regen => 5,
            PassiveKind::Armor => 6,
        };
        assert(ps[i] == u);
    }
}

/// What a level-up may offer: leveling any owned weapon not yet at its
/// maximum, any weapon kind not owned while fewer than six are owned, and
/// every passive; nothing else.
pub proof fn lemma_pool_members(ws: Seq<Weapon>, u: Upgrade)
    requires
        ws.len() <= usize::MAX,
    ensures
        upgrade_pool(ws).contains(u) <==> match u {
            Upgrade::LevelWeapon(i) => i < ws.len() && ws[i as int].level < spec_max_level(),
            Upgrade::NewWeapon(k) => ws.len() < 6 && !owns(ws, k),
            Upgrade::Passive(_) => true,
        },
{
    let l = level_up_options(ws, ws.len());
    let nw = if ws.len() < 6 { new_weapon_options(ws, 6) } else { Seq::<Upgrade>::empty() };
    let ps = passive_options();
    lemma_concat_contains(l + nw, ps, u);
    lemma_concat_contains(l, nw, u);
    lemma_level_up_options_contains(ws, ws.len(), u);
    lemma_new_weapon_options_contains(ws, 6, u);
    lemma_passive_options_contains(u);
    if u is NewWeapon {
        assert(0 <= kind_slot(u->NewWeapon_0) < 6);
    }
}

/// Applying "new weapon `k`" always leaves `k` owned.
pub proof fn lemma_new_weapon_owned(before: Seq<Weapon>, k: WeaponKind)
    ensures
        owns(
            if owns(before, k) { before } else { before.push(Weapon { kind: k, level: 1 }) },
            k,
        ),
{
    if !owns(before, k) {
        let after = before.push(Weapon { kind: k, level: 1 });
        assert(after[before.len() as int].kind == k);
    }
}

/// The upgrades a loadout can receive keep weapon kinds distinct.
pub proof fn lemma_apply_keeps_kinds_distinct(before: Seq<Weapon>, up: Upgrade)
    requires
        kinds_distinct(before),
    ensures
        match up {
            Upgrade::NewWeapon(k) => kinds_distinct(
                if owns(before, k) { before } else { before.push(Weapon { kind: k, level: 1 }) },
            ),
            Upgrade::LevelWeapon(i) => i < before.len() ==> kinds_distinct(
                before.update(i as int, Weapon { kind: before[i as int].kind, level: (before[i as int].level + 1) as u8 }),
            ),
            Upgrade::Passive(_) => true,
        },
{
    match up {
        Upgrade::NewWeapon(k) => {
            if !owns(before, k) {
                let after = before.push(Weapon { kind: k, level: 1 });
                assert forall|i: int, j: int| 0 <= i < after.len() && 0 <= j < after.len() && i != j implies #[trigger] after[i].kind
                    != #[trigger] after[j].kind by {
                    if i < before.len() && j < before.len() {
                        assert(after[i] == before[i]);
                        assert(after[j] == before[j]);
                    } else if i < before.len() {
                        assert(after[i] == before[i]);
                    } else {
                        assert(after[j] == before[j]);
                    }
                }
            }
        },
        Upgrade::LevelWeapon(i) => {
            if i < before.len() {
                let after = before.update(i as int, Weapon { kind: before[i as int].kind, level: (before[i as int].level + 1) as u8 });
                assert forall|a: int, b: int| 0 <= a < after.len() && 0 <= b < after.len() && a != b implies #[trigger] after[a].kind
                    != #[trigger] after[b].kind by {
                    assert(after[a].kind == before[a].kind);
                    assert(after[b].kind == before[b].kind);
                }
            }
        },
        Upgrade::Passive(_) => {},
    }
}

/// Leveling a weapon never takes it past the maximum level.
pub proof fn lemma_level_up_capped(w: Weapon)
    requires
        w.level <= spec_max_level(),
    ensures
        !w.spec_is_max() ==> w.level + 1 <= spec_max_level(),
{
}

/// Every level-up offers exactly three cards: the seven passives are always
/// in the pool, so it never runs short.
pub proof fn lemma_three_cards(ws: Seq<Weapon>)
    ensures
        upgrade_pool(ws).len() >= 7,
        (if upgrade_pool(ws).len() < 3 { upgrade_pool(ws).len() } else { 3 }) == 3,
{
    assert(passive_options().len() == 7);
}

} // verus!
