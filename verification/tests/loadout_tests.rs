use rand::rngs::StdRng;
use rand::SeedableRng;
use ratrun::loadout::{first_choices, Loadout, PassiveKind, Upgrade};
use ratrun::weapon::WeaponKind;

#[test]
fn choices_are_valid_and_capped() {
    let lo = Loadout::new(WeaponKind::Gnaw);
    let mut rng = StdRng::seed_from_u64(7);
    let c = lo.generate_choices(&mut rng);
    assert!(c.len() <= 3 && !c.is_empty());
}

#[test]
fn applying_passive_changes_stats() {
    let mut lo = Loadout::new(WeaponKind::Gnaw);
    let before = lo.stacks.damage;
    lo.apply(&Upgrade::Passive(PassiveKind::Damage));
    assert!(lo.stacks.damage > before);
}

#[test]
fn applying_new_weapon_adds_it() {
    let mut lo = Loadout::new(WeaponKind::Gnaw);
    assert!(!lo.has(WeaponKind::TailWhip));
    lo.apply(&Upgrade::NewWeapon(WeaponKind::TailWhip));
    assert!(lo.has(WeaponKind::TailWhip));
}

#[test]
fn leveling_weapon_respects_max() {
    let mut lo = Loadout::new(WeaponKind::Gnaw);
    for _ in 0..20 {
        lo.apply(&Upgrade::LevelWeapon(0));
    }
    assert_eq!(lo.weapons[0].level, WeaponKind::Gnaw.max_level());
}

#[test]
fn pool_of_a_fresh_loadout() {
    let lo = Loadout::new(WeaponKind::Gnaw);
    let pool = lo.upgrade_pool();
    // One level-up card, five new weapons, seven passives.
    assert_eq!(pool.len(), 13);
    assert_eq!(pool[0], Upgrade::LevelWeapon(0));
    assert!(!pool.contains(&Upgrade::NewWeapon(WeaponKind::Gnaw)));
    assert!(pool.contains(&Upgrade::NewWeapon(WeaponKind::SporeOrbit)));
    assert_eq!(pool[pool.len() - 1], Upgrade::Passive(PassiveKind::all()[6]));
}

#[test]
fn choices_are_distinct_members_of_the_pool() {
    let lo = Loadout::new(WeaponKind::CheeseSpray);
    let pool = lo.upgrade_pool();
    for seed in 0..20u64 {
        let mut rng = StdRng::seed_from_u64(seed);
        let c = lo.generate_choices(&mut rng);
        assert_eq!(c.len(), 3);
        for (i, a) in c.iter().enumerate() {
            assert!(pool.contains(a));
            for b in c.iter().skip(i + 1) {
                assert_ne!(a, b);
            }
        }
    }
}

#[test]
fn shuffling_changes_order_with_the_seed() {
    // The draw comes from the generator: over many seeds the first card is
    // not always the first entry of the pool.
    let lo = Loadout::new(WeaponKind::Gnaw);
    let pool = lo.upgrade_pool();
    let mut differs = false;
    for seed in 0..20u64 {
        let mut rng = StdRng::seed_from_u64(seed);
        if lo.generate_choices(&mut rng)[0] != pool[0] {
            differs = true;
        }
    }
    assert!(differs);
}

#[test]
fn full_arsenal_offers_no_new_weapons() {
    let mut lo = Loadout::new(WeaponKind::Gnaw);
    for k in WeaponKind::all() {
        lo.apply(&Upgrade::NewWeapon(k));
    }
    assert_eq!(lo.weapons.len(), 6);
    let pool = lo.upgrade_pool();
    assert!(pool.iter().all(|u| !matches!(u, Upgrade::NewWeapon(_))));
    assert_eq!(pool.len(), 6 + 7);
}

#[test]
fn apply_returns_heal_for_max_hp_only() {
    let mut lo = Loadout::new(WeaponKind::Gnaw);
    assert_eq!(lo.apply(&Upgrade::Passive(PassiveKind::MaxHp)), 20);
    assert_eq!(lo.stacks.max_hp, 1);
    assert_eq!(lo.apply(&Upgrade::Passive(PassiveKind::Armor)), 0);
    assert_eq!(lo.apply(&Upgrade::NewWeapon(WeaponKind::Gnaw)), 0);
    assert_eq!(lo.weapons.len(), 1);
}

#[test]
fn describe_cards() {
    let lo = Loadout::new(WeaponKind::Gnaw);
    let (t, d) = lo.describe(&Upgrade::LevelWeapon(0));
    assert_eq!(t, format!("{} Lv1→2", WeaponKind::Gnaw.name()));
    assert_eq!(d, WeaponKind::Gnaw.desc());
    let (t, _) = lo.describe(&Upgrade::NewWeapon(WeaponKind::TailWhip));
    assert_eq!(t, format!("{} (NEW)", WeaponKind::TailWhip.name()));
    let (t, d) = lo.describe(&Upgrade::Passive(PassiveKind::Regen));
    assert_eq!((t.as_str(), d.as_str()), (PassiveKind::Regen.name(), PassiveKind::Regen.desc()));
}

#[test]
fn maxed_arsenal_still_offers_three_cards() {
    let mut lo = Loadout::new(WeaponKind::Gnaw);
    for k in WeaponKind::all() {
        lo.apply(&Upgrade::NewWeapon(k));
    }
    for i in 0..6 {
        for _ in 0..5 {
            lo.apply(&Upgrade::LevelWeapon(i));
        }
    }
    assert!(lo.weapons.iter().all(|w| w.is_max()));
    assert_eq!(lo.upgrade_pool().len(), 7);
    let mut rng = StdRng::seed_from_u64(3);
    let c = lo.generate_choices(&mut rng);
    assert_eq!(c.len(), 3);
    assert!(c.iter().all(|u| matches!(u, Upgrade::Passive(_))));
}

#[test]
fn first_choices_keeps_the_first_three_in_order() {
    let pool = vec![
        Upgrade::Passive(PassiveKind::Damage),
        Upgrade::LevelWeapon(0),
        Upgrade::NewWeapon(WeaponKind::Gnaw),
        Upgrade::LevelWeapon(1),
    ];
    let c = first_choices(pool);
    assert_eq!(
        c,
        vec![
            Upgrade::Passive(PassiveKind::Damage),
            Upgrade::LevelWeapon(0),
            Upgrade::NewWeapon(WeaponKind::Gnaw),
        ]
    );
    let short = first_choices(vec![Upgrade::LevelWeapon(2)]);
    assert_eq!(short, vec![Upgrade::LevelWeapon(2)]);
    assert!(first_choices(Vec::new()).is_empty());
}
