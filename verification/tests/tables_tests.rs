use ratrun::enemy::{bug_style, BugStyle, EnemyKind};
use ratrun::gem::{gem_color, PickupKind};
use ratrun::level::Theme;
use ratrun::loadout::PassiveKind;
use ratrun::lore::{map_intro, victory};
use ratrun::screen::Sfx;
use ratrun::weapon::{Weapon, WeaponKind};

#[test]
fn weapon_table() {
    assert_eq!(WeaponKind::all().len(), 6);
    assert_eq!(WeaponKind::CheeseSpray.name(), "Cheese Spray");
    assert_eq!(WeaponKind::Gnaw.desc(), "Fires a dart at the nearest foe.");
    assert_eq!(WeaponKind::TailWhip.flavor(), "Forty grams of pure indignation.");
    for k in WeaponKind::all() {
        assert_eq!(k.max_level(), 5);
    }
}

#[test]
fn weapon_projectiles_by_level() {
    let mut w = Weapon::new(WeaponKind::SqueakNova);
    assert_eq!(w.level, 1);
    assert_eq!(w.level_projectiles(), 8);
    w.level = 5;
    assert!(w.is_max());
    assert_eq!(w.level_projectiles(), 16);
    let g = Weapon { kind: WeaponKind::Gnaw, level: 3 };
    assert_eq!(g.level_projectiles(), 3);
    assert!(!g.is_max());
}

#[test]
fn enemy_table() {
    assert_eq!(EnemyKind::Skitterer.xp(), 1);
    assert_eq!(EnemyKind::Boss.xp(), 200);
    assert_eq!(EnemyKind::Boss.kill_score(), 2000);
    assert!(EnemyKind::Spitter.ranged());
    assert!(!EnemyKind::Brute.ranged());
    assert!(!EnemyKind::Boss.ranged());
    assert_eq!(EnemyKind::Brute.color(), (170, 70, 60));
}

#[test]
fn bug_anatomy_per_kind() {
    assert_eq!(
        bug_style(EnemyKind::Skitterer),
        BugStyle { segs: 3, leg_pairs: 3, wings: false, stripes: false, horn: false, eyes: false }
    );
    let boss = bug_style(EnemyKind::Boss);
    assert_eq!((boss.segs, boss.leg_pairs), (3, 4));
    assert!(boss.wings && boss.stripes && boss.horn && boss.eyes);
    assert!(bug_style(EnemyKind::Bat).wings);
    assert!(bug_style(EnemyKind::Brute).horn);
    assert!(!bug_style(EnemyKind::Cat).wings);
}

#[test]
fn gem_tiers_and_pickups() {
    assert_eq!(gem_color(1), (90, 200, 255));
    assert_eq!(gem_color(5), (120, 230, 255));
    assert_eq!(gem_color(25), (255, 220, 90));
    assert_eq!(PickupKind::from_roll(0), PickupKind::Heal);
    assert_eq!(PickupKind::from_roll(1), PickupKind::Magnet);
    assert_eq!(PickupKind::from_roll(7), PickupKind::Nuke);
    assert_eq!(PickupKind::Magnet.glyph(), "M");
    assert_eq!(PickupKind::Heal.color(), (90, 255, 120));
}

#[test]
fn passive_table() {
    let all = PassiveKind::all();
    assert_eq!(all.len(), 7);
    for (i, a) in all.iter().enumerate() {
        for b in all.iter().skip(i + 1) {
            assert_ne!(a, b);
        }
        assert!(!a.name().is_empty());
        assert!(!a.desc().is_empty());
    }
}

#[test]
fn lore_per_map() {
    assert_eq!(map_intro(Theme::Sewer).0, "LEVEL 1 — THE SEWERS");
    assert!(map_intro(Theme::Lab).1.starts_with("Where you were made."));
    assert!(victory(Theme::Kitchen).starts_with("The pilot lights gutter out"));
}

#[test]
fn death_effects_per_kind() {
    assert!(EnemyKind::Boss.is_big() && EnemyKind::Brute.is_big());
    assert!(!EnemyKind::Cat.is_big());
    assert_eq!(EnemyKind::Boss.death_particles(), 120);
    assert_eq!(EnemyKind::Brute.death_particles(), 28);
    assert_eq!(EnemyKind::Bat.death_particles(), 10);
    assert_eq!(EnemyKind::Brute.death_sfx(), Sfx::Explosion);
    assert_eq!(EnemyKind::Skitterer.death_sfx(), Sfx::Kill);
}
