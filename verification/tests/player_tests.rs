use ratrun::player::{xp_for_level, Progress};

#[test]
fn levels_up_on_threshold() {
    let mut p = Progress::new();
    let need = p.xp_to_next;
    let ups = p.add_xp(need);
    assert_eq!(ups, 1);
    assert_eq!(p.level, 2);
}

#[test]
fn multi_level_in_one_gain() {
    let mut p = Progress::new();
    let ups = p.add_xp(1000);
    assert!(ups >= 2);
}

#[test]
fn thresholds_grow_by_five() {
    assert_eq!(xp_for_level(1), 10);
    assert_eq!(xp_for_level(2), 15);
    assert_eq!(xp_for_level(10), 55);
}

#[test]
fn experience_carries_over() {
    let mut p = Progress::new();
    // 10 to reach level 2, 15 more to reach level 3, 3 left over.
    assert_eq!(p.add_xp(28), 2);
    assert_eq!((p.level, p.xp, p.xp_to_next), (3, 3, 20));
    assert_eq!(p.add_xp(16), 0);
    assert_eq!((p.level, p.xp), (3, 19));
    assert_eq!(p.add_xp(1), 1);
    assert_eq!((p.level, p.xp, p.xp_to_next), (4, 0, 25));
}

#[test]
fn exact_levels_for_a_large_gain() {
    // Thresholds 10, 15, ..., 95 add up to 945 over eighteen levels; the
    // 55 left is below the next threshold of 100.
    let mut p = Progress::new();
    assert_eq!(p.add_xp(1000), 18);
    assert_eq!(p.level, 19);
    assert_eq!(p.xp, 55);
    assert_eq!(p.xp_to_next, 100);
}
