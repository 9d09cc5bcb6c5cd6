use ratrun::scores::{ScoreEntry, ScoreTable, MAX_ENTRIES};

fn e(score: u32) -> ScoreEntry {
    ScoreEntry {
        score,
        time_bits: 0.0f32.to_bits(),
        level: 1,
        map: "Sewer".to_string(),
        won: false,
    }
}

#[test]
fn sorts_and_trims() {
    let mut t = ScoreTable::new();
    for s in [50, 10, 90, 30, 70, 20, 80, 5, 60, 40, 100] {
        t.insert(e(s));
    }
    assert_eq!(t.entries.len(), MAX_ENTRIES);
    assert_eq!(t.entries[0].score, 100);
    for w in t.entries.windows(2) {
        assert!(w[0].score >= w[1].score);
    }
    assert!(t.entries.iter().all(|x| x.score != 5));
}

#[test]
fn high_score_detection() {
    let mut t = ScoreTable::new();
    assert!(t.is_high_score(1));
    for s in 0..MAX_ENTRIES as u32 {
        t.insert(e((s + 1) * 100));
    }
    assert!(t.is_high_score(10_000));
    assert!(!t.is_high_score(1));
}

#[test]
fn best_is_the_top_score() {
    let mut t = ScoreTable::new();
    assert_eq!(t.best(), 0);
    t.insert(e(40));
    t.insert(e(70));
    t.insert(e(10));
    assert_eq!(t.best(), 70);
    let scores: Vec<u32> = t.entries.iter().map(|x| x.score).collect();
    assert_eq!(scores, vec![70, 40, 10]);
}

#[test]
fn equal_scores_keep_arrival_order() {
    let mut t = ScoreTable::new();
    let mut a = e(50);
    a.map = "Lab".to_string();
    let mut b = e(50);
    b.map = "Kitchen".to_string();
    t.insert(a);
    t.insert(b);
    assert_eq!(t.entries[0].map, "Lab");
    assert_eq!(t.entries[1].map, "Kitchen");
}

#[test]
fn a_score_at_the_bottom_of_a_full_table_is_not_high() {
    let mut t = ScoreTable::new();
    for s in 1..=10u32 {
        t.insert(e(s * 10));
    }
    // Ties with the lowest kept score do not make the table.
    assert!(!t.is_high_score(10));
    assert!(t.is_high_score(11));
    t.insert(e(10));
    assert!(t.entries.iter().filter(|x| x.score == 10).count() == 1);
}

#[test]
fn insert_reports_the_new_entry_rank() {
    let mut t = ScoreTable::new();
    assert_eq!(t.insert(e(100)), Some(0));
    assert_eq!(t.insert(e(50)), Some(1));
    // Equal scores keep arrival order: the later one ranks after.
    assert_eq!(t.insert(e(50)), Some(2));
    assert_eq!(t.insert(e(200)), Some(0));
    assert_eq!(t.entries[0].score, 200);
}

#[test]
fn insert_reports_none_when_trimmed() {
    let mut t = ScoreTable::new();
    for s in 0..MAX_ENTRIES as u32 {
        t.insert(e((s + 1) * 100));
    }
    assert_eq!(t.insert(e(1)), None);
    assert_eq!(t.entries.len(), MAX_ENTRIES);
    // A tie with the last entry lands after it and is trimmed too.
    assert_eq!(t.insert(e(100)), None);
    assert_eq!(t.insert(e(150)), Some(9));
}
