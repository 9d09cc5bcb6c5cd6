use ratrun::capped::Capped;
use ratrun::layout::{centered_rect, Area};

#[test]
fn cap_is_respected() {
    // Twenty bursts of twenty into a list of fifty.
    let mut ps: Capped<u32> = Capped::new(50);
    for burst in 0..20u32 {
        for i in 0..20u32 {
            ps.push(burst * 20 + i);
        }
    }
    assert!(ps.len() <= 50);
    assert_eq!(ps.len(), 50);
    // The newest fifty survive, oldest first.
    assert_eq!(ps.items[0], 350);
    assert_eq!(ps.items[49], 399);
}

#[test]
fn below_capacity_nothing_is_dropped() {
    let mut ps: Capped<&str> = Capped::new(3);
    ps.push("a");
    ps.push("b");
    assert_eq!(ps.items, vec!["a", "b"]);
    ps.push("c");
    ps.push("d");
    assert_eq!(ps.items, vec!["b", "c", "d"]);
    assert_eq!(ps.cap, 3);
}

#[test]
fn cards_are_centered_and_shrunk_to_fit() {
    let area = Area { x: 0, y: 0, width: 80, height: 40 };
    assert_eq!(centered_rect(58, 12, area), Area { x: 11, y: 14, width: 58, height: 12 });
    assert_eq!(centered_rect(100, 50, area), area);
    let offset = Area { x: 5, y: 2, width: 10, height: 5 };
    assert_eq!(centered_rect(3, 2, offset), Area { x: 8, y: 3, width: 3, height: 2 });
}
