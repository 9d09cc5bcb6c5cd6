use ratrun::level::Rect;
use ratrun::nav::{offset, FlowField, NavGrid};

/// The routing direction of a cell, as the game derives it: the unit moves
/// toward cheaper neighbours, weighted by how much cheaper they are.
fn direction(f: &FlowField, g: &NavGrid, cx: i32, cy: i32) -> (f32, f32) {
    let w = f.descent_weights(g, cx, cy);
    let (mut x, mut y) = (0.0f32, 0.0f32);
    for k in 0..8 {
        let (dx, dy) = offset(k);
        let len = ((dx * dx + dy * dy) as f32).sqrt();
        x += dx as f32 / len * w[k] as f32;
        y += dy as f32 / len * w[k] as f32;
    }
    let len = (x * x + y * y).sqrt();
    if len > 1e-6 {
        (x / len, y / len)
    } else {
        (0.0, 0.0)
    }
}

fn cell_of(x: f32, y: f32) -> (i32, i32) {
    ((x / 16.0) as i32, (y / 16.0) as i32)
}

#[test]
fn flow_points_toward_goal_in_open_field() {
    let g = NavGrid::build(320, 320, &Vec::new(), 16);
    let mut f = FlowField::new(&g);
    let goal = (160.0f32, 160.0f32);
    f.update(&g, cell_of(goal.0, goal.1));
    let from = (24.0f32, 24.0f32);
    let (cx, cy) = cell_of(from.0, from.1);
    let d = direction(&f, &g, cx, cy);
    let (tx, ty) = (goal.0 - from.0, goal.1 - from.1);
    let tl = (tx * tx + ty * ty).sqrt();
    let dot = d.0 * tx / tl + d.1 * ty / tl;
    assert!(dot > 0.5, "flow should aim at the goal: {d:?}");
}

#[test]
fn flow_routes_around_a_wall() {
    let wall = Rect::new(150, 0, 20, 240);
    let g = NavGrid::build(320, 320, &vec![wall], 16);
    let mut f = FlowField::new(&g);
    f.update(&g, cell_of(260.0, 120.0));
    let (cx, cy) = cell_of(60.0, 120.0);
    let d = direction(&f, &g, cx, cy);
    let len = (d.0 * d.0 + d.1 * d.1).sqrt();
    assert!(len > 0.1, "left-side cell should have a route around the wall");
    assert!(d.0 < 0.98, "flow should bend around, not push into the wall");
}

#[test]
fn recompute_only_on_cell_change() {
    let g = NavGrid::build(320, 320, &Vec::new(), 16);
    let mut f = FlowField::new(&g);
    f.update(&g, cell_of(100.0, 100.0));
    let g0 = f.goal();
    f.update(&g, cell_of(104.0, 102.0));
    assert_eq!(f.goal(), g0);
    f.update(&g, cell_of(200.0, 200.0));
    assert_ne!(f.goal(), g0);
}

#[test]
fn grid_dimensions_round_up() {
    let g = NavGrid::build(1020, 800, &Vec::new(), 16);
    assert_eq!(g.cols, 64);
    assert_eq!(g.rows, 50);
    assert!(!g.is_blocked(0, 0));
    assert!(g.is_blocked(-1, 0));
    assert!(g.is_blocked(64, 0));
    assert!(g.contains(63, 49));
    assert!(!g.contains(63, 50));
}

#[test]
fn walls_block_cells_with_clearance() {
    // Wall spans x 150..170; with 5 px clearance cells 9 (144..160) and
    // 10 (160..176) are blocked, and cell 8 (128..144) is not.
    let g = NavGrid::build(320, 320, &vec![Rect::new(150, 0, 20, 240)], 16);
    assert!(g.is_blocked(9, 3));
    assert!(g.is_blocked(10, 3));
    assert!(!g.is_blocked(8, 3));
    assert!(!g.is_blocked(11, 3));
    // Below the wall (240 + 5 = 245) row 15 starts at 240: blocked; row 16 free.
    assert!(g.is_blocked(9, 15));
    assert!(!g.is_blocked(9, 16));
}

#[test]
fn open_field_costs_are_king_move_distances() {
    let g = NavGrid::build(320, 320, &Vec::new(), 16);
    let mut f = FlowField::new(&g);
    assert_eq!(f.cost(&g, 3, 3), u32::MAX);
    f.update(&g, (10, 10));
    assert_eq!(f.cost(&g, 10, 10), 0);
    assert_eq!(f.cost(&g, 1, 1), 9);
    assert_eq!(f.cost(&g, 10, 0), 10);
    assert_eq!(f.cost(&g, 19, 13), 9);
}

#[test]
fn cost_around_a_wall_counts_the_detour() {
    let g = NavGrid::build(320, 320, &vec![Rect::new(150, 0, 20, 240)], 16);
    let mut f = FlowField::new(&g);
    f.update(&g, (16, 7));
    assert_eq!(f.cost(&g, 3, 7), 21);
    // A blocked cell is never reached.
    assert_eq!(f.cost(&g, 9, 3), u32::MAX);
}

#[test]
fn goal_inside_a_wall_moves_to_nearest_free_cell() {
    let g = NavGrid::build(320, 320, &vec![Rect::new(150, 0, 20, 240)], 16);
    assert_eq!(g.nearest_free((5, 5)), (5, 5));
    // (9, 5) is blocked; ring 1 is scanned row by row, (8, 4) comes first.
    assert_eq!(g.nearest_free((9, 5)), (8, 4));
    let mut f = FlowField::new(&g);
    f.update(&g, (9, 5));
    assert_eq!(f.goal(), Some((8, 4)));
    assert_eq!(f.cost(&g, 8, 4), 0);
}

#[test]
fn descent_weights_point_downhill_only() {
    let g = NavGrid::build(320, 320, &Vec::new(), 16);
    let mut f = FlowField::new(&g);
    f.update(&g, (10, 10));
    let w = f.descent_weights(&g, 1, 1);
    // Moves: +x, -x, +y, -y, (+1,+1), (+1,-1), (-1,+1), (-1,-1).
    assert_eq!(w, vec![0, 0, 0, 0, 1, 0, 0, 0]);
    let at_goal = f.descent_weights(&g, 10, 10);
    assert_eq!(at_goal, vec![0; 8]);
}

#[test]
fn every_reachable_cell_has_a_downhill_move() {
    let walls = vec![Rect::new(150, 0, 20, 240), Rect::new(40, 200, 100, 12)];
    let g = NavGrid::build(320, 320, &walls, 16);
    let mut f = FlowField::new(&g);
    f.update(&g, (16, 7));
    let mut reachable = 0;
    for cy in 0..g.rows {
        for cx in 0..g.cols {
            if g.is_blocked(cx, cy) {
                continue;
            }
            let c = f.cost(&g, cx, cy);
            if c != u32::MAX && c > 0 {
                reachable += 1;
                let w = f.descent_weights(&g, cx, cy);
                assert!(w.iter().any(|&x| x > 0), "cell ({cx}, {cy}) has no way down");
            }
        }
    }
    assert!(reachable > 300);
}
