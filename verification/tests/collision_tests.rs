use ratrun::collision::SpatialGrid;

fn cell(x: f32, y: f32) -> (i32, i32) {
    ((x / 16.0) as i32, (y / 16.0) as i32)
}

#[test]
fn grid_finds_neighbors() {
    let pts = vec![(5.0f32, 5.0f32), (7.0, 6.0), (200.0, 200.0)];
    let cells: Vec<(i32, i32)> = pts.iter().map(|p| cell(p.0, p.1)).collect();
    let cols = (256.0f32 / 16.0).ceil() as i32 + 1;
    let rows = (256.0f32 / 16.0).ceil() as i32 + 1;
    let grid = SpatialGrid::build(&cells, cols, rows);
    let mut out = Vec::new();
    grid.neighbors(cell(6.0, 6.0), &mut out);
    assert!(out.contains(&0) && out.contains(&1));
    assert!(!out.contains(&2));
}

#[test]
fn neighbors_are_listed_row_by_row() {
    let cells = vec![(2, 2), (1, 1), (3, 3), (2, 1), (5, 5), (-1, 0), (2, 2)];
    let grid = SpatialGrid::build(&cells, 10, 10);
    let mut out = vec![99];
    grid.neighbors((2, 2), &mut out);
    // Rows y = 1, 2, 3; in each row x = 1, 2, 3; entities in index order.
    assert_eq!(out, vec![1, 3, 0, 6, 2]);
}

#[test]
fn off_grid_entities_are_dropped() {
    let cells = vec![(-1, 0), (0, -1), (4, 0), (0, 4)];
    let grid = SpatialGrid::build(&cells, 4, 4);
    let mut out = Vec::new();
    grid.neighbors((0, 0), &mut out);
    assert!(out.is_empty());
    grid.neighbors((3, 3), &mut out);
    assert!(out.is_empty());
}
