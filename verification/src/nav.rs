//! Flow-field pathfinding over a coarse grid of cells.
//!
//! A single breadth-first search from the player's cell gives every cell its
//! step count to the player, routing around walls; every enemy then reads its
//! own cell in constant time. The search is rerun only when the player enters
//! a different cell.

use vstd::prelude::*;

use crate::level::Rect;

verus! {

/// The clearance, in pixels, by which walls are inflated on the grid.
pub open spec fn clearance() -> int {
    5
}

/// Whether the cell `(cx, cy)` of side `cell` comes within the clearance of
/// the wall `w`.
pub open spec fn wall_covers(w: Rect, cell: int, cx: int, cy: int) -> bool {
    let x = cx * cell;
    let y = cy * cell;
    &&& x + cell > w.x - clearance()
    &&& x < w.x + w.w + clearance()
    &&& y + cell > w.y - clearance()
    &&& y < w.y + w.h + clearance()
}

/// `a / b` rounded up, for `a >= 0` and `b > 0`.
pub open spec fn ceil_div(a: int, b: int) -> int {
    (a + b - 1) / b
}

/// A grid of square cells over the arena, each free or blocked.
pub struct NavGrid {
    pub cols: i32,
    pub rows: i32,
    pub cell: i32,
    blocked: Vec<bool>,
}

impl NavGrid {
    /// The flags match the dimensions.
    pub closed spec fn wf(&self) -> bool {
        &&& self.cols >= 0
        &&& self.rows >= 0
        &&& self.cell > 0
        &&& self.blocked@.len() == self.cols * self.rows
        &&& self.cols * self.rows <= usize::MAX
    }

    /// Number of columns.
    pub closed spec fn width(&self) -> int {
        self.cols as int
    }

    /// Number of rows.
    pub closed spec fn height(&self) -> int {
        self.rows as int
    }

    /// Side of a cell in pixels.
    pub closed spec fn cell_size(&self) -> int {
        self.cell as int
    }

    /// Whether `(cx, cy)` is a cell of the grid.
    pub closed spec fn in_grid(&self, cx: int, cy: int) -> bool {
        0 <= cx < self.cols && 0 <= cy < self.rows
    }

    /// Whether the cell is impassable: blocked by a wall, or off the grid.
    pub closed spec fn blocked_at(&self, cx: int, cy: int) -> bool {
        !self.in_grid(cx, cy) || self.blocked@[cy * self.cols + cx]
    }

    proof fn lemma_index(&self, cx: int, cy: int)
        requires
            self.wf(),
            self.in_grid(cx, cy),
        ensures
            0 <= cy * self.cols,
            0 <= cy * self.cols + cx < self.cols * self.rows,
            cy * self.cols + cx < usize::MAX,
    {
        let w = self.cols as int;
        let h = self.rows as int;
        assert(0 <= cy * w) by (nonlinear_arith)
            requires
                0 <= cy,
                0 <= w,
        ;
        assert(cy * w + cx < h * w) by (nonlinear_arith)
            requires
                0 <= cx < w,
                0 <= cy < h,
        ;
        assert(h * w == w * h) by (nonlinear_arith);
    }

    /// Build the grid over a `arena_w` by `arena_h` arena with square cells
    /// of side `cell`: `ceil(arena_w / cell)` columns, `ceil(arena_h / cell)`
    /// rows, and a cell blocked when it comes within the clearance of a wall.
    pub fn build(arena_w: i32, arena_h: i32, walls: &Vec<Rect>, cell: i32) -> (g: NavGrid)
        requires
            cell > 0,
            arena_w >= 0,
            arena_h >= 0,
            ceil_div(arena_w as int, cell as int) * ceil_div(arena_h as int, cell as int) <= usize::MAX,
        ensures
            g.wf(),
            g.width() == ceil_div(arena_w as int, cell as int),
            g.height() == ceil_div(arena_h as int, cell as int),
            g.cell_size() == cell,
            forall|cx: int, cy: int| #[trigger] g.in_grid(cx, cy) <==> (0 <= cx < g.width() && 0 <= cy < g.height()),
            forall|cx: int, cy: int|
                g.in_grid(cx, cy) ==> (#[trigger] g.blocked_at(cx, cy) <==> exists|i: int|
                    0 <= i < walls@.len() && wall_covers(#[trigger] walls@[i], cell as int, cx, cy)),
    {
        let c64 = cell as i64;
        let cols64: i64 = (arena_w as i64 + c64 - 1) / c64;
        let rows64: i64 = (arena_h as i64 + c64 - 1) / c64;
        proof {
            assert(cols64 <= arena_w as int) by (nonlinear_arith)
                requires
                    cols64 == (arena_w + c64 - 1) / (c64 as int),
                    c64 >= 1,
                    arena_w >= 0,
            ;
            assert(rows64 <= arena_h as int) by (nonlinear_arith)
                requires
                    rows64 == (arena_h + c64 - 1) / (c64 as int),
                    c64 >= 1,
                    arena_h >= 0,
            ;
        }
        let cols = cols64 as i32;
        let rows = rows64 as i32;
        let ghost n = cols * rows;
        let mut blocked: Vec<bool> = Vec::new();
        let mut cy: i32 = 0;
        proof {
            assert(0 <= cols * rows) by (nonlinear_arith)
                requires
                    0 <= cols,
                    0 <= rows,
            ;
        }
        while cy < rows
            invariant
                0 <= cy <= rows,
                cols >= 0,
                rows >= 0,
                c64 == cell,
                cell > 0,
                blocked@.len() == cy * cols,
                cols * rows <= usize::MAX,
                forall|x: int, y: int|
                    0 <= x < cols && 0 <= y < cy ==> (#[trigger] blocked@[y * cols + x] <==> exists|i: int|
                        0 <= i < walls@.len() && wall_covers(#[trigger] walls@[i], cell as int, x, y)),
            decreases rows - cy,
        {
            let mut cx: i32 = 0;
            let ghost row_start = blocked@.len() as int;
            while cx < cols
                invariant
                    0 <= cy < rows,
                    0 <= cx <= cols,
                    cols >= 0,
                    rows >= 0,
                    c64 == cell,
                    cell > 0,
                    row_start == cy * cols,
                    blocked@.len() == cy * cols + cx,
                    cols * rows <= usize::MAX,
                    forall|x: int, y: int|
                        0 <= x < cols && 0 <= y < cy ==> (#[trigger] blocked@[y * cols + x] <==> exists|i: int|
                            0 <= i < walls@.len() && wall_covers(#[trigger] walls@[i], cell as int, x, y)),
                    forall|x: int|
                        0 <= x < cx ==> (#[trigger] blocked@[cy * cols + x] <==> exists|i: int|
                            0 <= i < walls@.len() && wall_covers(#[trigger] walls@[i], cell as int, x, cy as int)),
                decreases cols - cx,
            {
                proof {
                    assert(cy * cols + cx + 1 <= cols * rows) by (nonlinear_arith)
                        requires
                            0 <= cx < cols,
                            0 <= cy < rows,
                    ;
                }
                let b = cell_blocked(walls, cell, cx, cy);
                let ghost before = blocked@;
                blocked.push(b);
                proof {
                    assert forall|x: int, y: int|
                        0 <= x < cols && 0 <= y < cy implies (#[trigger] blocked@[y * cols + x] <==> exists|i: int|
                            0 <= i < walls@.len() && wall_covers(#[trigger] walls@[i], cell as int, x, y)) by {
                        assert(y * cols + x < cy * cols) by (nonlinear_arith)
                            requires
                                0 <= x < cols,
                                0 <= y < cy,
                        ;
                        assert(blocked@[y * cols + x] == before[y * cols + x]);
                    }
                    assert forall|x: int|
                        0 <= x < cx + 1 implies (#[trigger] blocked@[cy * cols + x] <==> exists|i: int|
                            0 <= i < walls@.len() && wall_covers(#[trigger] walls@[i], cell as int, x, cy as int)) by {
                        if x < cx {
                            assert(blocked@[cy * cols + x] == before[cy * cols + x]);
                        }
                    }
                }
                cx = cx + 1;
            }
            proof {
                assert((cy + 1) * cols == cy * cols + cols) by (nonlinear_arith);
                assert forall|x: int, y: int|
                    0 <= x < cols && 0 <= y < cy + 1 implies (#[trigger] blocked@[y * cols + x] <==> exists|i: int|
                        0 <= i < walls@.len() && wall_covers(#[trigger] walls@[i], cell as int, x, y)) by {
                    if y == cy {
                    }
                }
            }
            cy = cy + 1;
        }
        let g = NavGrid { cols, rows, cell, blocked };
        proof {
            assert(rows * cols == cols * rows) by (nonlinear_arith);
            assert(blocked@.len() == cols * rows);
            assert forall|cx: int, cy: int| g.in_grid(cx, cy) implies (#[trigger] g.blocked_at(cx, cy) <==> exists|i: int|
                0 <= i < walls@.len() && wall_covers(#[trigger] walls@[i], cell as int, cx, cy)) by {
                assert(g.blocked_at(cx, cy) == blocked@[cy * cols + cx]);
            }
        }
        g
    }

    /// Whether the cell is impassable (off-grid cells are).
    pub fn is_blocked(&self, cx: i32, cy: i32) -> (r: bool)
        requires
            self.wf(),
        ensures
            r == self.blocked_at(cx as int, cy as int),
    {
        if cx < 0 || cy < 0 || cx >= self.cols || cy >= self.rows {
            return true;
        }
        proof {
            self.lemma_index(cx as int, cy as int);
        }
        self.blocked[(cy as usize) * (self.cols as usize) + (cx as usize)]
    }

    /// Whether `(cx, cy)` is a cell of the grid.
    pub fn contains(&self, cx: i32, cy: i32) -> (r: bool)
        ensures
            r == self.in_grid(cx as int, cy as int),
    {
        0 <= cx && cx < self.cols && 0 <= cy && cy < self.rows
    }
}

/// Chebyshev length of an offset: the ring it lies on around its origin.
pub open spec fn ring_of(dx: int, dy: int) -> int {
    let ax = if dx < 0 { -dx } else { dx };
    let ay = if dy < 0 { -dy } else { dy };
    if ax < ay {
        ay
    } else {
        ax
    }
}

/// The order in which the free-cell search visits offsets: inner rings
/// first, then row by row (`dy` ascending), then column by column.
pub open spec fn visited_before(dx1: int, dy1: int, dx2: int, dy2: int) -> bool {
    ||| ring_of(dx1, dy1) < ring_of(dx2, dy2)
    ||| ring_of(dx1, dy1) == ring_of(dx2, dy2) && (dy1 < dy2 || (dy1 == dy2 && dx1 < dx2))
}

/// The farthest ring the free-cell search looks at.
pub open spec fn search_radius() -> int {
    11
}

impl NavGrid {
    /// Whether the cell at offset `(dx, dy)` from `c` is passable.
    pub open spec fn free_off(&self, c: (i32, i32), dx: int, dy: int) -> bool {
        !self.blocked_at(c.0 + dx, c.1 + dy)
    }

    /// `(dx, dy)` is the first passable offset the search around `c` meets.
    pub open spec fn first_free(&self, c: (i32, i32), dx: int, dy: int) -> bool {
        &&& 1 <= ring_of(dx, dy) <= search_radius()
        &&& self.free_off(c, dx, dy)
        &&& forall|ex: int, ey: int|
            1 <= ring_of(ex, ey) <= search_radius() && visited_before(ex, ey, dx, dy) ==> !#[trigger] self.free_off(c, ex, ey)
    }

    /// The cell the field is aimed at when the goal is `c`: `c` itself when
    /// passable, else the first passable cell met ring by ring out to the
    /// search radius, else `c` again.
    pub open spec fn spec_nearest_free(&self, c: (i32, i32)) -> (i32, i32) {
        if !self.blocked_at(c.0 as int, c.1 as int) {
            c
        } else if exists|dx: int, dy: int| self.first_free(c, dx, dy) {
            let (dx, dy) = choose|dx: int, dy: int| self.first_free(c, dx, dy);
            ((c.0 + dx) as i32, (c.1 + dy) as i32)
        } else {
            c
        }
    }

    proof fn lemma_first_free_unique(&self, c: (i32, i32), dx1: int, dy1: int, dx2: int, dy2: int)
        requires
            self.first_free(c, dx1, dy1),
            self.first_free(c, dx2, dy2),
        ensures
            dx1 == dx2 && dy1 == dy2,
    {
        if !(dx1 == dx2 && dy1 == dy2) {
            if visited_before(dx1, dy1, dx2, dy2) {
                assert(!self.free_off(c, dx1, dy1));
            } else {
                assert(visited_before(dx2, dy2, dx1, dy1));
                assert(!self.free_off(c, dx2, dy2));
            }
        }
    }

    /// The nearest passable cell to `c` (the goal may sit in or near a wall):
    /// `c` if passable, else the first passable cell on the rings around it,
    /// nearest ring first, each ring scanned row by row; `c` if none within
    /// the search radius.
    pub fn nearest_free(&self, c: (i32, i32)) -> (r: (i32, i32))
        requires
            self.wf(),
            i32::MIN + 11 <= c.0 <= i32::MAX - 11,
            i32::MIN + 11 <= c.1 <= i32::MAX - 11,
        ensures
            r == self.spec_nearest_free(c),
            r == c || self.in_grid(r.0 as int, r.1 as int),
    {
        if !self.is_blocked(c.0, c.1) {
            return c;
        }
        let mut r: i32 = 1;
        while r < 12
            invariant
                1 <= r <= 12,
                self.wf(),
                i32::MIN + 11 <= c.0 <= i32::MAX - 11,
                i32::MIN + 11 <= c.1 <= i32::MAX - 11,
                self.blocked_at(c.0 as int, c.1 as int),
                forall|ex: int, ey: int| 1 <= ring_of(ex, ey) < r ==> !#[trigger] self.free_off(c, ex, ey),
            decreases 12 - r,
        {
            let mut dy: i32 = -r;
            while dy <= r
                invariant
                    1 <= r < 12,
                    -r <= dy <= r + 1,
                    self.wf(),
                    i32::MIN + 11 <= c.0 <= i32::MAX - 11,
                    i32::MIN + 11 <= c.1 <= i32::MAX - 11,
                    self.blocked_at(c.0 as int, c.1 as int),
                    forall|ex: int, ey: int| 1 <= ring_of(ex, ey) < r ==> !#[trigger] self.free_off(c, ex, ey),
                    forall|ex: int, ey: int| ring_of(ex, ey) == r && ey < dy ==> !#[trigger] self.free_off(c, ex, ey),
                decreases r + 1 - dy,
            {
                let mut dx: i32 = -r;
                while dx <= r
                    invariant
                        1 <= r < 12,
                        -r <= dy <= r,
                        -r <= dx <= r + 1,
                        self.wf(),
                        i32::MIN + 11 <= c.0 <= i32::MAX - 11,
                        i32::MIN + 11 <= c.1 <= i32::MAX - 11,
                        self.blocked_at(c.0 as int, c.1 as int),
                        forall|ex: int, ey: int| 1 <= ring_of(ex, ey) < r ==> !#[trigger] self.free_off(c, ex, ey),
                        forall|ex: int, ey: int| ring_of(ex, ey) == r && ey < dy ==> !#[trigger] self.free_off(c, ex, ey),
                        forall|ex: int, ey: int| ring_of(ex, ey) == r && ey == dy && ex < dx ==> !#[trigger] self.free_off(c, ex, ey),
                    decreases r + 1 - dx,
                {
                    let adx = if dx < 0 { -dx } else { dx };
                    let ady = if dy < 0 { -dy } else { dy };
                    if adx == r || ady == r {
                        if !self.is_blocked(c.0 + dx, c.1 + dy) {
                            proof {
                                assert(self.free_off(c, dx as int, dy as int));
                                assert(self.first_free(c, dx as int, dy as int));
                                let (ox, oy) = choose|ox: int, oy: int| self.first_free(c, ox, oy);
                                self.lemma_first_free_unique(c, dx as int, dy as int, ox, oy);
                            }
                            return (c.0 + dx, c.1 + dy);
                        }
                    }
                    dx = dx + 1;
                }
                proof {
                    assert forall|ex: int, ey: int| ring_of(ex, ey) == r && ey < dy + 1 implies !#[trigger] self.free_off(c, ex, ey) by {
                        if ey == dy {
                            assert(ex <= r);
                        }
                    }
                }
                dy = dy + 1;
            }
            proof {
                assert forall|ex: int, ey: int| 1 <= ring_of(ex, ey) < r + 1 implies !#[trigger] self.free_off(c, ex, ey) by {
                    if ring_of(ex, ey) == r {
                        assert(ey <= r);
                    }
                }
            }
            r = r + 1;
        }
        proof {
            assert(!exists|dx: int, dy: int| self.first_free(c, dx, dy));
        }
        c
    }
}

/// The eight moves, orthogonal first, then diagonal.
pub open spec fn off(k: int) -> (int, int) {
    if k == 0 {
        (1, 0)
    } else if k == 1 {
        (-1, 0)
    } else if k == 2 {
        (0, 1)
    } else if k == 3 {
        (0, -1)
    } else if k == 4 {
        (1, 1)
    } else if k == 5 {
        (1, -1)
    } else if k == 6 {
        (-1, 1)
    } else {
        (-1, -1)
    }
}

/// The cell reached from `p` by move `k`.
pub open spec fn moved(p: (int, int), k: int) -> (int, int) {
    (p.0 + off(k).0, p.1 + off(k).1)
}

/// A queue cell as a pair of integers.
pub open spec fn pt(c: (i32, i32)) -> (int, int) {
    (c.0 as int, c.1 as int)
}

/// Move `k` of the eight moves.
pub fn offset(k: usize) -> (r: (i32, i32))
    requires
        k < 8,
    ensures
        pt(r) == off(k as int),
{
    match k {
        0 => (1, 0),
        1 => (-1, 0),
        2 => (0, 1),
        3 => (0, -1),
        4 => (1, 1),
        5 => (1, -1),
        6 => (-1, 1),
        _ => (-1, -1),
    }
}

impl NavGrid {
    /// Move `k` from `p` is allowed: it lands on a passable cell, and a
    /// diagonal move does not cut the corner of an impassable cell.
    pub open spec fn can_step(&self, p: (int, int), k: int) -> bool {
        let d = off(k);
        &&& 0 <= k < 8
        &&& !self.blocked_at(p.0 + d.0, p.1 + d.1)
        &&& (d.0 != 0 && d.1 != 0) ==> (!self.blocked_at(p.0 + d.0, p.1) && !self.blocked_at(p.0, p.1 + d.1))
    }

    /// `v` can be reached from `goal` in at most `n` allowed moves.
    pub open spec fn reaches(&self, goal: (int, int), v: (int, int), n: nat) -> bool
        decreases n,
    {
        if n == 0 {
            v == goal
        } else {
            let m = (n - 1) as nat;
            ||| self.reaches(goal, v, m)
            ||| self.can_step(back(v, 0), 0) && self.reaches(goal, back(v, 0), m)
            ||| self.can_step(back(v, 1), 1) && self.reaches(goal, back(v, 1), m)
            ||| self.can_step(back(v, 2), 2) && self.reaches(goal, back(v, 2), m)
            ||| self.can_step(back(v, 3), 3) && self.reaches(goal, back(v, 3), m)
            ||| self.can_step(back(v, 4), 4) && self.reaches(goal, back(v, 4), m)
            ||| self.can_step(back(v, 5), 5) && self.reaches(goal, back(v, 5), m)
            ||| self.can_step(back(v, 6), 6) && self.reaches(goal, back(v, 6), m)
            ||| self.can_step(back(v, 7), 7) && self.reaches(goal, back(v, 7), m)
        }
    }

    /// `v` is entered by move `k` from a cell reachable in `m` moves.
    pub open spec fn entered(&self, goal: (int, int), v: (int, int), m: nat, k: int) -> bool {
        self.can_step(back(v, k), k) && self.reaches(goal, back(v, k), m)
    }
}

/// The cell from which move `k` leads to `v`.
pub open spec fn back(v: (int, int), k: int) -> (int, int) {
    (v.0 - off(k).0, v.1 - off(k).1)
}

/// One unfolding of `reaches`: within `n + 1` moves means within `n`, or
/// entered by some allowed move from a cell within `n`.
proof fn lemma_reaches_unfold(g: &NavGrid, goal: (int, int), v: (int, int), n: nat)
    ensures
        g.reaches(goal, v, n + 1) <==> (g.reaches(goal, v, n) || exists|k: int| 0 <= k < 8 && #[trigger] g.entered(goal, v, n, k)),
{
    let m: nat = n + 1;
    assert((m - 1) as nat == n);
    if g.reaches(goal, v, m) && !g.reaches(goal, v, n) {
        if g.entered(goal, v, n, 0) {
        } else if g.entered(goal, v, n, 1) {
        } else if g.entered(goal, v, n, 2) {
        } else if g.entered(goal, v, n, 3) {
        } else if g.entered(goal, v, n, 4) {
        } else if g.entered(goal, v, n, 5) {
        } else if g.entered(goal, v, n, 6) {
        } else {
            assert(g.entered(goal, v, n, 7));
        }
    }
    if exists|k: int| 0 <= k < 8 && #[trigger] g.entered(goal, v, n, k) {
        let k = choose|k: int| 0 <= k < 8 && #[trigger] g.entered(goal, v, n, k);
        assert(k == 0 || k == 1 || k == 2 || k == 3 || k == 4 || k == 5 || k == 6 || k == 7);
    }
}

/// An allowed move out of a cell reachable in `n` moves gives a cell
/// reachable in `n + 1`.
proof fn lemma_reaches_step(g: &NavGrid, goal: (int, int), u: (int, int), k: int, n: nat)
    requires
        g.reaches(goal, u, n),
        g.can_step(u, k),
    ensures
        g.reaches(goal, moved(u, k), n + 1),
{
    let v = moved(u, k);
    assert(back(v, k) == u);
    assert(g.entered(goal, v, n, k));
    lemma_reaches_unfold(g, goal, v, n);
}

/// The cost stored for cell `p` in a row-major grid of `cols` columns.
pub open spec fn cost_of(costs: Seq<u32>, cols: int, p: (int, int)) -> u32 {
    costs[p.1 * cols + p.0]
}

/// `costs` holds, for every cell of `g`, its least number of allowed moves
/// from `goal`, and `u32::MAX` for cells that cannot be reached.
pub open spec fn is_distance_field(g: &NavGrid, goal: (int, int), costs: Seq<u32>) -> bool {
    forall|p: (int, int)|
        g.in_grid(p.0, p.1) ==> {
            let c = #[trigger] cost_of(costs, g.width(), p);
            &&& c != u32::MAX ==> g.reaches(goal, p, c as nat) && (c > 0 ==> !g.reaches(goal, p, (c - 1) as nat))
            &&& c == u32::MAX ==> forall|n: nat| !#[trigger] g.reaches(goal, p, n)
        }
}

/// Every unreachable-marked cell is truly unreachable, every reachable cell
/// has its least move count.
pub proof fn lemma_distance_field_exact(g: &NavGrid, goal: (int, int), costs: Seq<u32>, p: (int, int), n: nat)
    requires
        is_distance_field(g, goal, costs),
        g.in_grid(p.0, p.1),
        g.reaches(goal, p, n),
    ensures
        cost_of(costs, g.width(), p) != u32::MAX,
        cost_of(costs, g.width(), p) <= n,
{
    let c = cost_of(costs, g.width(), p);
    if c != u32::MAX && c > n {
        lemma_reaches_monotone(g, goal, p, n, (c - 1) as nat);
    }
}

/// Reaching in `n` moves implies reaching in any larger budget.
pub proof fn lemma_reaches_monotone(g: &NavGrid, goal: (int, int), v: (int, int), n: nat, m: nat)
    requires
        n <= m,
        g.reaches(goal, v, n),
    ensures
        g.reaches(goal, v, m),
    decreases m - n,
{
    if n < m {
        lemma_reaches_monotone(g, goal, v, n, (m - 1) as nat);
    }
}

/// Breadth-first distances toward the player's cell.
pub struct FlowField {
    cols: i32,
    rows: i32,
    goal: Option<(i32, i32)>,
    cost: Vec<u32>,
    queue: Vec<(i32, i32)>,
}

impl FlowField {
    /// Built for `g`, and a distance field toward its goal once it has one.
    pub closed spec fn wf(&self, g: &NavGrid) -> bool {
        &&& g.wf()
        &&& self.cols == g.cols
        &&& self.rows == g.rows
        &&& self.cost@.len() == g.cols * g.rows
        &&& self.goal matches Some(p) ==> g.in_grid(p.0 as int, p.1 as int) && is_distance_field(g, pt(p), self.cost@)
    }

    /// The goal cell the field currently leads to, if any.
    pub closed spec fn spec_goal(&self) -> Option<(i32, i32)> {
        self.goal
    }

    /// The stored move counts, row-major.
    pub closed spec fn costs(&self) -> Seq<u32> {
        self.cost@
    }

    /// The stored move count of cell `(x, y)`.
    pub closed spec fn cost_at(&self, x: int, y: int) -> u32 {
        cost_of(self.cost@, self.cols as int, (x, y))
    }

    /// The field of grid `g`, with no goal yet: every cell unreachable.
    pub fn new(g: &NavGrid) -> (f: FlowField)
        requires
            g.wf(),
        ensures
            f.wf(g),
            f.spec_goal() is None,
            forall|x: int, y: int| g.in_grid(x, y) ==> #[trigger] f.cost_at(x, y) == u32::MAX,
    {
        let n = (g.cols as usize) * (g.rows as usize);
        let mut cost: Vec<u32> = Vec::new();
        let mut i: usize = 0;
        while i < n
            invariant
                i <= n,
                n == g.cols * g.rows,
                cost@.len() == i,
                forall|j: int| 0 <= j < i ==> #[trigger] cost@[j] == u32::MAX,
            decreases n - i,
        {
            cost.push(u32::MAX);
            i = i + 1;
        }
        let f = FlowField { cols: g.cols, rows: g.rows, goal: None, cost, queue: Vec::new() };
        proof {
            assert forall|x: int, y: int| g.in_grid(x, y) implies #[trigger] f.cost_at(x, y) == u32::MAX by {
                g.lemma_index(x, y);
            }
        }
        f
    }

    /// The goal cell the field currently leads to, if any.
    pub fn goal(&self) -> (r: Option<(i32, i32)>)
        ensures
            r == self.spec_goal(),
    {
        self.goal
    }

    /// Move count from cell `(cx, cy)` to the goal (`u32::MAX` if cut off).
    pub fn cost(&self, g: &NavGrid, cx: i32, cy: i32) -> (r: u32)
        requires
            self.wf(g),
            g.in_grid(cx as int, cy as int),
        ensures
            r == self.cost_at(cx as int, cy as int),
    {
        proof {
            g.lemma_index(cx as int, cy as int);
        }
        self.cost[(cy as usize) * (self.cols as usize) + (cx as usize)]
    }

    /// How much closer to the goal move `k` out of cell `p` leads: the drop
    /// in move count onto a passable neighbour that costs less, else 0 (also
    /// 0 for a cell that cannot reach the goal).
    pub open spec fn descent(&self, g: &NavGrid, p: (int, int), k: int) -> int {
        let c = self.cost_at(p.0, p.1);
        let q = moved(p, k);
        if c == u32::MAX || g.blocked_at(q.0, q.1) {
            0
        } else if self.cost_at(q.0, q.1) < c {
            c - self.cost_at(q.0, q.1)
        } else {
            0
        }
    }

    /// The eight descent weights out of cell `(cx, cy)`, one per move in the
    /// order of `offset`; the routing direction of the cell is the sum of the
    /// unit moves scaled by these weights.
    pub fn descent_weights(&self, g: &NavGrid, cx: i32, cy: i32) -> (w: Vec<u32>)
        requires
            self.wf(g),
            g.in_grid(cx as int, cy as int),
        ensures
            w@.len() == 8,
            forall|k: int| 0 <= k < 8 ==> #[trigger] w@[k] as int == self.descent(g, (cx as int, cy as int), k),
    {
        let cc = self.cost(g, cx, cy);
        let mut w: Vec<u32> = Vec::new();
        let mut k: usize = 0;
        while k < 8
            invariant
                self.wf(g),
                g.in_grid(cx as int, cy as int),
                cc == self.cost_at(cx as int, cy as int),
                k <= 8,
                w@.len() == k,
                forall|j: int| 0 <= j < k ==> #[trigger] w@[j] as int == self.descent(g, (cx as int, cy as int), j),
            decreases 8 - k,
        {
            let d = offset(k);
            let nx = cx + d.0;
            let ny = cy + d.1;
            let mut wk: u32 = 0;
            if cc != u32::MAX && !g.is_blocked(nx, ny) {
                let nc = self.cost(g, nx, ny);
                if nc < cc {
                    wk = cc - nc;
                }
            }
            w.push(wk);
            k = k + 1;
        }
        w
    }

    /// Aim the field at `goal_cell`: the goal becomes the nearest passable
    /// cell to it, and the search is rerun only when that differs from the
    /// current goal.
    pub fn update(&mut self, g: &NavGrid, goal_cell: (i32, i32))
        requires
            old(self).wf(g),
            g.width() * g.height() < u32::MAX,
            i32::MIN + 11 <= goal_cell.0 <= i32::MAX - 11,
            i32::MIN + 11 <= goal_cell.1 <= i32::MAX - 11,
            g.in_grid(g.spec_nearest_free(goal_cell).0 as int, g.spec_nearest_free(goal_cell).1 as int),
        ensures
            final(self).wf(g),
            final(self).spec_goal() == Some(g.spec_nearest_free(goal_cell)),
            old(self).spec_goal() == Some(g.spec_nearest_free(goal_cell)) ==> final(self).costs() == old(self).costs(),
            is_distance_field(g, pt(g.spec_nearest_free(goal_cell)), final(self).costs()),
    {
        let gc = g.nearest_free(goal_cell);
        match self.goal {
            Some(p) => {
                if p.0 == gc.0 && p.1 == gc.1 {
                    return;
                }
            },
            None => {},
        }
        self.goal = Some(gc);
        self.compute(g, gc);
    }

    /// Breadth-first search from `goal`: each cell gets its least move count,
    /// or `u32::MAX` when it cannot be reached.
    fn compute(&mut self, g: &NavGrid, goal: (i32, i32))
        requires
            g.wf(),
            old(self).cols == g.cols,
            old(self).rows == g.rows,
            old(self).cost@.len() == g.cols * g.rows,
            g.in_grid(goal.0 as int, goal.1 as int),
            g.width() * g.height() < u32::MAX,
        ensures
            final(self).cols == g.cols,
            final(self).rows == g.rows,
            final(self).goal == old(self).goal,
            final(self).cost@.len() == g.cols * g.rows,
            is_distance_field(g, pt(goal), final(self).cost@),
    {
        let cols = self.cols;
        let n = self.cost.len();
        let mut i: usize = 0;
        while i < n
            invariant
                i <= n,
                n == self.cost@.len(),
                self.cols == g.cols,
                self.rows == g.rows,
                self.goal == old(self).goal,
                n == g.cols * g.rows,
                forall|j: int| 0 <= j < i ==> #[trigger] self.cost@[j] == u32::MAX,
            decreases n - i,
        {
            self.cost.set(i, u32::MAX);
            i = i + 1;
        }
        self.queue.clear();
        proof {
            g.lemma_index(goal.0 as int, goal.1 as int);
        }
        let gi = (goal.1 as usize) * (cols as usize) + (goal.0 as usize);
        let ghost blank = self.cost@;
        self.cost.set(gi, 0);
        self.queue.push(goal);
        let ghost mut pushed: Set<int> = Set::empty().insert(gi as int);
        let ghost gp = pt(goal);
        proof {
            vstd::set_lib::lemma_int_range(0, n as int);
            lemma_push_cell(g, blank, self.cost@, gp, 0);
            assert forall|p: (int, int)| g.in_grid(p.0, p.1) implies #[trigger] cost_of(blank, cols as int, p) == u32::MAX by {
                g.lemma_index(p.0, p.1);
            }
            lemma_bfs_start(g, self.cost@, self.queue@, gp);
        }
        let mut head: usize = 0;
        while head < self.queue.len()
            invariant
                g.wf(),
                self.cols == g.cols,
                self.rows == g.rows,
                cols == g.cols,
                self.goal == old(self).goal,
                n == self.cost@.len(),
                n == g.cols * g.rows,
                n < u32::MAX,
                gp == pt(goal),
                g.in_grid(gp.0, gp.1),
                cost_of(self.cost@, cols as int, gp) == 0,
                head <= self.queue@.len() <= n,
                pushed.finite(),
                pushed.len() == self.queue@.len(),
                pushed.subset_of(vstd::set_lib::set_int_range(0, n as int)),
                forall|j: int| 0 <= j < n ==> (pushed.contains(j) <==> #[trigger] self.cost@[j] != u32::MAX),
                queue_ok(g, self.cost@, self.queue@),
                parents_ok(g, self.cost@, gp),
                relaxed(g, self.cost@, self.queue@, head as int),
                head < self.queue@.len() ==> cost_of(self.cost@, cols as int, pt(self.queue@.last()))
                    <= cost_of(self.cost@, cols as int, pt(self.queue@[head as int])) + 1,
            decreases n - head,
        {
            let c = self.queue[head];
            let cx = c.0;
            let cy = c.1;
            let ghost up = pt(c);
            proof {
                lemma_queue_entry(g, self.cost@, self.queue@, head as int);
                g.lemma_index(cx as int, cy as int);
            }
            let cc = self.cost[(cy as usize) * (cols as usize) + (cx as usize)];
            proof {
                lemma_relaxed_from_none(g, self.cost@, up, (cc + 1) as int);
            }
            let mut k: usize = 0;
            while k < 8
                invariant
                    g.wf(),
                    self.cols == g.cols,
                    self.rows == g.rows,
                    cols == g.cols,
                    self.goal == old(self).goal,
                    n == self.cost@.len(),
                    n == g.cols * g.rows,
                    n < u32::MAX,
                    gp == pt(goal),
                    g.in_grid(gp.0, gp.1),
                    cost_of(self.cost@, cols as int, gp) == 0,
                    k <= 8,
                    head < self.queue@.len() <= n,
                    up == pt(self.queue@[head as int]),
                    up == pt(c),
                    c == (cx, cy),
                    g.in_grid(up.0, up.1),
                    cc == cost_of(self.cost@, cols as int, up),
                    cc <= head,
                    pushed.finite(),
                    pushed.len() == self.queue@.len(),
                    pushed.subset_of(vstd::set_lib::set_int_range(0, n as int)),
                    forall|j: int| 0 <= j < n ==> (pushed.contains(j) <==> #[trigger] self.cost@[j] != u32::MAX),
                    queue_ok(g, self.cost@, self.queue@),
                    parents_ok(g, self.cost@, gp),
                    relaxed(g, self.cost@, self.queue@, head as int),
                    relaxed_from(g, self.cost@, up, k as int, cc + 1),
                    cost_of(self.cost@, cols as int, pt(self.queue@.last())) <= cc + 1,
                decreases 8 - k,
            {
                let d = offset(k);
                let nx = cx + d.0;
                let ny = cy + d.1;
                let ok = !g.is_blocked(nx, ny) && !(d.0 != 0 && d.1 != 0 && (g.is_blocked(cx + d.0, cy)
                    || g.is_blocked(cx, cy + d.1)));
                proof {
                    assert(ok == g.can_step(up, k as int));
                }
                if ok {
                    let ghost vp = moved(up, k as int);
                    proof {
                        g.lemma_index(nx as int, ny as int);
                    }
                    let ni = (ny as usize) * (cols as usize) + (nx as usize);
                    if self.cost[ni] == u32::MAX {
                        let ghost old_cost = self.cost@;
                        let ghost old_queue = self.queue@;
                        proof {
                            assert(!pushed.contains(ni as int));
                            vstd::set_lib::lemma_int_range(0, n as int);
                            vstd::set_lib::lemma_len_subset(pushed, vstd::set_lib::set_int_range(0, n as int));
                            assert(pushed.insert(ni as int).subset_of(vstd::set_lib::set_int_range(0, n as int)));
                            vstd::set_lib::lemma_len_subset(pushed.insert(ni as int), vstd::set_lib::set_int_range(0, n as int));
                        }
                        self.cost.set(ni, cc + 1);
                        self.queue.push((nx, ny));
                        proof {
                            pushed = pushed.insert(ni as int);
                            lemma_push_cell(g, old_cost, self.cost@, vp, (cc + 1) as u32);
                            assert(appended(old_queue, self.queue@, vp));
                            assert(set_one(g, old_cost, self.cost@, vp, cc + 1));
                            lemma_push_queue(g, old_cost, self.cost@, old_queue, self.queue@, head as int, vp, cc as int);
                            lemma_push_parents(g, old_cost, self.cost@, up, k as int, vp, cc as int, gp);
                            lemma_push_relaxed(g, old_cost, self.cost@, old_queue, self.queue@, head as int, up, k as int, vp, cc as int);
                            assert(up != vp);
                        }
                    } else {
                        proof {
                            lemma_bfs_known(g, self.cost@, self.queue@, up, k as int, vp, cc as int);
                        }
                    }
                } else {
                    proof {
                        lemma_relaxed_from_skip(g, self.cost@, up, k as int, cc + 1);
                    }
                }
                k = k + 1;
            }
            proof {
                lemma_bfs_advance(g, self.cost@, self.queue@, head as int);
                vstd::set_lib::lemma_int_range(0, n as int);
                vstd::set_lib::lemma_len_subset(pushed, vstd::set_lib::set_int_range(0, n as int));
            }
            head = head + 1;
        }
        proof {
            lemma_bfs_done(g, self.cost@, self.queue@, gp);
        }
    }
}

/// Every queued cell is on the grid and reached, with a cost no more than its
/// queue position; costs never decrease along the queue; every reached cell
/// is queued.
#[verifier::opaque]
spec fn queue_ok(g: &NavGrid, costs: Seq<u32>, q: Seq<(i32, i32)>) -> bool {
    &&& forall|i: int| 0 <= i < q.len() ==> {
        &&& g.in_grid(pt(#[trigger] q[i]).0, pt(q[i]).1)
        &&& cost_of(costs, g.cols as int, pt(q[i])) != u32::MAX
        &&& cost_of(costs, g.cols as int, pt(q[i])) <= i
    }
    &&& forall|i: int, j: int| 0 <= i <= j < q.len()
        ==> cost_of(costs, g.cols as int, pt(#[trigger] q[i])) <= cost_of(costs, g.cols as int, pt(#[trigger] q[j]))
    &&& forall|p: (int, int)| g.in_grid(p.0, p.1) && #[trigger] cost_of(costs, g.cols as int, p) != u32::MAX
        ==> exists|i: int| 0 <= i < q.len() && pt(#[trigger] q[i]) == p
}

/// Every reached cell other than the goal was reached by an allowed move
/// from a cell one move nearer.
#[verifier::opaque]
spec fn parents_ok(g: &NavGrid, costs: Seq<u32>, goal: (int, int)) -> bool {
    forall|p: (int, int)| g.in_grid(p.0, p.1) && #[trigger] cost_of(costs, g.cols as int, p) != u32::MAX ==>
        p == goal || exists|u: (int, int), k: int| #![trigger g.can_step(u, k), cost_of(costs, g.cols as int, u)]
            g.in_grid(u.0, u.1) && g.can_step(u, k) && moved(u, k) == p
            && cost_of(costs, g.cols as int, u) != u32::MAX
            && cost_of(costs, g.cols as int, u) + 1 == cost_of(costs, g.cols as int, p)
}

/// Every allowed move out of the first `h` queued cells lands on a reached
/// cell at most one move farther.
#[verifier::opaque]
spec fn relaxed(g: &NavGrid, costs: Seq<u32>, q: Seq<(i32, i32)>, h: int) -> bool {
    forall|i: int, k: int| 0 <= i < h && #[trigger] g.can_step(pt(#[trigger] q[i]), k) ==> {
        &&& cost_of(costs, g.cols as int, moved(pt(q[i]), k)) != u32::MAX
        &&& cost_of(costs, g.cols as int, moved(pt(q[i]), k)) <= cost_of(costs, g.cols as int, pt(q[i])) + 1
    }
}

/// Every allowed move among the first `k` out of `u` lands on a reached cell
/// costing at most `bound`.
#[verifier::opaque]
spec fn relaxed_from(g: &NavGrid, costs: Seq<u32>, u: (int, int), k: int, bound: int) -> bool {
    forall|kk: int| 0 <= kk < k && #[trigger] g.can_step(u, kk) ==> {
        &&& cost_of(costs, g.cols as int, moved(u, kk)) != u32::MAX
        &&& cost_of(costs, g.cols as int, moved(u, kk)) <= bound
    }
}

proof fn lemma_bfs_start(g: &NavGrid, costs: Seq<u32>, q: Seq<(i32, i32)>, goal: (int, int))
    requires
        g.wf(),
        g.in_grid(goal.0, goal.1),
        q.len() == 1,
        pt(q[0]) == goal,
        forall|p: (int, int)| g.in_grid(p.0, p.1) ==> #[trigger] cost_of(costs, g.cols as int, p) == (if p == goal { 0 } else { u32::MAX }),
    ensures
        queue_ok(g, costs, q),
        parents_ok(g, costs, goal),
        relaxed(g, costs, q, 0),
{
    reveal(queue_ok);
    reveal(parents_ok);
    reveal(relaxed);
    assert forall|p: (int, int)| g.in_grid(p.0, p.1) && #[trigger] cost_of(costs, g.cols as int, p) != u32::MAX
        implies exists|i: int| 0 <= i < q.len() && pt(#[trigger] q[i]) == p by {
        assert(pt(q[0]) == p);
    }
}

proof fn lemma_queue_entry(g: &NavGrid, costs: Seq<u32>, q: Seq<(i32, i32)>, h: int)
    requires
        queue_ok(g, costs, q),
        0 <= h < q.len(),
    ensures
        g.in_grid(pt(q[h]).0, pt(q[h]).1),
        cost_of(costs, g.cols as int, pt(q[h])) != u32::MAX,
        cost_of(costs, g.cols as int, pt(q[h])) <= h,
{
    reveal(queue_ok);
}

proof fn lemma_relaxed_from_none(g: &NavGrid, costs: Seq<u32>, u: (int, int), bound: int)
    ensures
        relaxed_from(g, costs, u, 0, bound),
{
    reveal(relaxed_from);
}

proof fn lemma_relaxed_from_skip(g: &NavGrid, costs: Seq<u32>, u: (int, int), k: int, bound: int)
    requires
        relaxed_from(g, costs, u, k, bound),
        !g.can_step(u, k),
    ensures
        relaxed_from(g, costs, u, k + 1, bound),
{
    reveal(relaxed_from);
}

/// A move onto an already reached cell: that cell was queued earlier, so it
/// costs no more than the last queued cell.
proof fn lemma_bfs_known(g: &NavGrid, costs: Seq<u32>, q: Seq<(i32, i32)>, u: (int, int), k: int, v: (int, int), cc: int)
    requires
        g.wf(),
        queue_ok(g, costs, q),
        q.len() > 0,
        relaxed_from(g, costs, u, k, cc + 1),
        g.can_step(u, k),
        v == moved(u, k),
        g.in_grid(v.0, v.1),
        cost_of(costs, g.cols as int, v) != u32::MAX,
        cost_of(costs, g.cols as int, pt(q.last())) <= cc + 1,
    ensures
        relaxed_from(g, costs, u, k + 1, cc + 1),
{
    reveal(queue_ok);
    reveal(relaxed_from);
    let i = choose|i: int| 0 <= i < q.len() && pt(#[trigger] q[i]) == v;
    assert(cost_of(costs, g.cols as int, pt(q[i])) <= cost_of(costs, g.cols as int, pt(q[q.len() - 1])));
}

/// `costs` is `old_costs` with cell `v` set to `c`.
spec fn set_one(g: &NavGrid, old_costs: Seq<u32>, costs: Seq<u32>, v: (int, int), c: int) -> bool {
    forall|p: (int, int)| g.in_grid(p.0, p.1) ==> #[trigger] cost_of(costs, g.cols as int, p) == (if p == v {
        c as u32
    } else {
        cost_of(old_costs, g.cols as int, p)
    })
}

/// `q` is `old_q` with the cell `v` appended.
spec fn appended(old_q: Seq<(i32, i32)>, q: Seq<(i32, i32)>, v: (int, int)) -> bool {
    &&& q.len() == old_q.len() + 1
    &&& forall|i: int| 0 <= i < old_q.len() ==> #[trigger] q[i] == old_q[i]
    &&& pt(q[old_q.len() as int]) == v
}

/// Pushing a newly reached cell keeps the queue ordered and complete.
proof fn lemma_push_queue(
    g: &NavGrid,
    old_costs: Seq<u32>,
    costs: Seq<u32>,
    old_q: Seq<(i32, i32)>,
    q: Seq<(i32, i32)>,
    h: int,
    v: (int, int),
    cc: int,
)
    requires
        queue_ok(g, old_costs, old_q),
        0 <= h < old_q.len(),
        0 <= cc <= h,
        g.in_grid(v.0, v.1),
        cost_of(old_costs, g.cols as int, v) == u32::MAX,
        cost_of(old_costs, g.cols as int, pt(old_q.last())) <= cc + 1,
        appended(old_q, q, v),
        set_one(g, old_costs, costs, v, cc + 1),
        cc + 1 < u32::MAX,
    ensures
        queue_ok(g, costs, q),
        cost_of(costs, g.cols as int, pt(q.last())) == cc + 1,
{
    reveal(queue_ok);
    let w = g.cols as int;
    let n = old_q.len() as int;
    assert(q[n] == q.last());
    assert forall|i: int| 0 <= i < q.len() implies {
        &&& g.in_grid(pt(#[trigger] q[i]).0, pt(q[i]).1)
        &&& cost_of(costs, w, pt(q[i])) != u32::MAX
        &&& cost_of(costs, w, pt(q[i])) <= i
    } by {
        if i < n {
            assert(q[i] == old_q[i]);
            assert(cost_of(old_costs, w, pt(old_q[i])) != u32::MAX);
        }
    }
    assert forall|i: int, j: int| 0 <= i <= j < q.len()
        implies cost_of(costs, w, pt(#[trigger] q[i])) <= cost_of(costs, w, pt(#[trigger] q[j])) by {
        if j < n {
            assert(q[i] == old_q[i] && q[j] == old_q[j]);
            assert(cost_of(old_costs, w, pt(old_q[i])) != u32::MAX);
            assert(cost_of(old_costs, w, pt(old_q[j])) != u32::MAX);
        } else if i < n {
            assert(q[i] == old_q[i]);
            assert(cost_of(old_costs, w, pt(old_q[i])) != u32::MAX);
            assert(cost_of(old_costs, w, pt(old_q[i])) <= cost_of(old_costs, w, pt(old_q[n - 1])));
        }
    }
    assert forall|p: (int, int)| g.in_grid(p.0, p.1) && #[trigger] cost_of(costs, w, p) != u32::MAX
        implies exists|i: int| 0 <= i < q.len() && pt(#[trigger] q[i]) == p by {
        if p == v {
            assert(pt(q[n]) == p);
        } else {
            assert(cost_of(old_costs, w, p) != u32::MAX);
            let i = choose|i: int| 0 <= i < old_q.len() && pt(#[trigger] old_q[i]) == p;
            assert(q[i] == old_q[i]);
        }
    }
}

/// The newly reached cell has its parent one move nearer.
proof fn lemma_push_parents(
    g: &NavGrid,
    old_costs: Seq<u32>,
    costs: Seq<u32>,
    u: (int, int),
    k: int,
    v: (int, int),
    cc: int,
    goal: (int, int),
)
    requires
        parents_ok(g, old_costs, goal),
        g.in_grid(u.0, u.1),
        cc == cost_of(old_costs, g.cols as int, u),
        cc != u32::MAX,
        g.can_step(u, k),
        v == moved(u, k),
        g.in_grid(v.0, v.1),
        cost_of(old_costs, g.cols as int, v) == u32::MAX,
        set_one(g, old_costs, costs, v, cc + 1),
        0 <= cc,
        cc + 1 < u32::MAX,
    ensures
        parents_ok(g, costs, goal),
{
    reveal(parents_ok);
    let w = g.cols as int;
    assert(u != v);
    assert forall|p: (int, int)| g.in_grid(p.0, p.1) && #[trigger] cost_of(costs, w, p) != u32::MAX implies
        p == goal || exists|uu: (int, int), kk: int| #![trigger g.can_step(uu, kk), cost_of(costs, w, uu)]
            g.in_grid(uu.0, uu.1) && g.can_step(uu, kk) && moved(uu, kk) == p
            && cost_of(costs, w, uu) != u32::MAX
            && cost_of(costs, w, uu) + 1 == cost_of(costs, w, p) by {
        if p == v {
            assert(cost_of(costs, w, u) == cc);
            assert(g.in_grid(u.0, u.1) && g.can_step(u, k) && moved(u, k) == p);
        } else {
            assert(cost_of(old_costs, w, p) != u32::MAX);
            if p != goal {
                let (uu, kk) = choose|uu: (int, int), kk: int| #![trigger g.can_step(uu, kk), cost_of(old_costs, w, uu)]
                    g.in_grid(uu.0, uu.1) && g.can_step(uu, kk) && moved(uu, kk) == p
                    && cost_of(old_costs, w, uu) != u32::MAX
                    && cost_of(old_costs, w, uu) + 1 == cost_of(old_costs, w, p);
                assert(cost_of(costs, w, uu) == cost_of(old_costs, w, uu));
            }
        }
    }
}

/// Reaching a new cell leaves every earlier relaxation in place and adds
/// move `k` out of the head cell.
proof fn lemma_push_relaxed(
    g: &NavGrid,
    old_costs: Seq<u32>,
    costs: Seq<u32>,
    old_q: Seq<(i32, i32)>,
    q: Seq<(i32, i32)>,
    h: int,
    u: (int, int),
    k: int,
    v: (int, int),
    cc: int,
)
    requires
        queue_ok(g, old_costs, old_q),
        relaxed(g, old_costs, old_q, h),
        relaxed_from(g, old_costs, u, k, cc + 1),
        0 <= h < old_q.len(),
        g.can_step(u, k),
        v == moved(u, k),
        g.in_grid(v.0, v.1),
        cost_of(old_costs, g.cols as int, v) == u32::MAX,
        appended(old_q, q, v),
        set_one(g, old_costs, costs, v, cc + 1),
        0 <= cc,
        cc + 1 < u32::MAX,
    ensures
        relaxed(g, costs, q, h),
        relaxed_from(g, costs, u, k + 1, cc + 1),
{
    reveal(queue_ok);
    reveal(relaxed);
    reveal(relaxed_from);
    let w = g.cols as int;
    assert forall|i: int, kk: int| 0 <= i < h && #[trigger] g.can_step(pt(#[trigger] q[i]), kk) implies {
        &&& cost_of(costs, w, moved(pt(q[i]), kk)) != u32::MAX
        &&& cost_of(costs, w, moved(pt(q[i]), kk)) <= cost_of(costs, w, pt(q[i])) + 1
    } by {
        assert(q[i] == old_q[i]);
        assert(g.can_step(pt(old_q[i]), kk));
        let m = moved(pt(old_q[i]), kk);
        assert(g.in_grid(m.0, m.1));
        assert(cost_of(old_costs, w, m) != u32::MAX);
        assert(g.in_grid(pt(old_q[i]).0, pt(old_q[i]).1));
        assert(cost_of(old_costs, w, pt(old_q[i])) != u32::MAX);
    }
    assert forall|kk: int| 0 <= kk < k + 1 && #[trigger] g.can_step(u, kk) implies {
        &&& cost_of(costs, w, moved(u, kk)) != u32::MAX
        &&& cost_of(costs, w, moved(u, kk)) <= cc + 1
    } by {
        let m = moved(u, kk);
        assert(g.in_grid(m.0, m.1));
        if kk < k {
            assert(cost_of(old_costs, w, m) != u32::MAX);
        }
    }
}

/// Once all eight moves out of the head cell are handled, the head advances.
proof fn lemma_bfs_advance(g: &NavGrid, costs: Seq<u32>, q: Seq<(i32, i32)>, h: int)
    requires
        queue_ok(g, costs, q),
        relaxed(g, costs, q, h),
        0 <= h < q.len(),
        relaxed_from(g, costs, pt(q[h]), 8, cost_of(costs, g.cols as int, pt(q[h])) + 1),
        cost_of(costs, g.cols as int, pt(q.last())) <= cost_of(costs, g.cols as int, pt(q[h])) + 1,
    ensures
        relaxed(g, costs, q, h + 1),
        h + 1 < q.len() ==> cost_of(costs, g.cols as int, pt(q.last())) <= cost_of(costs, g.cols as int, pt(q[h + 1])) + 1,
{
    reveal(queue_ok);
    reveal(relaxed);
    reveal(relaxed_from);
    let w = g.cols as int;
    assert forall|i: int, kk: int| 0 <= i < h + 1 && #[trigger] g.can_step(pt(#[trigger] q[i]), kk) implies {
        &&& cost_of(costs, w, moved(pt(q[i]), kk)) != u32::MAX
        &&& cost_of(costs, w, moved(pt(q[i]), kk)) <= cost_of(costs, w, pt(q[i])) + 1
    } by {
        if i == h {
            assert(g.can_step(pt(q[h]), kk));
        }
    }
    if h + 1 < q.len() {
        assert(cost_of(costs, w, pt(q[h])) <= cost_of(costs, w, pt(q[h + 1])));
    }
}

/// An empty queue: every reached cell has been expanded, and the costs are
/// the exact distances.
proof fn lemma_bfs_done(g: &NavGrid, costs: Seq<u32>, q: Seq<(i32, i32)>, goal: (int, int))
    requires
        g.wf(),
        g.in_grid(goal.0, goal.1),
        cost_of(costs, g.cols as int, goal) == 0,
        queue_ok(g, costs, q),
        parents_ok(g, costs, goal),
        relaxed(g, costs, q, q.len() as int),
    ensures
        is_distance_field(g, goal, costs),
{
    reveal(queue_ok);
    reveal(parents_ok);
    reveal(relaxed);
    let w = g.cols as int;
    assert forall|p: (int, int), k: int| g.in_grid(p.0, p.1) && cost_of(costs, w, p) != u32::MAX && #[trigger] g.can_step(p, k)
        implies cost_of(costs, w, moved(p, k)) != u32::MAX && cost_of(costs, w, moved(p, k)) <= cost_of(costs, w, p) + 1 by {
        let i = choose|i: int| 0 <= i < q.len() && pt(#[trigger] q[i]) == p;
        assert(g.can_step(pt(q[i]), k));
    }
    lemma_bfs_result(g, goal, costs);
}

impl NavGrid {
    proof fn lemma_index_injective(&self, p: (int, int), q: (int, int))
        requires
            self.wf(),
            self.in_grid(p.0, p.1),
            self.in_grid(q.0, q.1),
        ensures
            (p.1 * self.cols + p.0 == q.1 * self.cols + q.0) <==> p == q,
    {
        let w = self.cols as int;
        if p.1 < q.1 {
            assert(p.1 * w + w <= q.1 * w) by (nonlinear_arith)
                requires
                    p.1 < q.1,
                    0 <= w,
            ;
        } else if q.1 < p.1 {
            assert(q.1 * w + w <= p.1 * w) by (nonlinear_arith)
                requires
                    q.1 < p.1,
                    0 <= w,
            ;
        }
    }
}

/// Setting the cost of one cell changes only that cell's cost.
proof fn lemma_push_cell(g: &NavGrid, before: Seq<u32>, after: Seq<u32>, v: (int, int), c: u32)
    requires
        g.wf(),
        g.in_grid(v.0, v.1),
        before.len() == g.cols * g.rows,
        after == before.update(v.1 * g.cols + v.0, c),
    ensures
        forall|p: (int, int)| g.in_grid(p.0, p.1) ==> #[trigger] cost_of(after, g.cols as int, p) == (if p == v { c } else { cost_of(before, g.cols as int, p) }),
{
    assert forall|p: (int, int)| g.in_grid(p.0, p.1) implies #[trigger] cost_of(after, g.cols as int, p) == (if p == v { c } else { cost_of(before, g.cols as int, p) }) by {
        g.lemma_index(p.0, p.1);
        g.lemma_index(v.0, v.1);
        g.lemma_index_injective(p, v);
    }
}

/// A finished search has a parent chain for every reached cell and has
/// relaxed every move out of every reached cell; such a cost table is the
/// exact distance field.
proof fn lemma_bfs_result(g: &NavGrid, goal: (int, int), costs: Seq<u32>)
    requires
        g.wf(),
        g.in_grid(goal.0, goal.1),
        cost_of(costs, g.cols as int, goal) == 0,
        forall|p: (int, int), k: int| g.in_grid(p.0, p.1) && cost_of(costs, g.cols as int, p) != u32::MAX && #[trigger] g.can_step(p, k)
            ==> cost_of(costs, g.cols as int, moved(p, k)) != u32::MAX && cost_of(costs, g.cols as int, moved(p, k)) <= cost_of(costs, g.cols as int, p) + 1,
        forall|p: (int, int)| g.in_grid(p.0, p.1) && #[trigger] cost_of(costs, g.cols as int, p) != u32::MAX ==>
            p == goal || exists|u: (int, int), k: int| #![trigger g.can_step(u, k), cost_of(costs, g.cols as int, u)]
                g.in_grid(u.0, u.1) && g.can_step(u, k) && moved(u, k) == p
                && cost_of(costs, g.cols as int, u) != u32::MAX
                && cost_of(costs, g.cols as int, u) + 1 == cost_of(costs, g.cols as int, p),
    ensures
        is_distance_field(g, goal, costs),
{
    let w = g.cols as int;
    assert(g.width() == w);
    assert forall|p: (int, int)| g.in_grid(p.0, p.1) implies {
        let c = #[trigger] cost_of(costs, g.width(), p);
        &&& c != u32::MAX ==> g.reaches(goal, p, c as nat) && (c > 0 ==> !g.reaches(goal, p, (c - 1) as nat))
        &&& c == u32::MAX ==> forall|n: nat| !#[trigger] g.reaches(goal, p, n)
    } by {
        let c = cost_of(costs, w, p);
        if c != u32::MAX {
            lemma_parent_chain(g, goal, costs, p);
            if c > 0 && g.reaches(goal, p, (c - 1) as nat) {
                lemma_reach_bounded(g, goal, costs, p, (c - 1) as nat);
            }
        } else {
            assert forall|n: nat| !#[trigger] g.reaches(goal, p, n) by {
                if g.reaches(goal, p, n) {
                    lemma_reach_bounded(g, goal, costs, p, n);
                }
            }
        }
    }
}

proof fn lemma_parent_chain(g: &NavGrid, goal: (int, int), costs: Seq<u32>, p: (int, int))
    requires
        g.wf(),
        g.in_grid(goal.0, goal.1),
        cost_of(costs, g.cols as int, goal) == 0,
        g.in_grid(p.0, p.1),
        cost_of(costs, g.cols as int, p) != u32::MAX,
        forall|p: (int, int)| g.in_grid(p.0, p.1) && #[trigger] cost_of(costs, g.cols as int, p) != u32::MAX ==>
            p == goal || exists|u: (int, int), k: int| #![trigger g.can_step(u, k), cost_of(costs, g.cols as int, u)]
                g.in_grid(u.0, u.1) && g.can_step(u, k) && moved(u, k) == p
                && cost_of(costs, g.cols as int, u) != u32::MAX
                && cost_of(costs, g.cols as int, u) + 1 == cost_of(costs, g.cols as int, p),
    ensures
        g.reaches(goal, p, cost_of(costs, g.cols as int, p) as nat),
    decreases cost_of(costs, g.cols as int, p),
{
    let w = g.cols as int;
    let c = cost_of(costs, w, p);
    if p == goal {
        assert(c == 0);
    } else {
        let (u, k) = choose|u: (int, int), k: int| #![trigger g.can_step(u, k), cost_of(costs, w, u)]
            g.in_grid(u.0, u.1) && g.can_step(u, k) && moved(u, k) == p
            && cost_of(costs, w, u) != u32::MAX
            && cost_of(costs, w, u) + 1 == cost_of(costs, w, p);
        lemma_parent_chain(g, goal, costs, u);
        lemma_reaches_step(g, goal, u, k, (c - 1) as nat);
    }
}

proof fn lemma_reach_bounded(g: &NavGrid, goal: (int, int), costs: Seq<u32>, v: (int, int), n: nat)
    requires
        g.wf(),
        g.in_grid(goal.0, goal.1),
        cost_of(costs, g.cols as int, goal) == 0,
        forall|p: (int, int), k: int| g.in_grid(p.0, p.1) && cost_of(costs, g.cols as int, p) != u32::MAX && #[trigger] g.can_step(p, k)
            ==> cost_of(costs, g.cols as int, moved(p, k)) != u32::MAX && cost_of(costs, g.cols as int, moved(p, k)) <= cost_of(costs, g.cols as int, p) + 1,
        g.reaches(goal, v, n),
    ensures
        g.in_grid(v.0, v.1),
        cost_of(costs, g.cols as int, v) != u32::MAX,
        cost_of(costs, g.cols as int, v) <= n,
    decreases n,
{
    if n > 0 {
        let m = (n - 1) as nat;
        lemma_reaches_unfold(g, goal, v, m);
        if g.reaches(goal, v, m) {
            lemma_reach_bounded(g, goal, costs, v, m);
        } else {
            let k = choose|k: int| 0 <= k < 8 && #[trigger] g.entered(goal, v, m, k);
            let u = back(v, k);
            lemma_reach_bounded(g, goal, costs, u, m);
            assert(moved(u, k) == v);
        }
    }
}

/// Whether any wall covers the cell.
fn cell_blocked(walls: &Vec<Rect>, cell: i32, cx: i32, cy: i32) -> (r: bool)
    requires
        cell > 0,
        0 <= cx,
        0 <= cy,
    ensures
        r <==> exists|i: int| 0 <= i < walls@.len() && wall_covers(#[trigger] walls@[i], cell as int, cx as int, cy as int),
{
    proof {
        assert(0 <= (cx as int) * (cell as int) <= 0x4000_0000_0000_0000) by (nonlinear_arith)
            requires
                0 <= cx <= i32::MAX,
                0 < cell <= i32::MAX,
        ;
        assert(0 <= (cy as int) * (cell as int) <= 0x4000_0000_0000_0000) by (nonlinear_arith)
            requires
                0 <= cy <= i32::MAX,
                0 < cell <= i32::MAX,
        ;
    }
    let x: i64 = cx as i64 * cell as i64;
    let y: i64 = cy as i64 * cell as i64;
    let c: i64 = cell as i64;
    let mut i: usize = 0;
    while i < walls.len()
        invariant
            i <= walls@.len(),
            x == cx * cell,
            y == cy * cell,
            c == cell,
            0 <= x <= 0x4000_0000_0000_0000,
            0 <= y <= 0x4000_0000_0000_0000,
            forall|j: int| 0 <= j < i ==> !wall_covers(#[trigger] walls@[j], cell as int, cx as int, cy as int),
        decreases walls.len() - i,
    {
        let w = walls[i];
        let wx = w.x as i64;
        let wy = w.y as i64;
        if x + c > wx - 5 && x < wx + w.w as i64 + 5 && y + c > wy - 5 && y < wy + w.h as i64 + 5 {
            return true;
        }
        i = i + 1;
    }
    false
}

/// Every cell reached from an open goal is open itself.
proof fn lemma_reached_open(g: &NavGrid, goal: (int, int), v: (int, int), n: nat)
    requires
        !g.blocked_at(goal.0, goal.1),
        g.reaches(goal, v, n),
    ensures
        !g.blocked_at(v.0, v.1),
    decreases n,
{
    if n > 0 {
        let m = (n - 1) as nat;
        lemma_reaches_unfold(g, goal, v, m);
        if g.reaches(goal, v, m) {
            lemma_reached_open(g, goal, v, m);
        } else {
            let k = choose|k: int| 0 <= k < 8 && #[trigger] g.entered(goal, v, m, k);
            assert(moved(back(v, k), k) == v);
        }
    }
}

/// The move opposite to move `k`.
pub open spec fn opposite(k: int) -> int {
    if k == 0 {
        1
    } else if k == 1 {
        0
    } else if k == 2 {
        3
    } else if k == 3 {
        2
    } else if k == 4 {
        7
    } else if k == 5 {
        6
    } else if k == 6 {
        5
    } else {
        4
    }
}

/// Every cell that can reach an open goal, other than the goal itself, has
/// a move to a cheaper open neighbour, so its routing direction is never
/// zero.
pub proof fn lemma_downhill_exists(f: &FlowField, g: &NavGrid, p: (int, int))
    requires
        f.wf(g),
        f.spec_goal() matches Some(goal) && !g.blocked_at(goal.0 as int, goal.1 as int),
        g.in_grid(p.0, p.1),
        f.cost_at(p.0, p.1) != u32::MAX,
        f.cost_at(p.0, p.1) > 0,
    ensures
        exists|k: int| 0 <= k < 8 && #[trigger] f.descent(g, p, k) > 0,
{
    let goal = pt(f.goal.unwrap());
    let costs = f.cost@;
    let c = cost_of(costs, g.width(), p);
    assert(c == f.cost_at(p.0, p.1));
    let m = (c - 1) as nat;
    assert(g.reaches(goal, p, c as nat) && !g.reaches(goal, p, m));
    lemma_reaches_unfold(g, goal, p, m);
    let k = choose|k: int| 0 <= k < 8 && #[trigger] g.entered(goal, p, m, k);
    let u = back(p, k);
    lemma_reached_open(g, goal, u, m);
    lemma_distance_field_exact(g, goal, costs, u, m);
    let ko = opposite(k);
    assert(moved(p, ko) == u);
    assert(f.cost_at(u.0, u.1) == cost_of(costs, g.width(), u));
    assert(f.descent(g, p, ko) > 0);
}

} // verus!
