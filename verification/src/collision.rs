//! A uniform grid of buckets over entity cells, rebuilt each frame, so that
//! the many-bullets-against-many-enemies test stays near linear.

use vstd::prelude::*;

verus! {

/// The indices, in increasing order, of the first `n` entities whose cell
/// is `c`.
pub open spec fn members(cells: Seq<(i32, i32)>, c: (int, int), n: nat) -> Seq<u32>
    decreases n,
{
    if n == 0 {
        Seq::empty()
    } else {
        let prev = members(cells, c, (n - 1) as nat);
        if cells[n - 1].0 == c.0 && cells[n - 1].1 == c.1 {
            prev.push((n - 1) as u32)
        } else {
            prev
        }
    }
}

/// An index is a member exactly when its entity sits in the cell.
pub proof fn lemma_members(cells: Seq<(i32, i32)>, c: (int, int), n: nat, i: int)
    requires
        n <= cells.len(),
        n <= u32::MAX + 1,
    ensures
        members(cells, c, n).contains(i as u32) && 0 <= i <= u32::MAX <==> (0 <= i < n && cells[i].0 == c.0 && cells[i].1 == c.1),
    decreases n,
{
    if n > 0 {
        lemma_members(cells, c, (n - 1) as nat, i);
        let prev = members(cells, c, (n - 1) as nat);
        if cells[n - 1].0 == c.0 && cells[n - 1].1 == c.1 {
            let cur = prev.push((n - 1) as u32);
            if 0 <= i <= u32::MAX && cur.contains(i as u32) {
                let j = choose|j: int| 0 <= j < cur.len() && cur[j] == i as u32;
                if j < prev.len() {
                    assert(prev[j] == cur[j]);
                }
            }
            if 0 <= i < n && cells[i].0 == c.0 && cells[i].1 == c.1 {
                if i == n - 1 {
                    assert(cur[prev.len() as int] == i as u32);
                } else {
                    let j = choose|j: int| 0 <= j < prev.len() && prev[j] == i as u32;
                    assert(cur[j] == prev[j]);
                }
            }
        }
    }
}

/// Uniform grid of buckets: each cell lists the entities standing in it.
pub struct SpatialGrid {
    cols: i32,
    rows: i32,
    buckets: Vec<Vec<u32>>,
    cells: Ghost<Seq<(i32, i32)>>,
}

impl SpatialGrid {
    /// Every bucket lists, in order, the entities whose cell it is.
    pub closed spec fn wf(&self) -> bool {
        &&& self.cols >= 0
        &&& self.rows >= 0
        &&& self.cols * self.rows <= usize::MAX
        &&& self.buckets@.len() == self.cols * self.rows
        &&& self.cells@.len() <= u32::MAX
        &&& forall|x: int, y: int|
            0 <= x < self.cols && 0 <= y < self.rows ==> #[trigger] self.buckets@[y * self.cols + x]@ == members(
                self.cells@,
                (x, y),
                self.cells@.len(),
            )
    }

    /// The entity cells the grid was built from.
    pub closed spec fn positions(&self) -> Seq<(i32, i32)> {
        self.cells@
    }

    /// Whether `(x, y)` is a cell of the grid.
    pub closed spec fn in_grid(&self, x: int, y: int) -> bool {
        0 <= x < self.cols && 0 <= y < self.rows
    }

    /// The entities in cell `(x, y)`, none off the grid.
    pub closed spec fn bucket(&self, x: int, y: int) -> Seq<u32> {
        if self.in_grid(x, y) {
            self.buckets@[y * self.cols + x]@
        } else {
            Seq::empty()
        }
    }

    /// The entities of the 3 by 3 block of cells around `c`, row by row.
    pub open spec fn around(&self, c: (i32, i32)) -> Seq<u32> {
        let x = c.0 as int;
        let y = c.1 as int;
        self.bucket(x - 1, y - 1) + self.bucket(x, y - 1) + self.bucket(x + 1, y - 1) + self.bucket(x - 1, y)
            + self.bucket(x, y) + self.bucket(x + 1, y) + self.bucket(x - 1, y + 1) + self.bucket(x, y + 1)
            + self.bucket(x + 1, y + 1)
    }

    proof fn lemma_slot(&self, x: int, y: int)
        requires
            self.cols >= 0,
            self.rows >= 0,
            self.buckets@.len() == self.cols * self.rows,
            0 <= x < self.cols,
            0 <= y < self.rows,
        ensures
            0 <= y * self.cols + x < self.buckets@.len(),
    {
        let w = self.cols as int;
        let h = self.rows as int;
        assert(0 <= y * w + x < w * h) by (nonlinear_arith)
            requires
                0 <= x < w,
                0 <= y < h,
        ;
    }

    /// The grid of `cols` by `rows` cells, each entity `i` listed in the
    /// bucket of `cells[i]`; entities off the grid are left out.
    pub fn build(cells: &Vec<(i32, i32)>, cols: i32, rows: i32) -> (g: SpatialGrid)
        requires
            cols >= 0,
            rows >= 0,
            cols * rows <= usize::MAX,
            cells@.len() <= u32::MAX,
        ensures
            g.wf(),
            g.positions() == cells@,
            forall|x: int, y: int| #[trigger] g.in_grid(x, y) <==> (0 <= x < cols && 0 <= y < rows),
            forall|x: int, y: int| #[trigger] g.bucket(x, y) == (if 0 <= x < cols && 0 <= y < rows {
                members(cells@, (x, y), cells@.len())
            } else {
                Seq::empty()
            }),
    {
        proof {
            assert(0 <= cols * rows) by (nonlinear_arith)
                requires
                    0 <= cols,
                    0 <= rows,
            ;
        }
        let n: usize = cols as usize * rows as usize;
        let mut buckets: Vec<Vec<u32>> = Vec::new();
        let mut b: usize = 0;
        while b < n
            invariant
                b <= n,
                buckets@.len() == b,
                forall|t: int| 0 <= t < b ==> #[trigger] buckets@[t]@ == Seq::<u32>::empty(),
            decreases n - b,
        {
            buckets.push(Vec::new());
            b = b + 1;
        }
        let mut g = SpatialGrid { cols, rows, buckets, cells: Ghost(Seq::empty()) };
        proof {
            assert forall|x: int, y: int| 0 <= x < cols && 0 <= y < rows implies #[trigger] g.buckets@[y * cols + x]@
                == members(cells@, (x, y), 0) by {
                g.lemma_slot(x, y);
            }
        }
        let mut i: usize = 0;
        while i < cells.len()
            invariant
                i <= cells@.len() <= u32::MAX,
                g.cols == cols,
                g.rows == rows,
                cols >= 0,
                rows >= 0,
                cols * rows <= usize::MAX,
                g.buckets@.len() == cols * rows,
                forall|x: int, y: int|
                    0 <= x < cols && 0 <= y < rows ==> #[trigger] g.buckets@[y * cols + x]@ == members(
                        cells@,
                        (x, y),
                        i as nat,
                    ),
            decreases cells.len() - i,
        {
            let c = cells[i];
            if c.0 >= 0 && c.1 >= 0 && c.0 < cols && c.1 < rows {
                proof {
                    g.lemma_slot(c.0 as int, c.1 as int);
                }
                let bi = (c.1 as usize) * (cols as usize) + (c.0 as usize);
                let ghost before = g.buckets@;
                g.buckets[bi].push(i as u32);
                proof {
                    assert forall|x: int, y: int| 0 <= x < cols && 0 <= y < rows implies #[trigger] g.buckets@[y * cols
                        + x]@ == members(cells@, (x, y), (i + 1) as nat) by {
                        g.lemma_slot(x, y);
                        lemma_row_major_injective(cols as int, x, y, c.0 as int, c.1 as int);
                        if x == c.0 && y == c.1 {
                        } else {
                            assert(g.buckets@[y * cols + x] == before[y * cols + x]);
                        }
                    }
                }
            } else {
                proof {
                    assert forall|x: int, y: int| 0 <= x < cols && 0 <= y < rows implies #[trigger] g.buckets@[y * cols
                        + x]@ == members(cells@, (x, y), (i + 1) as nat) by {
                        assert(members(cells@, (x, y), (i + 1) as nat) == members(cells@, (x, y), i as nat));
                    }
                }
            }
            i = i + 1;
        }
        g.cells = Ghost(cells@);
        proof {
            assert forall|x: int, y: int| #[trigger] g.bucket(x, y) == (if 0 <= x < cols && 0 <= y < rows {
                members(cells@, (x, y), cells@.len())
            } else {
                Seq::empty()
            }) by {
                if 0 <= x < cols && 0 <= y < rows {
                    assert(g.buckets@[y * cols + x]@ == members(cells@, (x, y), cells@.len()));
                }
            }
        }
        g
    }

    /// Append the entities of bucket `(x, y)` to `out`.
    fn append_bucket(&self, x: i32, y: i32, out: &mut Vec<u32>)
        requires
            self.wf(),
        ensures
            final(out)@ == old(out)@ + self.bucket(x as int, y as int),
    {
        if x >= 0 && y >= 0 && x < self.cols && y < self.rows {
            proof {
                self.lemma_slot(x as int, y as int);
            }
            let bi = (y as usize) * (self.cols as usize) + (x as usize);
            let b = &self.buckets[bi];
            let mut k: usize = 0;
            let ghost start = out@;
            while k < b.len()
                invariant
                    k <= b@.len(),
                    out@ == start + b@.subrange(0, k as int),
                decreases b.len() - k,
            {
                out.push(b[k]);
                proof {
                    assert(b@.subrange(0, k + 1) == b@.subrange(0, k as int).push(b@[k as int]));
                }
                k = k + 1;
            }
            proof {
                assert(b@.subrange(0, b@.len() as int) == b@);
            }
        } else {
            proof {
                assert(out@ + Seq::<u32>::empty() == out@);
            }
        }
    }

    /// Fill `out` with the entities of the 3 by 3 block of cells around
    /// `c`, row by row.
    pub fn neighbors(&self, c: (i32, i32), out: &mut Vec<u32>)
        requires
            self.wf(),
            i32::MIN < c.0 < i32::MAX,
            i32::MIN < c.1 < i32::MAX,
        ensures
            final(out)@ == self.around(c),
            final(out)@.no_duplicates(),
    {
        proof {
            lemma_around_no_duplicates(self, c);
        }
        out.clear();
        self.append_bucket(c.0 - 1, c.1 - 1, out);
        self.append_bucket(c.0, c.1 - 1, out);
        self.append_bucket(c.0 + 1, c.1 - 1, out);
        self.append_bucket(c.0 - 1, c.1, out);
        self.append_bucket(c.0, c.1, out);
        self.append_bucket(c.0 + 1, c.1, out);
        self.append_bucket(c.0 - 1, c.1 + 1, out);
        self.append_bucket(c.0, c.1 + 1, out);
        self.append_bucket(c.0 + 1, c.1 + 1, out);
        proof {
            assert(Seq::<u32>::empty() + self.bucket(c.0 - 1, c.1 - 1) == self.bucket(c.0 - 1, c.1 - 1));
        }
    }
}

/// Row-major positions of two cells coincide only for the same cell.
proof fn lemma_row_major_injective(cols: int, x1: int, y1: int, x2: int, y2: int)
    requires
        0 <= x1 < cols,
        0 <= x2 < cols,
        0 <= y1,
        0 <= y2,
    ensures
        (y1 * cols + x1 == y2 * cols + x2) <==> (x1 == x2 && y1 == y2),
{
    if y1 < y2 {
        assert(y1 * cols + cols <= y2 * cols) by (nonlinear_arith)
            requires
                y1 < y2,
                0 <= cols,
        ;
    } else if y2 < y1 {
        assert(y2 * cols + cols <= y1 * cols) by (nonlinear_arith)
            requires
                y2 < y1,
                0 <= cols,
        ;
    }
}

/// The neighbourhood of `c` lists exactly the entities on the grid whose
/// cell is within one step of `c` in both directions.
pub proof fn lemma_around_contains(g: &SpatialGrid, c: (i32, i32), i: int)
    requires
        g.wf(),
    ensures
        g.around(c).contains(i as u32) && 0 <= i <= u32::MAX <==> {
            &&& 0 <= i < g.positions().len()
            &&& g.in_grid(g.positions()[i].0 as int, g.positions()[i].1 as int)
            &&& c.0 - 1 <= g.positions()[i].0 <= c.0 + 1
            &&& c.1 - 1 <= g.positions()[i].1 <= c.1 + 1
        },
{
    let cells = g.cells@;
    let n = cells.len();
    let x = c.0 as int;
    let y = c.1 as int;
    let parts = seq![
        (x - 1, y - 1), (x, y - 1), (x + 1, y - 1),
        (x - 1, y), (x, y), (x + 1, y),
        (x - 1, y + 1), (x, y + 1), (x + 1, y + 1),
    ];
    assert forall|t: int| 0 <= t < 9 implies (#[trigger] g.bucket(parts[t].0, parts[t].1).contains(i as u32) && 0 <= i
        <= u32::MAX <==> (0 <= i < n && g.in_grid(parts[t].0, parts[t].1) && cells[i].0 == parts[t].0 && cells[i].1
        == parts[t].1)) by {
        let p = parts[t];
        if g.in_grid(p.0, p.1) {
            lemma_members(cells, p, n, i);
        }
    }
    let s = g.around(c);
    let b = |t: int| g.bucket(parts[t].0, parts[t].1);
    assert(s == b(0) + b(1) + b(2) + b(3) + b(4) + b(5) + b(6) + b(7) + b(8));
    lemma_concat_contains(b(0), b(1), b(2), b(3), b(4), b(5), b(6), b(7), b(8), i as u32);
    if 0 <= i < n && g.in_grid(cells[i].0 as int, cells[i].1 as int) && x - 1 <= cells[i].0 <= x + 1 && y - 1 <= cells[i].1
        <= y + 1 {
        let t = (cells[i].1 - (y - 1)) * 3 + (cells[i].0 - (x - 1));
        assert(parts[t].0 == cells[i].0 && parts[t].1 == cells[i].1);
        assert(g.bucket(parts[t].0, parts[t].1).contains(i as u32));
    }
}

/// The members of a cell are listed in increasing order, so none twice, and
/// all are below `n`.
proof fn lemma_members_distinct(cells: Seq<(i32, i32)>, c: (int, int), n: nat)
    requires
        n <= cells.len(),
        n <= u32::MAX + 1,
    ensures
        members(cells, c, n).no_duplicates(),
        forall|j: int| 0 <= j < members(cells, c, n).len() ==> (#[trigger] members(cells, c, n)[j]) < n,
    decreases n,
{
    if n > 0 {
        lemma_members_distinct(cells, c, (n - 1) as nat);
        let prev = members(cells, c, (n - 1) as nat);
        if cells[n - 1].0 == c.0 && cells[n - 1].1 == c.1 {
            let cur = prev.push((n - 1) as u32);
            assert forall|i: int, j: int| 0 <= i < cur.len() && 0 <= j < cur.len() && i != j implies cur[i] != cur[j] by {
                if i < prev.len() && j < prev.len() {
                    assert(cur[i] == prev[i] && cur[j] == prev[j]);
                } else if i < prev.len() {
                    assert(cur[i] == prev[i]);
                } else if j < prev.len() {
                    assert(cur[j] == prev[j]);
                }
            }
            assert forall|j: int| 0 <= j < cur.len() implies (#[trigger] cur[j]) < n by {
                if j < prev.len() {
                    assert(cur[j] == prev[j]);
                }
            }
        }
    }
}

/// Where the cell of entity `v` sits in the 3 by 3 block around `(x, y)`,
/// counted row by row from 0 (top left) to 8 (bottom right).
spec fn block_slot(cells: Seq<(i32, i32)>, x: int, y: int, v: u32) -> int {
    (cells[v as int].1 - (y - 1)) * 3 + (cells[v as int].0 - (x - 1))
}

/// Appending the bucket of block slot `t` to the buckets of the earlier
/// slots repeats no entity: an entity has one cell, hence one slot.
proof fn lemma_append_slot(acc: Seq<u32>, bt: Seq<u32>, t: int, cells: Seq<(i32, i32)>, x: int, y: int)
    requires
        acc.no_duplicates(),
        bt.no_duplicates(),
        forall|v: u32| acc.contains(v) ==> (v as int) < cells.len() && block_slot(cells, x, y, v) < t,
        forall|v: u32| bt.contains(v) ==> (v as int) < cells.len() && block_slot(cells, x, y, v) == t,
    ensures
        (acc + bt).no_duplicates(),
        forall|v: u32| (acc + bt).contains(v) ==> (v as int) < cells.len() && block_slot(cells, x, y, v) < t + 1,
{
    let s = acc + bt;
    let la = acc.len() as int;
    assert forall|i: int, j: int| 0 <= i < s.len() && 0 <= j < s.len() && i != j implies s[i] != s[j] by {
        if i < la && j < la {
            assert(s[i] == acc[i] && s[j] == acc[j]);
        } else if i >= la && j >= la {
            assert(s[i] == bt[i - la] && s[j] == bt[j - la]);
        } else if i < la {
            assert(s[i] == acc[i] && acc.contains(acc[i]));
            assert(s[j] == bt[j - la] && bt.contains(bt[j - la]));
        } else {
            assert(s[j] == acc[j] && acc.contains(acc[j]));
            assert(s[i] == bt[i - la] && bt.contains(bt[i - la]));
        }
    }
    assert forall|v: u32| s.contains(v) implies (v as int) < cells.len() && block_slot(cells, x, y, v) < t + 1 by {
        let k = choose|k: int| 0 <= k < s.len() && s[k] == v;
        if k < la {
            assert(acc[k] == v && acc.contains(v));
        } else {
            assert(bt[k - la] == v && bt.contains(v));
        }
    }
}

/// The bucket at block slot `t` (0 to 8, row by row) around `c`.
spec fn slot_bucket(g: &SpatialGrid, c: (i32, i32), t: int) -> Seq<u32> {
    g.bucket(c.0 - 1 + t % 3, c.1 - 1 + t / 3)
}

proof fn lemma_slot_bucket(g: &SpatialGrid, c: (i32, i32), t: int)
    requires
        g.wf(),
        0 <= t < 9,
    ensures
        slot_bucket(g, c, t).no_duplicates(),
        forall|v: u32| #[trigger] slot_bucket(g, c, t).contains(v) ==> (v as int) < g.cells@.len()
            && block_slot(g.cells@, c.0 as int, c.1 as int, v) == t,
{
    let cells = g.cells@;
    let n = cells.len();
    let p = (c.0 - 1 + t % 3, c.1 - 1 + t / 3);
    if g.in_grid(p.0, p.1) {
        lemma_members_distinct(cells, p, n);
        assert forall|v: u32| slot_bucket(g, c, t).contains(v) implies (v as int) < n && block_slot(
            cells,
            c.0 as int,
            c.1 as int,
            v,
        ) == t by {
            lemma_members(cells, p, n, v as int);
        }
    }
}

/// No entity is listed twice in the neighbourhood of a cell: each sits in
/// one cell, and each bucket lists an entity at most once.
pub proof fn lemma_around_no_duplicates(g: &SpatialGrid, c: (i32, i32))
    requires
        g.wf(),
    ensures
        g.around(c).no_duplicates(),
{
    let cells = g.cells@;
    let x = c.0 as int;
    let y = c.1 as int;
    let b = |t: int| slot_bucket(g, c, t);
    assert(g.around(c) == b(0) + b(1) + b(2) + b(3) + b(4) + b(5) + b(6) + b(7) + b(8));
    lemma_slot_bucket(g, c, 0);
    lemma_slot_bucket(g, c, 1);
    lemma_append_slot(b(0), b(1), 1, cells, x, y);
    lemma_slot_bucket(g, c, 2);
    lemma_append_slot(b(0) + b(1), b(2), 2, cells, x, y);
    lemma_slot_bucket(g, c, 3);
    lemma_append_slot(b(0) + b(1) + b(2), b(3), 3, cells, x, y);
    lemma_slot_bucket(g, c, 4);
    lemma_append_slot(b(0) + b(1) + b(2) + b(3), b(4), 4, cells, x, y);
    lemma_slot_bucket(g, c, 5);
    lemma_append_slot(b(0) + b(1) + b(2) + b(3) + b(4), b(5), 5, cells, x, y);
    lemma_slot_bucket(g, c, 6);
    lemma_append_slot(b(0) + b(1) + b(2) + b(3) + b(4) + b(5), b(6), 6, cells, x, y);
    lemma_slot_bucket(g, c, 7);
    lemma_append_slot(b(0) + b(1) + b(2) + b(3) + b(4) + b(5) + b(6), b(7), 7, cells, x, y);
    lemma_slot_bucket(g, c, 8);
    lemma_append_slot(b(0) + b(1) + b(2) + b(3) + b(4) + b(5) + b(6) + b(7), b(8), 8, cells, x, y);
}

proof fn lemma_concat_contains(
    b0: Seq<u32>,
    b1: Seq<u32>,
    b2: Seq<u32>,
    b3: Seq<u32>,
    b4: Seq<u32>,
    b5: Seq<u32>,
    b6: Seq<u32>,
    b7: Seq<u32>,
    b8: Seq<u32>,
    v: u32,
)
    ensures
        (b0 + b1 + b2 + b3 + b4 + b5 + b6 + b7 + b8).contains(v) <==> (b0.contains(v) || b1.contains(v) || b2.contains(v)
            || b3.contains(v) || b4.contains(v) || b5.contains(v) || b6.contains(v) || b7.contains(v) || b8.contains(v)),
{
    broadcast use vstd::seq_lib::group_seq_properties;

}

} // verus!
