//! Half-block pixel framebuffer.
//!
//! Each terminal cell shows two stacked pixels, so the pixel grid is
//! `cols` wide and `rows * 2` tall. Pixels are stored row-major.

use vstd::prelude::*;

use crate::layout::Area;
use crate::palette::{spec_add, Rgb};

verus! {

/// Black, the color of a fresh buffer and of any read outside it.
pub open spec fn black() -> Rgb {
    (0u8, 0u8, 0u8)
}

/// Integer absolute value.
pub open spec fn iabs(v: int) -> int {
    if v < 0 {
        -v
    } else {
        v
    }
}

/// Whether `(x, y)` lies in the closed disk of radius `r` around `(cx, cy)`.
pub open spec fn in_disk(x: int, y: int, cx: int, cy: int, r: int) -> bool {
    (x - cx) * (x - cx) + (y - cy) * (y - cy) <= r * r
}

/// Whether `(x, y)` lies in the `w`-by-`h` rectangle whose top-left is `(x0, y0)`.
pub open spec fn in_rect(x: int, y: int, x0: int, y0: int, w: int, h: int) -> bool {
    x0 <= x < x0 + w && y0 <= y < y0 + h
}

/// The points visited by the all-octant Bresenham walk from state
/// `(x, y, err)` toward `(x1, y1)`, taking at most `fuel` further steps.
pub open spec fn walk(
    x: int,
    y: int,
    x1: int,
    y1: int,
    err: int,
    dx: int,
    dy: int,
    sx: int,
    sy: int,
    fuel: nat,
) -> Seq<(int, int)>
    decreases fuel,
{
    if (x == x1 && y == y1) || fuel == 0 {
        seq![(x, y)]
    } else {
        let e2 = 2 * err;
        let err_a = if e2 >= dy { err + dy } else { err };
        let xn = if e2 >= dy { x + sx } else { x };
        let err_b = if e2 <= dx { err_a + dx } else { err_a };
        let yn = if e2 <= dx { y + sy } else { y };
        seq![(x, y)] + walk(xn, yn, x1, y1, err_b, dx, dy, sx, sy, (fuel - 1) as nat)
    }
}

/// The pixels of the Bresenham line from `(x0, y0)` to `(x1, y1)`.
pub open spec fn line_path(x0: int, y0: int, x1: int, y1: int) -> Seq<(int, int)> {
    let dx = iabs(x1 - x0);
    let dy = -iabs(y1 - y0);
    let sx: int = if x0 < x1 { 1 } else { -1 };
    let sy: int = if y0 < y1 { 1 } else { -1 };
    walk(x0, y0, x1, y1, dx + dy, dx, dy, sx, sy, (dx - dy) as nat)
}

/// A `w` by `h` grid of colors.
pub struct PixelBuffer {
    w: usize,
    h: usize,
    px: Vec<Rgb>,
}

impl PixelBuffer {
    /// The buffer holds exactly one color per pixel.
    pub closed spec fn wf(&self) -> bool {
        &&& self.px@.len() == self.w * self.h
        &&& self.w * self.h <= usize::MAX
    }

    /// Width in pixels.
    pub closed spec fn width(&self) -> nat {
        self.w as nat
    }

    /// Height in pixels.
    pub closed spec fn height(&self) -> nat {
        self.h as nat
    }

    /// The color at column `x`, row `y` (meaningful inside the grid).
    pub closed spec fn at(&self, x: int, y: int) -> Rgb {
        self.px@[y * self.w + x]
    }

    /// Whether `(x, y)` addresses a pixel of the grid.
    pub open spec fn in_bounds(&self, x: int, y: int) -> bool {
        0 <= x < self.width() && 0 <= y < self.height()
    }

    /// `self` has the size of `old`, and every pixel of it is `f` applied to
    /// its coordinates and to the pixel of `old` at the same place.
    pub open spec fn repaints(
        &self,
        old: &PixelBuffer,
        f: spec_fn(int, int, Rgb) -> Rgb,
    ) -> bool {
        &&& self.width() == old.width()
        &&& self.height() == old.height()
        &&& forall|x: int, y: int|
            self.in_bounds(x, y) ==> #[trigger] self.at(x, y) == f(x, y, old.at(x, y))
    }

    /// `self` is `old` with every pixel where `region` holds set to `c`.
    pub open spec fn paints(
        &self,
        old: &PixelBuffer,
        region: spec_fn(int, int) -> bool,
        c: Rgb,
    ) -> bool {
        self.repaints(old, |x: int, y: int, o: Rgb| if region(x, y) { c } else { o })
    }

    proof fn lemma_index(&self, x: int, y: int)
        requires
            self.wf(),
            self.in_bounds(x, y),
        ensures
            0 <= y * self.w,
            0 <= y * self.w + x < self.px@.len(),
            y * self.w + x < usize::MAX,
    {
        let w = self.w as int;
        let h = self.h as int;
        assert(0 <= y * w) by (nonlinear_arith)
            requires
                0 <= y,
                0 <= w,
        ;
        assert(y * w + x < h * w) by (nonlinear_arith)
            requires
                0 <= x < w,
                0 <= y < h,
        ;
    }

    proof fn lemma_index_injective(&self, x1: int, y1: int, x2: int, y2: int)
        requires
            self.in_bounds(x1, y1),
            self.in_bounds(x2, y2),
            y1 * self.w + x1 == y2 * self.w + x2,
        ensures
            x1 == x2 && y1 == y2,
    {
        let w = self.w as int;
        if y1 < y2 {
            assert(y1 * w + w <= y2 * w) by (nonlinear_arith)
                requires
                    y1 < y2,
                    0 <= w,
            ;
        } else if y2 < y1 {
            assert(y2 * w + w <= y1 * w) by (nonlinear_arith)
                requires
                    y2 < y1,
                    0 <= w,
            ;
        }
    }

    /// A `w` by `h` buffer, all black.
    pub fn new(w: usize, h: usize) -> (pb: PixelBuffer)
        requires
            w * h <= usize::MAX,
        ensures
            pb.wf(),
            pb.width() == w,
            pb.height() == h,
            forall|x: int, y: int| pb.in_bounds(x, y) ==> #[trigger] pb.at(x, y) == black(),
    {
        let n = w * h;
        let mut px: Vec<Rgb> = Vec::new();
        let mut i: usize = 0;
        while i < n
            invariant
                i <= n,
                px@.len() == i,
                forall|j: int| 0 <= j < i ==> #[trigger] px@[j] == black(),
            decreases n - i,
        {
            px.push((0, 0, 0));
            i = i + 1;
        }
        let pb = PixelBuffer { w, h, px };
        assert forall|x: int, y: int| pb.in_bounds(x, y) implies #[trigger] pb.at(x, y) == black() by {
            pb.lemma_index(x, y);
        }
        pb
    }

    /// Width in pixels.
    pub fn w(&self) -> (r: usize)
        ensures
            r == self.width(),
    {
        self.w
    }

    /// Height in pixels.
    pub fn h(&self) -> (r: usize)
        ensures
            r == self.height(),
    {
        self.h
    }

    /// Paint every pixel `c`.
    pub fn clear(&mut self, c: Rgb)
        requires
            old(self).wf(),
        ensures
            final(self).wf(),
            final(self).paints(old(self), |x: int, y: int| true, c),
    {
        let n = self.px.len();
        let mut i: usize = 0;
        while i < n
            invariant
                i <= n,
                n == self.px@.len(),
                self.w == old(self).w,
                self.h == old(self).h,
                n == self.w * self.h,
                forall|j: int| 0 <= j < i ==> #[trigger] self.px@[j] == c,
                forall|j: int| i <= j < n ==> #[trigger] self.px@[j] == old(self).px@[j],
            decreases n - i,
        {
            self.px.set(i, c);
            i = i + 1;
        }
        proof {
            assert forall|x: int, y: int| self.in_bounds(x, y) implies #[trigger] self.at(x, y)
                == c by {
                self.lemma_index(x, y);
            }
        }
    }

    /// Set one pixel; coordinates outside the grid are ignored.
    pub fn plot(&mut self, x: i32, y: i32, c: Rgb)
        requires
            old(self).wf(),
        ensures
            final(self).wf(),
            final(self).paints(old(self), |px: int, py: int| px == x && py == y, c),
    {
        if x < 0 || y < 0 {
            return;
        }
        let xu = x as usize;
        let yu = y as usize;
        if xu >= self.w || yu >= self.h {
            return;
        }
        proof {
            self.lemma_index(x as int, y as int);
        }
        let i = yu * self.w + xu;
        let ghost before = *self;
        self.px.set(i, c);
        proof {
            assert forall|px: int, py: int| self.in_bounds(px, py) implies #[trigger] self.at(px, py)
                == (if px == x && py == y { c } else { before.at(px, py) }) by {
                before.lemma_index(px, py);
                if !(px == x && py == y) {
                    if py * self.w + px == i {
                        before.lemma_index_injective(px, py, x as int, y as int);
                    }
                }
            }
        }
    }

    /// Additive plot: blend `c` onto one pixel; outside the grid it is ignored.
    pub fn plot_add(&mut self, x: i32, y: i32, c: Rgb)
        requires
            old(self).wf(),
        ensures
            final(self).wf(),
            final(self).repaints(
                old(self),
                |px: int, py: int, o: Rgb| if px == x && py == y { spec_add(o, c) } else { o },
            ),
    {
        if x < 0 || y < 0 {
            return;
        }
        let xu = x as usize;
        let yu = y as usize;
        if xu >= self.w || yu >= self.h {
            return;
        }
        proof {
            self.lemma_index(x as int, y as int);
        }
        let i = yu * self.w + xu;
        let cur = self.px[i];
        let ghost before = *self;
        self.px.set(i, crate::palette::add(cur, c));
        proof {
            assert forall|px: int, py: int| self.in_bounds(px, py) implies #[trigger] self.at(px, py)
                == (if px == x && py == y { spec_add(before.at(px, py), c) } else { before.at(px, py) }) by {
                before.lemma_index(px, py);
                if !(px == x && py == y) {
                    if py * self.w + px == i {
                        before.lemma_index_injective(px, py, x as int, y as int);
                    }
                }
            }
        }
    }

    /// Read a pixel; outside the grid reads black.
    pub fn pixel_at(&self, x: usize, y: usize) -> (r: Rgb)
        requires
            self.wf(),
        ensures
            r == (if self.in_bounds(x as int, y as int) { self.at(x as int, y as int) } else { black() }),
    {
        self.get(x, y)
    }

    fn get(&self, x: usize, y: usize) -> (r: Rgb)
        requires
            self.wf(),
        ensures
            r == (if self.in_bounds(x as int, y as int) { self.at(x as int, y as int) } else { black() }),
    {
        if x < self.w && y < self.h {
            proof {
                self.lemma_index(x as int, y as int);
            }
            self.px[y * self.w + x]
        } else {
            (0, 0, 0)
        }
    }
}


/// `r * w + c` stays below `rows * w` for a cell of the first `rows` rows.
proof fn lemma_cell_index_below(r: int, c: int, rows: int, w: int)
    by (nonlinear_arith)
    requires
        0 <= r < rows,
        0 <= c < w,
    ensures
        r * w + c < rows * w,
        0 <= r * w + c,
{
}

impl PixelBuffer {
    /// The pixel at `(x, y)`, or black outside the grid.
    pub open spec fn read_or_black(&self, x: int, y: int) -> Rgb {
        if self.in_bounds(x, y) {
            self.at(x, y)
        } else {
            black()
        }
    }

    /// The terminal cell at column `cx`, row `cy` of `area`: its screen
    /// position, then the top pixel (the foreground of `▀`) and the bottom
    /// pixel (the background) of the two it stacks.
    pub open spec fn half_block_cell(&self, area: Area, cx: int, cy: int) -> (u16, u16, Rgb, Rgb) {
        (
            (area.x + cx) as u16,
            (area.y + cy) as u16,
            self.read_or_black(cx, 2 * cy),
            self.read_or_black(cx, 2 * cy + 1),
        )
    }

    /// The cells that show the grid in `area`, row by row: each cell stacks
    /// two pixels, the top one as foreground and the bottom one as
    /// background.
    pub fn half_block_cells(&self, area: Area) -> (cells: Vec<(u16, u16, Rgb, Rgb)>)
        requires
            self.wf(),
            area.x + area.width <= 0x10000,
            area.y + area.height <= 0x10000,
        ensures
            cells@.len() == area.width * area.height,
            forall|cy: int, cx: int|
                0 <= cy < area.height && 0 <= cx < area.width ==> cells@[cy * area.width + cx]
                    == #[trigger] self.half_block_cell(area, cx, cy),
    {
        let w = area.width;
        let mut cells: Vec<(u16, u16, Rgb, Rgb)> = Vec::new();
        let mut cy: u16 = 0;
        while cy < area.height
            invariant
                self.wf(),
                w == area.width,
                area.x + area.width <= 0x10000,
                area.y + area.height <= 0x10000,
                cy <= area.height,
                cells@.len() == cy * w,
                forall|r: int, c: int|
                    0 <= r < cy && 0 <= c < w ==> cells@[r * w + c]
                        == #[trigger] self.half_block_cell(area, c, r),
            decreases area.height - cy,
        {
            let mut cx: u16 = 0;
            while cx < w
                invariant
                    self.wf(),
                    w == area.width,
                    area.x + area.width <= 0x10000,
                    area.y + area.height <= 0x10000,
                    cy < area.height,
                    cx <= w,
                    cells@.len() == cy * w + cx,
                    forall|r: int, c: int|
                        0 <= r < cy && 0 <= c < w ==> cells@[r * w + c]
                            == #[trigger] self.half_block_cell(area, c, r),
                    forall|c: int|
                        0 <= c < cx ==> cells@[cy * w + c]
                            == #[trigger] self.half_block_cell(area, c, cy as int),
                decreases w - cx,
            {
                let top = self.get(cx as usize, 2 * (cy as usize));
                let bot = self.get(cx as usize, 2 * (cy as usize) + 1);
                let ghost before = cells@;
                cells.push((area.x + cx, area.y + cy, top, bot));
                proof {
                    assert forall|r: int, c: int|
                        0 <= r < cy && 0 <= c < w implies cells@[r * w + c]
                            == #[trigger] self.half_block_cell(area, c, r) by {
                        lemma_cell_index_below(r, c, cy as int, w as int);
                        assert(cells@[r * w + c] == before[r * w + c]);
                    }
                    assert(cells@[cy * w + cx] == self.half_block_cell(area, cx as int, cy as int));
                }
                cx = cx + 1;
            }
            proof {
                assert forall|r: int, c: int|
                    0 <= r < cy + 1 && 0 <= c < w implies cells@[r * w + c]
                        == #[trigger] self.half_block_cell(area, c, r) by {
                    if r == cy {
                        assert(self.half_block_cell(area, c, cy as int) == self.half_block_cell(area, c, r));
                    }
                }
                assert(cells@.len() == (cy + 1) * w) by (nonlinear_arith)
                    requires
                        cells@.len() == cy * w + w,
                ;
            }
            cy = cy + 1;
        }
        proof {
            assert(cells@.len() == area.width * area.height) by (nonlinear_arith)
                requires
                    cells@.len() == cy * w,
                    cy == area.height,
                    w == area.width,
            ;
        }
        cells
    }
}

impl PixelBuffer {
    /// Fill the disk of radius `r` around `(cx, cy)`; a radius of zero or
    /// less plots just the center.
    pub fn filled_circle(&mut self, cx: i32, cy: i32, r: i32, c: Rgb)
        requires
            old(self).wf(),
            r > 0 ==> {
                &&& r * r <= i32::MAX / 2
                &&& i32::MIN <= cx - r
                &&& cx + r <= i32::MAX
                &&& i32::MIN <= cy - r
                &&& cy + r <= i32::MAX
            },
        ensures
            final(self).wf(),
            r <= 0 ==> final(self).paints(old(self), |x: int, y: int| x == cx && y == cy, c),
            r > 0 ==> final(self).paints(
                old(self),
                |x: int, y: int| in_disk(x, y, cx as int, cy as int, r as int),
                c,
            ),
    {
        if r <= 0 {
            self.plot(cx, cy, c);
            return;
        }
        let ghost start = *self;
        let ghost disk = |x: int, y: int| in_disk(x, y, cx as int, cy as int, r as int);
        proof {
            assert(0 < r < 65536) by (nonlinear_arith)
                requires
                    0 < r,
                    r * r <= i32::MAX / 2,
            ;
        }
        let r2 = r * r;
        let mut dy: i32 = -r;
        proof {
            assert forall|x: int, y: int| #[trigger] start.at(x, y) == start.at(x, y) && disk(x, y)
                implies -r <= y - cy <= r by {
                lemma_disk_bounds(x - cx, y - cy, r as int);
            }
        }
        while dy <= r
            invariant
                -r <= dy <= r + 1,
                0 < r < 65536,
                r2 == r * r,
                r * r <= i32::MAX / 2,
                i32::MIN <= cx - r,
                cx + r <= i32::MAX,
                i32::MIN <= cy - r,
                cy + r <= i32::MAX,
                start == *old(self),
                disk == (|x: int, y: int| in_disk(x, y, cx as int, cy as int, r as int)),
                self.wf(),
                self.paints(&start, |x: int, y: int| disk(x, y) && y - cy < dy, c),
            decreases r + 1 - dy,
        {
            let mut dx: i32 = -r;
            proof {
                assert forall|x: int, y: int|
                    #[trigger] disk(x, y) implies (-r <= x - cx <= r) by {
                    lemma_disk_bounds(y - cy, x - cx, r as int);
                }
                lemma_paint_same(
                    &start,
                    self,
                    |x: int, y: int| disk(x, y) && y - cy < dy,
                    |x: int, y: int| disk(x, y) && (y - cy < dy || (y - cy == dy && x - cx < dx)),
                    c,
                );
            }
            while dx <= r
                invariant
                    -r <= dy <= r,
                    -r <= dx <= r + 1,
                    0 < r < 65536,
                    r2 == r * r,
                    r * r <= i32::MAX / 2,
                    i32::MIN <= cx - r,
                    cx + r <= i32::MAX,
                    i32::MIN <= cy - r,
                    cy + r <= i32::MAX,
                    start == *old(self),
                    disk == (|x: int, y: int| in_disk(x, y, cx as int, cy as int, r as int)),
                    self.wf(),
                    self.paints(
                        &start,
                        |x: int, y: int| disk(x, y) && (y - cy < dy || (y - cy == dy && x - cx < dx)),
                        c,
                    ),
                decreases r + 1 - dx,
            {
                proof {
                    lemma_square_le(dx as int, r as int);
                    lemma_square_le(dy as int, r as int);
                }
                let ghost mid = *self;
                if dx * dx + dy * dy <= r2 {
                    self.plot(cx + dx, cy + dy, c);
                    proof {
                        lemma_paint_one_more(
                            &start,
                            &mid,
                            self,
                            |x: int, y: int| disk(x, y) && (y - cy < dy || (y - cy == dy && x - cx < dx)),
                            (cx + dx) as int,
                            (cy + dy) as int,
                            |x: int, y: int| disk(x, y) && (y - cy < dy || (y - cy == dy && x - cx < dx + 1)),
                            c,
                        );
                    }
                } else {
                    proof {
                        lemma_paint_same(
                            &start,
                            self,
                            |x: int, y: int| disk(x, y) && (y - cy < dy || (y - cy == dy && x - cx < dx)),
                            |x: int, y: int| disk(x, y) && (y - cy < dy || (y - cy == dy && x - cx < dx + 1)),
                            c,
                        );
                    }
                }
                dx = dx + 1;
            }
            proof {
                assert forall|x: int, y: int|
                    #[trigger] disk(x, y) implies (-r <= x - cx <= r) by {
                    lemma_disk_bounds(y - cy, x - cx, r as int);
                }
                lemma_paint_same(
                    &start,
                    self,
                    |x: int, y: int| disk(x, y) && (y - cy < dy || (y - cy == dy && x - cx < dx)),
                    |x: int, y: int| disk(x, y) && y - cy < dy + 1,
                    c,
                );
            }
            dy = dy + 1;
        }
        proof {
            assert forall|x: int, y: int| #[trigger] disk(x, y) implies (y - cy < dy) by {
                lemma_disk_bounds(x - cx, y - cy, r as int);
            }
            lemma_paint_same(
                &start,
                self,
                |x: int, y: int| disk(x, y) && y - cy < dy,
                |x: int, y: int| in_disk(x, y, cx as int, cy as int, r as int),
                c,
            );
        }
    }

    /// Fill the `w` by `h` rectangle whose top-left pixel is `(x0, y0)`.
    pub fn rect_fill(&mut self, x0: i32, y0: i32, w: i32, h: i32, c: Rgb)
        requires
            old(self).wf(),
            i32::MIN <= y0 + h <= i32::MAX,
            h > 0 ==> i32::MIN <= x0 + w <= i32::MAX,
        ensures
            final(self).wf(),
            final(self).paints(
                old(self),
                |x: int, y: int| in_rect(x, y, x0 as int, y0 as int, w as int, h as int),
                c,
            ),
    {
        let ghost start = *self;
        let y_end = y0 + h;
        let mut y = y0;
        proof {
            lemma_paint_same(&start, self, |x: int, y: int| false, |px: int, py: int| in_rect(px, py, x0 as int, y0 as int, w as int, (y - y0) as int), c);
        }
        while y < y_end
            invariant
                y_end == y0 + h,
                y0 <= y <= (if h > 0 { y_end } else { y0 }),
                h > 0 ==> i32::MIN <= x0 + w <= i32::MAX,
                start == *old(self),
                self.wf(),
                self.paints(&start, |px: int, py: int| in_rect(px, py, x0 as int, y0 as int, w as int, (y - y0) as int), c),
            decreases y_end - y,
        {
            let x_end = x0 + w;
            let mut x = x0;
            while x < x_end
                invariant
                    y0 <= y < y_end,
                    y_end == y0 + h,
                    x_end == x0 + w,
                    x0 <= x <= (if w > 0 { x_end } else { x0 }),
                    start == *old(self),
                    self.wf(),
                    self.paints(
                        &start,
                        |px: int, py: int| in_rect(px, py, x0 as int, y0 as int, w as int, (y - y0) as int)
                            || (py == y && x0 <= px < x),
                        c,
                    ),
                decreases x_end - x,
            {
                let ghost mid = *self;
                self.plot(x, y, c);
                proof {
                    lemma_paint_one_more(
                        &start,
                        &mid,
                        self,
                        |px: int, py: int| in_rect(px, py, x0 as int, y0 as int, w as int, (y - y0) as int)
                            || (py == y && x0 <= px < x),
                        x as int,
                        y as int,
                        |px: int, py: int| in_rect(px, py, x0 as int, y0 as int, w as int, (y - y0) as int)
                            || (py == y && x0 <= px < x + 1),
                        c,
                    );
                }
                x = x + 1;
            }
            proof {
                lemma_paint_same(
                    &start,
                    self,
                    |px: int, py: int| in_rect(px, py, x0 as int, y0 as int, w as int, (y - y0) as int)
                        || (py == y && x0 <= px < x),
                    |px: int, py: int| in_rect(px, py, x0 as int, y0 as int, w as int, (y + 1 - y0) as int),
                    c,
                );
            }
            y = y + 1;
        }
        proof {
            lemma_paint_same(
                &start,
                self,
                |px: int, py: int| in_rect(px, py, x0 as int, y0 as int, w as int, (y - y0) as int),
                |px: int, py: int| in_rect(px, py, x0 as int, y0 as int, w as int, h as int),
                c,
            );
        }
    }
}

impl PixelBuffer {
    /// Draw the Bresenham line from `(x0, y0)` to `(x1, y1)`, both ends included.
    pub fn line(&mut self, x0: i32, y0: i32, x1: i32, y1: i32, c: Rgb)
        requires
            old(self).wf(),
        ensures
            final(self).wf(),
            final(self).paints(
                old(self),
                |x: int, y: int| line_path(x0 as int, y0 as int, x1 as int, y1 as int).contains((x, y)),
                c,
            ),
            line_path(x0 as int, y0 as int, x1 as int, y1 as int)[0] == (x0 as int, y0 as int),
            line_path(x0 as int, y0 as int, x1 as int, y1 as int).last() == (x1 as int, y1 as int),
    {
        let ghost start = *self;
        let tx: i64 = x1 as i64;
        let ty: i64 = y1 as i64;
        let ddx: i64 = tx - x0 as i64;
        let ddy: i64 = ty - y0 as i64;
        let dx: i64 = if ddx < 0 { -ddx } else { ddx };
        let dy: i64 = if ddy < 0 { ddy } else { -ddy };
        let sx: i64 = if x0 < x1 { 1 } else { -1 };
        let sy: i64 = if y0 < y1 { 1 } else { -1 };
        let mut err: i64 = dx + dy;
        let mut x: i64 = x0 as i64;
        let mut y: i64 = y0 as i64;
        let ghost full = line_path(x0 as int, y0 as int, x1 as int, y1 as int);
        let ghost big_dy: int = -dy;
        let ghost mut done: Seq<(int, int)> = Seq::empty();
        let ghost mut fuel: nat = (dx - dy) as nat;
        let ghost mut a: int = 0;
        let ghost mut b: int = 0;
        let ghost mut pa: int = big_dy;
        let ghost mut pb: int = dx as int;
        proof {
            lemma_paint_same(&start, self, |px: int, py: int| false, |px: int, py: int| done.contains((px, py)), c);
        }
        loop
            invariant_except_break
                self.paints(&start, |px: int, py: int| done.contains((px, py)), c),
            invariant
                start == *old(self),
                self.wf(),
                tx == x1,
                ty == y1,
                0 <= dx <= 0x1_0000_0000,
                0 <= big_dy <= 0x1_0000_0000,
                big_dy == -dy,
                dx == iabs(x1 - x0),
                big_dy == iabs(y1 - y0),
                sx == (if x0 < x1 { 1int } else { -1int }),
                sy == (if y0 < y1 { 1int } else { -1int }),
                0 <= a <= dx,
                0 <= b <= big_dy,
                x == (if x0 < x1 { x0 + a } else { x0 - a }),
                y == (if y0 < y1 { y0 + b } else { y0 - b }),
                pa == (a + 1) * big_dy,
                pb == (b + 1) * dx,
                err == pb - pa,
                -3 * big_dy - dx <= 2 * err <= 3 * dx + big_dy,
                fuel >= (dx - a) + (big_dy - b),
                full == done + walk(x as int, y as int, x1 as int, y1 as int, err as int, dx as int, dy as int, sx as int, sy as int, fuel),
            ensures
                self.wf(),
                self.paints(&start, |px: int, py: int| full.contains((px, py)), c),
                full.last() == (x1 as int, y1 as int),
            decreases (dx - a) + (big_dy - b),
        {
            let ghost mid = *self;
            let ghost here: (int, int) = (x as int, y as int);
            self.plot(x as i32, y as i32, c);
            proof {
                lemma_push_contains(done, here);
                lemma_paint_one_more(
                    &start,
                    &mid,
                    self,
                    |px: int, py: int| done.contains((px, py)),
                    x as int,
                    y as int,
                    |px: int, py: int| done.push(here).contains((px, py)),
                    c,
                );
            }
            if x == tx && y == ty {
                proof {
                    assert(full == done.push(here));
                    lemma_paint_same(
                        &start,
                        self,
                        |px: int, py: int| done.push(here).contains((px, py)),
                        |px: int, py: int| full.contains((px, py)),
                        c,
                    );
                }
                break;
            }
            proof {
                assert(a < dx || b < big_dy);
                assert(fuel > 0);
            }
            let e2 = 2 * err;
            let ghost old_err = err;
            let ghost x_moves = e2 >= dy;
            let ghost y_moves = e2 <= dx;
            proof {
                // The walk never overshoots an axis it has finished, and
                // always advances along at least one axis.
                if a == dx {
                    assert(b < big_dy);
                    assert((b + 1) * dx <= big_dy * dx) by (nonlinear_arith)
                        requires
                            b + 1 <= big_dy,
                            0 <= dx,
                    ;
                    assert(pa == dx * big_dy + big_dy) by (nonlinear_arith)
                        requires
                            pa == (a + 1) * big_dy,
                            a == dx,
                    ;
                    assert(dx * big_dy == big_dy * dx) by (nonlinear_arith);
                    assert(!x_moves);
                }
                if b == big_dy {
                    assert(a < dx);
                    assert((a + 1) * big_dy <= dx * big_dy) by (nonlinear_arith)
                        requires
                            a + 1 <= dx,
                            0 <= big_dy,
                    ;
                    assert(pb == big_dy * dx + dx) by (nonlinear_arith)
                        requires
                            pb == (b + 1) * dx,
                            b == big_dy,
                    ;
                    assert(dx * big_dy == big_dy * dx) by (nonlinear_arith);
                    assert(!y_moves);
                }
                assert(x_moves || y_moves);
            }
            if e2 >= dy {
                err = err + dy;
                x = x + sx;
                proof {
                    assert(pa + big_dy == (a + 2) * big_dy) by (nonlinear_arith)
                        requires
                            pa == (a + 1) * big_dy,
                    ;
                    a = a + 1;
                    pa = pa + big_dy;
                }
            }
            if e2 <= dx {
                err = err + dx;
                y = y + sy;
                proof {
                    assert(pb + dx == (b + 2) * dx) by (nonlinear_arith)
                        requires
                            pb == (b + 1) * dx,
                    ;
                    b = b + 1;
                    pb = pb + dx;
                }
            }
            proof {
                let f1 = (fuel - 1) as nat;
                assert(walk(here.0, here.1, x1 as int, y1 as int, old_err as int, dx as int, dy as int, sx as int, sy as int, fuel)
                    == seq![here] + walk(x as int, y as int, x1 as int, y1 as int, err as int, dx as int, dy as int, sx as int, sy as int, f1));
                assert(full == done.push(here) + walk(x as int, y as int, x1 as int, y1 as int, err as int, dx as int, dy as int, sx as int, sy as int, f1));
                done = done.push(here);
                fuel = f1;
            }
        }
    }
}

proof fn lemma_push_contains(s: Seq<(int, int)>, p: (int, int))
    ensures
        forall|q: (int, int)| #[trigger] s.push(p).contains(q) == (s.contains(q) || q == p),
{
    assert forall|q: (int, int)| #[trigger] s.push(p).contains(q) == (s.contains(q) || q == p) by {
        if s.contains(q) {
            let i = choose|i: int| 0 <= i < s.len() && s[i] == q;
            assert(s.push(p)[i] == q);
        }
        if q == p {
            assert(s.push(p)[s.len() as int] == q);
        }
        if s.push(p).contains(q) {
            let i = choose|i: int| 0 <= i < s.push(p).len() && s.push(p)[i] == q;
            if i < s.len() {
                assert(s[i] == q);
            }
        }
    }
}

proof fn lemma_square_le(a: int, r: int)
    requires
        -r <= a <= r,
    ensures
        0 <= a * a <= r * r,
{
    assert(0 <= a * a <= r * r) by (nonlinear_arith)
        requires
            -r <= a <= r,
    ;
}

proof fn lemma_disk_bounds(a: int, b: int, r: int)
    requires
        a * a + b * b <= r * r,
        0 < r,
    ensures
        -r <= b <= r,
{
    assert(a * a >= 0) by (nonlinear_arith);
    if b > r {
        assert(b * b > r * r) by (nonlinear_arith)
            requires
                b > r,
                r > 0,
        ;
    }
    if b < -r {
        assert(b * b > r * r) by (nonlinear_arith)
            requires
                b < -r,
                r > 0,
        ;
    }
}

/// Painting one more pixel after painting a region paints the region grown
/// by that pixel.
proof fn lemma_paint_one_more(
    a: &PixelBuffer,
    b: &PixelBuffer,
    d: &PixelBuffer,
    r1: spec_fn(int, int) -> bool,
    px: int,
    py: int,
    r2: spec_fn(int, int) -> bool,
    col: Rgb,
)
    requires
        b.paints(a, r1, col),
        d.paints(b, |x: int, y: int| x == px && y == py, col),
        forall|x: int, y: int| #[trigger] r2(x, y) == (r1(x, y) || (x == px && y == py)),
    ensures
        d.paints(a, r2, col),
{
    assert forall|x: int, y: int| d.in_bounds(x, y) implies #[trigger] d.at(x, y) == (if r2(x, y) { col } else { a.at(x, y) }) by {
        assert(d.at(x, y) == (if x == px && y == py { col } else { b.at(x, y) }));
        assert(b.at(x, y) == (if r1(x, y) { col } else { a.at(x, y) }));
    }
}

/// A paint is unchanged when its region is replaced by an equal one.
proof fn lemma_paint_same(
    a: &PixelBuffer,
    d: &PixelBuffer,
    r1: spec_fn(int, int) -> bool,
    r2: spec_fn(int, int) -> bool,
    col: Rgb,
)
    requires
        d.paints(a, r1, col),
        forall|x: int, y: int| #[trigger] r2(x, y) == r1(x, y),
    ensures
        d.paints(a, r2, col),
{
    assert forall|x: int, y: int| d.in_bounds(x, y) implies #[trigger] d.at(x, y) == (if r2(x, y) { col } else { a.at(x, y) }) by {
        assert(d.at(x, y) == (if r1(x, y) { col } else { a.at(x, y) }));
    }
}

/// Reading a pixel right after plotting it gives the plotted color; every
/// other pixel reads as before.
pub proof fn lemma_plot_then_read(
    before: PixelBuffer,
    after: PixelBuffer,
    x: int,
    y: int,
    c: Rgb,
    qx: int,
    qy: int,
)
    requires
        after.paints(&before, |px: int, py: int| px == x && py == y, c),
        after.in_bounds(qx, qy),
    ensures
        after.at(qx, qy) == (if qx == x && qy == y { c } else { before.at(qx, qy) }),
{
}

} // verus!
