//! Drawing the map's obstacles into the pixel buffer. Each obstacle is a few
//! layers of primitives; the contracts state the finished picture pixel by
//! pixel, the topmost layer first. Colors that the palette shades with a
//! real-valued factor are computed by the caller and handed in.

use vstd::prelude::*;

use crate::framebuffer::{in_disk, in_rect, line_path, PixelBuffer};
use crate::palette::{spec_add, Rgb};

verus! {

/// Whether `v` is a value of `i32`.
pub open spec fn fits(v: int) -> bool {
    i32::MIN <= v <= i32::MAX
}

/// Whether `(px, py)` is on the Bresenham line from `(x0, y0)` to `(x1, y1)`.
pub open spec fn on_line(px: int, py: int, x0: int, y0: int, x1: int, y1: int) -> bool {
    line_path(x0, y0, x1, y1).contains((px, py))
}

/// `a / 2` as integer division rounds it: toward zero.
pub open spec fn half(a: int) -> int {
    if a >= 0 {
        a / 2
    } else {
        -((-a) / 2)
    }
}

/// The valve's arithmetic stays within `i32`: the plate's edges, the
/// wheel's center and its extent either way, and twice its radius squared.
pub open spec fn valve_fits(x: int, y: int, w: int, h: int) -> bool {
    let cx = x + half(w);
    let cy = y + half(h);
    let m = if w < h { w } else { h };
    let r = if half(m) - 1 > 1 { half(m) - 1 } else { 1 };
    &&& fits(y + h)
    &&& h > 0 ==> fits(x + w)
    &&& fits(cx) && fits(cy)
    &&& r * r <= i32::MAX / 2
    &&& fits(cx - r) && fits(cx + r)
    &&& fits(cy - r) && fits(cy + r)
}

/// The crate's arithmetic stays within `i32`: its right and bottom edges.
pub open spec fn crate_fits(x: int, y: int, w: int, h: int) -> bool {
    &&& fits(x + w) && fits(x + w - 1)
    &&& fits(y + h) && fits(y + h - 1)
}

/// The counter's arithmetic stays within `i32`: its edges and the rows of
/// its highlight, shadow and seam.
pub open spec fn counter_fits(x: int, y: int, w: int, h: int) -> bool {
    &&& fits(x + w)
    &&& fits(y + 1)
    &&& fits(y + h) && fits(y + h - 1)
    &&& fits(y + half(h)) && fits(y + half(h) + 1)
}

/// The table's arithmetic stays within `i32`: its edges, the seam row and
/// the leg nubs three pixels in from each side.
pub open spec fn table_fits(x: int, y: int, w: int, h: int) -> bool {
    &&& fits(x + w) && fits(x + w - 3) && fits(x + 3)
    &&& fits(y + h) && fits(y + h - 3) && fits(y + 3)
    &&& fits(y + half(h))
}

/// The grate bar at column offset `i` has an `i32` column, and the next
/// offset fits too.
pub open spec fn grate_column_fits(x: int, i: int) -> bool {
    fits(x + i) && i + 5 <= i32::MAX
}

/// The grate's arithmetic stays within `i32`: its edges, each bar column
/// and the step past the last bar either way.
pub open spec fn grate_fits(x: int, y: int, w: int, h: int) -> bool {
    &&& fits(y + h)
    &&& h > 0 ==> fits(x + w)
    &&& forall|i: int| 2 <= i < w && (i - 2) % 5 == 0 ==> #[trigger] grate_column_fits(x, i)
    &&& forall|j: int| 2 <= j < h && (j - 2) % 5 == 0 ==> #[trigger] fits(j + 5)
}

/// The console's arithmetic stays within `i32`: its edges, the screen's
/// rectangle, the row of dots and the three buttons along the bottom.
pub open spec fn console_fits(x: int, y: int, w: int, h: int) -> bool {
    &&& fits(x + w) && fits(x + w - 3) && fits(x + 11)
    &&& fits(y + h) && fits(y + h - 4) && fits(y + 3)
    &&& fits(w - 4) && fits(h - 6)
    &&& h - 6 > 0 ==> fits(x + w - 2)
}

/// The barrier's arithmetic stays within `i32`: its edges, the top and
/// bottom rows, and the diagonal offset of its far corner.
pub open spec fn barrier_fits(x: int, y: int, w: int, h: int) -> bool {
    &&& fits(x + w)
    &&& fits(y + 1)
    &&& fits(y + h) && fits(y + h - 1)
    &&& w > 0 && h > 0 ==> w + h - 2 <= i32::MAX
}

/// Painting a region over a repainted buffer: the region takes the new
/// color, every other pixel keeps the earlier layers.
proof fn lemma_over(
    a: &PixelBuffer,
    b: &PixelBuffer,
    c: &PixelBuffer,
    f: spec_fn(int, int, Rgb) -> Rgb,
    r: spec_fn(int, int) -> bool,
    col: Rgb,
    h: spec_fn(int, int, Rgb) -> Rgb,
)
    requires
        b.repaints(a, f),
        c.paints(b, r, col),
        forall|x: int, y: int, o: Rgb| #[trigger] h(x, y, o) == (if r(x, y) { col } else { f(x, y, o) }),
    ensures
        c.repaints(a, h),
{
    assert forall|x: int, y: int| c.in_bounds(x, y) implies #[trigger] c.at(x, y) == h(x, y, a.at(x, y)) by {
        assert(c.at(x, y) == (if r(x, y) { col } else { b.at(x, y) }));
        assert(b.at(x, y) == f(x, y, a.at(x, y)));
    }
}

/// A repaint is unchanged when its function is replaced by an equal one.
proof fn lemma_same(a: &PixelBuffer, c: &PixelBuffer, f: spec_fn(int, int, Rgb) -> Rgb, h: spec_fn(int, int, Rgb) -> Rgb)
    requires
        c.repaints(a, f),
        forall|x: int, y: int, o: Rgb| #[trigger] h(x, y, o) == f(x, y, o),
    ensures
        c.repaints(a, h),
{
    assert forall|x: int, y: int| c.in_bounds(x, y) implies #[trigger] c.at(x, y) == h(x, y, a.at(x, y)) by {
        assert(c.at(x, y) == f(x, y, a.at(x, y)));
    }
}

/// The valve's picture: a red wheel with a dark cross on a grey plate.
pub open spec fn valve_color(x: int, y: int, w: int, h: int, px: int, py: int, o: Rgb) -> Rgb {
    let cx = x + half(w);
    let cy = y + half(h);
    let m = if w < h { w } else { h };
    let r = if half(m) - 1 > 1 { half(m) - 1 } else { 1 };
    if on_line(px, py, cx, cy - r, cx, cy + r) || on_line(px, py, cx - r, cy, cx + r, cy) {
        (40u8, 30u8, 30u8)
    } else if in_disk(px, py, cx, cy, r) {
        (190u8, 70u8, 60u8)
    } else if in_rect(px, py, x, y, w, h) {
        (90u8, 110u8, 106u8)
    } else {
        o
    }
}

/// A valve: grey plate, red wheel of radius `min(w, h) / 2 - 1` (at least
/// 1) at its center, and a dark cross over the wheel.
pub fn valve(pb: &mut PixelBuffer, x: i32, y: i32, w: i32, h: i32)
    requires
        old(pb).wf(),
        valve_fits(x as int, y as int, w as int, h as int),
    ensures
        final(pb).wf(),
        final(pb).repaints(old(pb), |px: int, py: int, o: Rgb| valve_color(x as int, y as int, w as int, h as int, px, py, o)),
{
    let ghost a = *pb;
    pb.rect_fill(x, y, w, h, (90, 110, 106));
    let ghost b1 = *pb;
    let cx = x + w / 2;
    let cy = y + h / 2;
    let m = if w < h { w } else { h };
    let r = if m / 2 - 1 > 1 { m / 2 - 1 } else { 1 };
    pb.filled_circle(cx, cy, r, (190, 70, 60));
    let ghost b2 = *pb;
    pb.line(cx - r, cy, cx + r, cy, (40, 30, 30));
    let ghost b3 = *pb;
    pb.line(cx, cy - r, cx, cy + r, (40, 30, 30));
    proof {
        let xi = x as int;
        let yi = y as int;
        let wi = w as int;
        let hi = h as int;
        let ci = cx as int;
        let di = cy as int;
        let ri = r as int;
        let f1 = |px: int, py: int, o: Rgb| if in_rect(px, py, xi, yi, wi, hi) { (90u8, 110u8, 106u8) } else { o };
        let f2 = |px: int, py: int, o: Rgb| if in_disk(px, py, ci, di, ri) { (190u8, 70u8, 60u8) } else { f1(px, py, o) };
        let f3 = |px: int, py: int, o: Rgb| if on_line(px, py, ci - ri, di, ci + ri, di) { (40u8, 30u8, 30u8) } else { f2(px, py, o) };
        let f4 = |px: int, py: int, o: Rgb| if on_line(px, py, ci, di - ri, ci, di + ri) { (40u8, 30u8, 30u8) } else { f3(px, py, o) };
        lemma_same(&a, &b1, |px: int, py: int, o: Rgb| if in_rect(px, py, xi, yi, wi, hi) { (90u8, 110u8, 106u8) } else { o }, f1);
        lemma_over(&a, &b1, &b2, f1, |px: int, py: int| in_disk(px, py, ci, di, ri), (190u8, 70u8, 60u8), f2);
        lemma_over(&a, &b2, &b3, f2, |px: int, py: int| line_path(ci - ri, di, ci + ri, di).contains((px, py)), (40u8, 30u8, 30u8), f3);
        lemma_over(&a, &b3, pb, f3, |px: int, py: int| line_path(ci, di - ri, ci, di + ri).contains((px, py)), (40u8, 30u8, 30u8), f4);
        lemma_same(&a, pb, f4, |px: int, py: int, o: Rgb| valve_color(xi, yi, wi, hi, px, py, o));
    }
}

/// Repainting over a repainted buffer composes the two repaints.
proof fn lemma_then(
    a: &PixelBuffer,
    b: &PixelBuffer,
    c: &PixelBuffer,
    f: spec_fn(int, int, Rgb) -> Rgb,
    g: spec_fn(int, int, Rgb) -> Rgb,
    h: spec_fn(int, int, Rgb) -> Rgb,
)
    requires
        b.repaints(a, f),
        c.repaints(b, g),
        forall|x: int, y: int, o: Rgb| #[trigger] h(x, y, o) == g(x, y, f(x, y, o)),
    ensures
        c.repaints(a, h),
{
    assert forall|x: int, y: int| c.in_bounds(x, y) implies #[trigger] c.at(x, y) == h(x, y, a.at(x, y)) by {
        assert(c.at(x, y) == g(x, y, b.at(x, y)));
        assert(b.at(x, y) == f(x, y, a.at(x, y)));
    }
}

/// The crate's picture: planks with a border and two diagonal braces, the
/// top edge highlighted.
pub open spec fn crate_color(x: int, y: int, w: int, h: int, px: int, py: int, o: Rgb) -> Rgb {
    let r = x + w - 1;
    let b = y + h - 1;
    if on_line(px, py, x, y, r, y) {
        (186u8, 146u8, 92u8)
    } else if on_line(px, py, x, b, r, b) || on_line(px, py, x, y, x, b) || on_line(px, py, r, y, r, b)
        || on_line(px, py, x, y, r, b) || on_line(px, py, r, y, x, b) {
        (96u8, 68u8, 38u8)
    } else if in_rect(px, py, x, y, w, h) {
        (152u8, 112u8, 66u8)
    } else {
        o
    }
}

/// A wooden crate: planks, a dark border, two diagonal braces and a light
/// top edge.
pub fn crate_box(pb: &mut PixelBuffer, x: i32, y: i32, w: i32, h: i32)
    requires
        old(pb).wf(),
        crate_fits(x as int, y as int, w as int, h as int),
    ensures
        final(pb).wf(),
        final(pb).repaints(old(pb), |px: int, py: int, o: Rgb| crate_color(x as int, y as int, w as int, h as int, px, py, o)),
{
    let ghost a = *pb;
    let wood = (152u8, 112u8, 66u8);
    let edge = (96u8, 68u8, 38u8);
    let r = x + w - 1;
    let b = y + h - 1;
    pb.rect_fill(x, y, w, h, wood);
    let ghost b1 = *pb;
    pb.line(x, y, r, y, edge);
    let ghost b2 = *pb;
    pb.line(x, b, r, b, edge);
    let ghost b3 = *pb;
    pb.line(x, y, x, b, edge);
    let ghost b4 = *pb;
    pb.line(r, y, r, b, edge);
    let ghost b5 = *pb;
    pb.line(x, y, r, b, edge);
    let ghost b6 = *pb;
    pb.line(r, y, x, b, edge);
    let ghost b7 = *pb;
    pb.line(x, y, r, y, (186, 146, 92));
    proof {
        let (xi, yi, wi, hi, ri, bi) = (x as int, y as int, w as int, h as int, r as int, b as int);
        let f1 = |px: int, py: int, o: Rgb| if in_rect(px, py, xi, yi, wi, hi) { wood } else { o };
        let f2 = |px: int, py: int, o: Rgb| if on_line(px, py, xi, yi, ri, yi) { edge } else { f1(px, py, o) };
        let f3 = |px: int, py: int, o: Rgb| if on_line(px, py, xi, bi, ri, bi) { edge } else { f2(px, py, o) };
        let f4 = |px: int, py: int, o: Rgb| if on_line(px, py, xi, yi, xi, bi) { edge } else { f3(px, py, o) };
        let f5 = |px: int, py: int, o: Rgb| if on_line(px, py, ri, yi, ri, bi) { edge } else { f4(px, py, o) };
        let f6 = |px: int, py: int, o: Rgb| if on_line(px, py, xi, yi, ri, bi) { edge } else { f5(px, py, o) };
        let f7 = |px: int, py: int, o: Rgb| if on_line(px, py, ri, yi, xi, bi) { edge } else { f6(px, py, o) };
        let f8 = |px: int, py: int, o: Rgb| if on_line(px, py, xi, yi, ri, yi) { (186u8, 146u8, 92u8) } else { f7(px, py, o) };
        lemma_same(&a, &b1, |px: int, py: int, o: Rgb| if in_rect(px, py, xi, yi, wi, hi) { wood } else { o }, f1);
        lemma_over(&a, &b1, &b2, f1, |px: int, py: int| line_path(xi, yi, ri, yi).contains((px, py)), edge, f2);
        lemma_over(&a, &b2, &b3, f2, |px: int, py: int| line_path(xi, bi, ri, bi).contains((px, py)), edge, f3);
        lemma_over(&a, &b3, &b4, f3, |px: int, py: int| line_path(xi, yi, xi, bi).contains((px, py)), edge, f4);
        lemma_over(&a, &b4, &b5, f4, |px: int, py: int| line_path(ri, yi, ri, bi).contains((px, py)), edge, f5);
        lemma_over(&a, &b5, &b6, f5, |px: int, py: int| line_path(xi, yi, ri, bi).contains((px, py)), edge, f6);
        lemma_over(&a, &b6, &b7, f6, |px: int, py: int| line_path(ri, yi, xi, bi).contains((px, py)), edge, f7);
        lemma_over(&a, &b7, pb, f7, |px: int, py: int| line_path(xi, yi, ri, yi).contains((px, py)), (186u8, 146u8, 92u8), f8);
        lemma_same(&a, pb, f8, |px: int, py: int, o: Rgb| crate_color(xi, yi, wi, hi, px, py, o));
    }
}

/// The counter's picture: a steel slab with a light top row, a dark bottom
/// row and a seam across the middle row.
pub open spec fn counter_color(x: int, y: int, w: int, h: int, px: int, py: int, o: Rgb) -> Rgb {
    if in_rect(px, py, x, y + half(h), w, 1) {
        (118u8, 122u8, 132u8)
    } else if in_rect(px, py, x, y + h - 1, w, 1) {
        (92u8, 96u8, 108u8)
    } else if in_rect(px, py, x, y, w, 1) {
        (205u8, 210u8, 220u8)
    } else if in_rect(px, py, x, y, w, h) {
        (150u8, 152u8, 160u8)
    } else {
        o
    }
}

/// A kitchen counter: steel slab, top highlight, base shadow, middle seam.
pub fn counter(pb: &mut PixelBuffer, x: i32, y: i32, w: i32, h: i32)
    requires
        old(pb).wf(),
        counter_fits(x as int, y as int, w as int, h as int),
    ensures
        final(pb).wf(),
        final(pb).repaints(old(pb), |px: int, py: int, o: Rgb| counter_color(x as int, y as int, w as int, h as int, px, py, o)),
{
    let ghost a = *pb;
    pb.rect_fill(x, y, w, h, (150, 152, 160));
    let ghost b1 = *pb;
    pb.rect_fill(x, y, w, 1, (205, 210, 220));
    let ghost b2 = *pb;
    pb.rect_fill(x, y + h - 1, w, 1, (92, 96, 108));
    let ghost b3 = *pb;
    pb.rect_fill(x, y + h / 2, w, 1, (118, 122, 132));
    proof {
        let (xi, yi, wi, hi) = (x as int, y as int, w as int, h as int);
        let f1 = |px: int, py: int, o: Rgb| if in_rect(px, py, xi, yi, wi, hi) { (150u8, 152u8, 160u8) } else { o };
        let f2 = |px: int, py: int, o: Rgb| if in_rect(px, py, xi, yi, wi, 1) { (205u8, 210u8, 220u8) } else { f1(px, py, o) };
        let f3 = |px: int, py: int, o: Rgb| if in_rect(px, py, xi, yi + hi - 1, wi, 1) { (92u8, 96u8, 108u8) } else { f2(px, py, o) };
        let f4 = |px: int, py: int, o: Rgb| if in_rect(px, py, xi, yi + half(hi), wi, 1) { (118u8, 122u8, 132u8) } else { f3(px, py, o) };
        lemma_same(&a, &b1, |px: int, py: int, o: Rgb| if in_rect(px, py, xi, yi, wi, hi) { (150u8, 152u8, 160u8) } else { o }, f1);
        lemma_over(&a, &b1, &b2, f1, |px: int, py: int| in_rect(px, py, xi, yi, wi, 1), (205u8, 210u8, 220u8), f2);
        lemma_over(&a, &b2, &b3, f2, |px: int, py: int| in_rect(px, py, xi, yi + hi - 1, wi, 1), (92u8, 96u8, 108u8), f3);
        lemma_over(&a, &b3, pb, f3, |px: int, py: int| in_rect(px, py, xi, yi + half(hi), wi, 1), (118u8, 122u8, 132u8), f4);
        lemma_same(&a, pb, f4, |px: int, py: int, o: Rgb| counter_color(xi, yi, wi, hi, px, py, o));
    }
}

/// Whether `(px, py)` is on one of the table's four 2 by 2 leg nubs.
pub open spec fn on_leg(x: int, y: int, w: int, h: int, px: int, py: int) -> bool {
    ||| in_rect(px, py, x + 1, y + 1, 2, 2)
    ||| in_rect(px, py, x + w - 3, y + 1, 2, 2)
    ||| in_rect(px, py, x + 1, y + h - 3, 2, 2)
    ||| in_rect(px, py, x + w - 3, y + h - 3, 2, 2)
}

/// The table's picture: a wooden top with a dark rim, a plank seam across
/// the middle and four leg nubs near the corners.
pub open spec fn table_color(x: int, y: int, w: int, h: int, seam: Rgb, px: int, py: int, o: Rgb) -> Rgb {
    let r = x + w - 1;
    let b = y + h - 1;
    if on_leg(x, y, w, h, px, py) {
        (78u8, 54u8, 32u8)
    } else if on_line(px, py, x + 1, y + half(h), x + w - 2, y + half(h)) {
        seam
    } else if on_line(px, py, x, y, r, y) || on_line(px, py, x, b, r, b) || on_line(px, py, x, y, x, b) || on_line(
        px,
        py,
        r,
        y,
        r,
        b,
    ) {
        (108u8, 76u8, 44u8)
    } else if in_rect(px, py, x, y, w, h) {
        (162u8, 120u8, 74u8)
    } else {
        o
    }
}

/// A kitchen table seen from above: wooden top, rim, plank seam in color
/// `seam`, and four leg nubs.
pub fn table(pb: &mut PixelBuffer, x: i32, y: i32, w: i32, h: i32, seam: Rgb)
    requires
        old(pb).wf(),
        table_fits(x as int, y as int, w as int, h as int),
    ensures
        final(pb).wf(),
        final(pb).repaints(old(pb), |px: int, py: int, o: Rgb| table_color(x as int, y as int, w as int, h as int, seam, px, py, o)),
{
    let ghost a = *pb;
    let top = (162u8, 120u8, 74u8);
    let rim = (108u8, 76u8, 44u8);
    let leg = (78u8, 54u8, 32u8);
    let r = x + w - 1;
    let b = y + h - 1;
    pb.rect_fill(x, y, w, h, top);
    let ghost b1 = *pb;
    pb.line(x, y, r, y, rim);
    let ghost b2 = *pb;
    pb.line(x, b, r, b, rim);
    let ghost b3 = *pb;
    pb.line(x, y, x, b, rim);
    let ghost b4 = *pb;
    pb.line(r, y, r, b, rim);
    let ghost b5 = *pb;
    pb.line(x + 1, y + h / 2, x + w - 2, y + h / 2, seam);
    let ghost b6 = *pb;
    pb.rect_fill(x + 1, y + 1, 2, 2, leg);
    let ghost b7 = *pb;
    pb.rect_fill(x + w - 3, y + 1, 2, 2, leg);
    let ghost b8 = *pb;
    pb.rect_fill(x + 1, y + h - 3, 2, 2, leg);
    let ghost b9 = *pb;
    pb.rect_fill(x + w - 3, y + h - 3, 2, 2, leg);
    proof {
        let (xi, yi, wi, hi, ri, bi) = (x as int, y as int, w as int, h as int, r as int, b as int);
        let f1 = |px: int, py: int, o: Rgb| if in_rect(px, py, xi, yi, wi, hi) { top } else { o };
        let f2 = |px: int, py: int, o: Rgb| if on_line(px, py, xi, yi, ri, yi) { rim } else { f1(px, py, o) };
        let f3 = |px: int, py: int, o: Rgb| if on_line(px, py, xi, bi, ri, bi) { rim } else { f2(px, py, o) };
        let f4 = |px: int, py: int, o: Rgb| if on_line(px, py, xi, yi, xi, bi) { rim } else { f3(px, py, o) };
        let f5 = |px: int, py: int, o: Rgb| if on_line(px, py, ri, yi, ri, bi) { rim } else { f4(px, py, o) };
        let f6 = |px: int, py: int, o: Rgb| if on_line(px, py, xi + 1, yi + half(hi), xi + wi - 2, yi + half(hi)) { seam } else { f5(px, py, o) };
        let f7 = |px: int, py: int, o: Rgb| if in_rect(px, py, xi + 1, yi + 1, 2, 2) { leg } else { f6(px, py, o) };
        let f8 = |px: int, py: int, o: Rgb| if in_rect(px, py, xi + wi - 3, yi + 1, 2, 2) { leg } else { f7(px, py, o) };
        let f9 = |px: int, py: int, o: Rgb| if in_rect(px, py, xi + 1, yi + hi - 3, 2, 2) { leg } else { f8(px, py, o) };
        let f10 = |px: int, py: int, o: Rgb| if in_rect(px, py, xi + wi - 3, yi + hi - 3, 2, 2) { leg } else { f9(px, py, o) };
        lemma_same(&a, &b1, |px: int, py: int, o: Rgb| if in_rect(px, py, xi, yi, wi, hi) { top } else { o }, f1);
        lemma_over(&a, &b1, &b2, f1, |px: int, py: int| line_path(xi, yi, ri, yi).contains((px, py)), rim, f2);
        lemma_over(&a, &b2, &b3, f2, |px: int, py: int| line_path(xi, bi, ri, bi).contains((px, py)), rim, f3);
        lemma_over(&a, &b3, &b4, f3, |px: int, py: int| line_path(xi, yi, xi, bi).contains((px, py)), rim, f4);
        lemma_over(&a, &b4, &b5, f4, |px: int, py: int| line_path(ri, yi, ri, bi).contains((px, py)), rim, f5);
        lemma_over(
            &a,
            &b5,
            &b6,
            f5,
            |px: int, py: int| line_path(xi + 1, yi + half(hi), xi + wi - 2, yi + half(hi)).contains((px, py)),
            seam,
            f6,
        );
        lemma_over(&a, &b6, &b7, f6, |px: int, py: int| in_rect(px, py, xi + 1, yi + 1, 2, 2), leg, f7);
        lemma_over(&a, &b7, &b8, f7, |px: int, py: int| in_rect(px, py, xi + wi - 3, yi + 1, 2, 2), leg, f8);
        lemma_over(&a, &b8, &b9, f8, |px: int, py: int| in_rect(px, py, xi + 1, yi + hi - 3, 2, 2), leg, f9);
        lemma_over(&a, &b9, pb, f9, |px: int, py: int| in_rect(px, py, xi + wi - 3, yi + hi - 3, 2, 2), leg, f10);
        lemma_same(&a, pb, f10, |px: int, py: int, o: Rgb| table_color(xi, yi, wi, hi, seam, px, py, o));
    }
}

/// Whether `(px, py)` is on a bar of the grate: every fifth column from the
/// third, before column offset `iv`, and every fifth row from the third,
/// before row offset `jv`.
pub open spec fn grate_bar(x: int, y: int, w: int, h: int, iv: int, jv: int, px: int, py: int) -> bool {
    &&& in_rect(px, py, x, y, w, h)
    &&& {
        ||| px - x >= 2 && (px - x - 2) % 5 == 0 && px - x < iv
        ||| py - y >= 2 && (py - y - 2) % 5 == 0 && py - y < jv
    }
}

/// The grate drawn up to column offset `iv` and row offset `jv`.
pub open spec fn grate_stage(x: int, y: int, w: int, h: int, line: Rgb, iv: int, jv: int, px: int, py: int, o: Rgb) -> Rgb {
    if grate_bar(x, y, w, h, iv, jv, px, py) {
        line
    } else if in_rect(px, py, x, y, w, h) {
        (28u8, 36u8, 34u8)
    } else {
        o
    }
}

/// The grate's picture: a dark plate crossed by bars in color `line` on
/// every fifth column and row, starting at the third.
pub open spec fn grate_color(x: int, y: int, w: int, h: int, line: Rgb, px: int, py: int, o: Rgb) -> Rgb {
    grate_stage(x, y, w, h, line, w, h, px, py, o)
}

/// A sewer grate: dark plate, bars in color `line` every five pixels both
/// ways.
pub fn grate(pb: &mut PixelBuffer, x: i32, y: i32, w: i32, h: i32, line: Rgb)
    requires
        old(pb).wf(),
        grate_fits(x as int, y as int, w as int, h as int),
    ensures
        final(pb).wf(),
        final(pb).repaints(old(pb), |px: int, py: int, o: Rgb| grate_color(x as int, y as int, w as int, h as int, line, px, py, o)),
{
    let ghost a = *pb;
    let ghost (xi, yi, wi, hi) = (x as int, y as int, w as int, h as int);
    pb.rect_fill(x, y, w, h, (28, 36, 34));
    proof {
        lemma_same(
            &a,
            pb,
            |px: int, py: int, o: Rgb| if in_rect(px, py, xi, yi, wi, hi) { (28u8, 36u8, 34u8) } else { o },
            |px: int, py: int, o: Rgb| grate_stage(xi, yi, wi, hi, line, 2, 2, px, py, o),
        );
    }
    let mut i: i32 = 2;
    while i < w
        invariant
            grate_fits(x as int, y as int, w as int, h as int),
            xi == x && yi == y && wi == w && hi == h,
            2 <= i,
            i <= w + 5 || i == 2,
            (i - 2) % 5 == 0,
            pb.wf(),
            pb.repaints(&a, |px: int, py: int, o: Rgb| grate_stage(xi, yi, wi, hi, line, i as int, 2, px, py, o)),
        decreases w + 5 - i,
    {
        let ghost before = *pb;
        proof {
            assert(grate_column_fits(x as int, i as int));
        }
        pb.rect_fill(x + i, y, 1, h, line);
        proof {
            let iv = i as int;
            lemma_over(
                &a,
                &before,
                pb,
                |px: int, py: int, o: Rgb| grate_stage(xi, yi, wi, hi, line, iv, 2, px, py, o),
                |px: int, py: int| in_rect(px, py, xi + iv, yi, 1, hi),
                line,
                |px: int, py: int, o: Rgb| grate_stage(xi, yi, wi, hi, line, iv + 5, 2, px, py, o),
            );
        }
        i = i + 5;
    }
    let mut j: i32 = 2;
    while j < h
        invariant
            grate_fits(x as int, y as int, w as int, h as int),
            xi == x && yi == y && wi == w && hi == h,
            i >= w,
            2 <= j,
            j <= h + 5 || j == 2,
            (j - 2) % 5 == 0,
            pb.wf(),
            pb.repaints(&a, |px: int, py: int, o: Rgb| grate_stage(xi, yi, wi, hi, line, i as int, j as int, px, py, o)),
        decreases h + 5 - j,
    {
        let ghost before = *pb;
        pb.rect_fill(x, y + j, w, 1, line);
        proof {
            let jv = j as int;
            lemma_over(
                &a,
                &before,
                pb,
                |px: int, py: int, o: Rgb| grate_stage(xi, yi, wi, hi, line, i as int, jv, px, py, o),
                |px: int, py: int| in_rect(px, py, xi, yi + jv, wi, 1),
                line,
                |px: int, py: int, o: Rgb| grate_stage(xi, yi, wi, hi, line, i as int, jv + 5, px, py, o),
            );
        }
        j = j + 5;
    }
    proof {
        lemma_same(
            &a,
            pb,
            |px: int, py: int, o: Rgb| grate_stage(xi, yi, wi, hi, line, i as int, j as int, px, py, o),
            |px: int, py: int, o: Rgb| grate_color(xi, yi, wi, hi, line, px, py, o),
        );
    }
}

/// Whether `(px, py)` is one of the console's screen dots before column
/// `gv`: every third pixel of the fourth row, from the fourth column to
/// three short of the right edge.
pub open spec fn console_dot(x: int, y: int, w: int, gv: int, px: int, py: int) -> bool {
    py == y + 3 && x + 3 <= px < x + w - 3 && (px - x - 3) % 3 == 0 && px < gv
}

/// The console's casing and screen, with the dots before column `gv` added.
pub open spec fn console_stage(x: int, y: int, w: int, h: int, screen: Rgb, dots: Rgb, gv: int, px: int, py: int, o: Rgb) -> Rgb {
    let base = if in_rect(px, py, x + 2, y + 2, w - 4, h - 6) {
        screen
    } else if in_rect(px, py, x, y, w, h) {
        (48u8, 54u8, 70u8)
    } else {
        o
    };
    if console_dot(x, y, w, gv, px, py) {
        spec_add(base, dots)
    } else {
        base
    }
}

/// The console's picture: casing, a screen in color `screen` with a row of
/// dots brightened by `dots`, and three round buttons along the bottom.
pub open spec fn console_color(x: int, y: int, w: int, h: int, screen: Rgb, dots: Rgb, px: int, py: int, o: Rgb) -> Rgb {
    if in_disk(px, py, x + 10, y + h - 2, 1) {
        (110u8, 220u8, 130u8)
    } else if in_disk(px, py, x + 6, y + h - 2, 1) {
        (220u8, 200u8, 90u8)
    } else if in_disk(px, py, x + 2, y + h - 2, 1) {
        (220u8, 90u8, 80u8)
    } else {
        console_stage(x, y, w, h, screen, dots, x + w - 3, px, py, o)
    }
}

/// A lab console: casing, screen in color `screen`, a row of dots added in
/// color `dots`, and red, yellow and green buttons.
pub fn console(pb: &mut PixelBuffer, x: i32, y: i32, w: i32, h: i32, screen: Rgb, dots: Rgb)
    requires
        old(pb).wf(),
        console_fits(x as int, y as int, w as int, h as int),
    ensures
        final(pb).wf(),
        final(pb).repaints(
            old(pb),
            |px: int, py: int, o: Rgb| console_color(x as int, y as int, w as int, h as int, screen, dots, px, py, o),
        ),
{
    let ghost a = *pb;
    let ghost (xi, yi, wi, hi) = (x as int, y as int, w as int, h as int);
    pb.rect_fill(x, y, w, h, (48, 54, 70));
    let ghost b1 = *pb;
    pb.rect_fill(x + 2, y + 2, w - 4, h - 6, screen);
    proof {
        let f1 = |px: int, py: int, o: Rgb| if in_rect(px, py, xi, yi, wi, hi) { (48u8, 54u8, 70u8) } else { o };
        lemma_same(&a, &b1, |px: int, py: int, o: Rgb| if in_rect(px, py, xi, yi, wi, hi) { (48u8, 54u8, 70u8) } else { o }, f1);
        lemma_over(
            &a,
            &b1,
            pb,
            f1,
            |px: int, py: int| in_rect(px, py, xi + 2, yi + 2, wi - 4, hi - 6),
            screen,
            |px: int, py: int, o: Rgb| console_stage(xi, yi, wi, hi, screen, dots, xi + 3, px, py, o),
        );
    }
    let end = x + w - 3;
    let mut gx = x + 3;
    while gx < end
        invariant
            console_fits(x as int, y as int, w as int, h as int),
            xi == x && yi == y && wi == w && hi == h,
            end == x + w - 3,
            x + 3 <= gx <= (if end > x + 3 { end + 3 } else { x + 3 }),
            (gx - x - 3) % 3 == 0,
            pb.wf(),
            pb.repaints(&a, |px: int, py: int, o: Rgb| console_stage(xi, yi, wi, hi, screen, dots, gx as int, px, py, o)),
        decreases end + 3 - gx,
    {
        let ghost before = *pb;
        pb.plot_add(gx, y + 3, dots);
        proof {
            let g = gx as int;
            lemma_then(
                &a,
                &before,
                pb,
                |px: int, py: int, o: Rgb| console_stage(xi, yi, wi, hi, screen, dots, g, px, py, o),
                |px: int, py: int, o: Rgb| if px == g && py == yi + 3 { spec_add(o, dots) } else { o },
                |px: int, py: int, o: Rgb| console_stage(xi, yi, wi, hi, screen, dots, g + 3, px, py, o),
            );
        }
        gx = gx + 3;
    }
    let ghost b2 = *pb;
    proof {
        lemma_same(
            &a,
            &b2,
            |px: int, py: int, o: Rgb| console_stage(xi, yi, wi, hi, screen, dots, gx as int, px, py, o),
            |px: int, py: int, o: Rgb| console_stage(xi, yi, wi, hi, screen, dots, xi + wi - 3, px, py, o),
        );
    }
    pb.filled_circle(x + 2, y + h - 2, 1, (220, 90, 80));
    let ghost b3 = *pb;
    pb.filled_circle(x + 6, y + h - 2, 1, (220, 200, 90));
    let ghost b4 = *pb;
    pb.filled_circle(x + 10, y + h - 2, 1, (110, 220, 130));
    proof {
        let f2 = |px: int, py: int, o: Rgb| console_stage(xi, yi, wi, hi, screen, dots, xi + wi - 3, px, py, o);
        let f3 = |px: int, py: int, o: Rgb| if in_disk(px, py, xi + 2, yi + hi - 2, 1) { (220u8, 90u8, 80u8) } else { f2(px, py, o) };
        let f4 = |px: int, py: int, o: Rgb| if in_disk(px, py, xi + 6, yi + hi - 2, 1) { (220u8, 200u8, 90u8) } else { f3(px, py, o) };
        let f5 = |px: int, py: int, o: Rgb| if in_disk(px, py, xi + 10, yi + hi - 2, 1) { (110u8, 220u8, 130u8) } else { f4(px, py, o) };
        lemma_over(&a, &b2, &b3, f2, |px: int, py: int| in_disk(px, py, xi + 2, yi + hi - 2, 1), (220u8, 90u8, 80u8), f3);
        lemma_over(&a, &b3, &b4, f3, |px: int, py: int| in_disk(px, py, xi + 6, yi + hi - 2, 1), (220u8, 200u8, 90u8), f4);
        lemma_over(&a, &b4, pb, f4, |px: int, py: int| in_disk(px, py, xi + 10, yi + hi - 2, 1), (110u8, 220u8, 130u8), f5);
        lemma_same(&a, pb, f5, |px: int, py: int, o: Rgb| console_color(xi, yi, wi, hi, screen, dots, px, py, o));
    }
}

/// The hazard stripe color at diagonal offset `s`: yellow for four pixels
/// in every ten, slate blue otherwise.
pub open spec fn stripe(s: int) -> Rgb {
    if s % 10 < 4 {
        (220u8, 200u8, 80u8)
    } else {
        (66u8, 76u8, 116u8)
    }
}

/// The barrier striped over its first `row` rows and the first `col`
/// pixels of the next row.
pub open spec fn barrier_stage(x: int, y: int, w: int, row: int, col: int, px: int, py: int, o: Rgb) -> Rgb {
    if in_rect(px, py, x, y, w, row) || (py == y + row && x <= px < x + col) {
        stripe((px - x) + (py - y))
    } else {
        o
    }
}

/// The barrier's picture: diagonal hazard stripes over the footprint, a
/// top row in `hi` and a bottom row in `lo`.
pub open spec fn barrier_color(x: int, y: int, w: int, h: int, hi: Rgb, lo: Rgb, px: int, py: int, o: Rgb) -> Rgb {
    if in_rect(px, py, x, y + h - 1, w, 1) {
        lo
    } else if in_rect(px, py, x, y, w, 1) {
        hi
    } else {
        barrier_stage(x, y, w, h, 0, px, py, o)
    }
}

/// A hazard barrier: diagonal yellow and slate stripes, a highlight row
/// `hi` on top and a shadow row `lo` at the bottom.
pub fn barrier(pb: &mut PixelBuffer, x: i32, y: i32, w: i32, h: i32, hi: Rgb, lo: Rgb)
    requires
        old(pb).wf(),
        barrier_fits(x as int, y as int, w as int, h as int),
    ensures
        final(pb).wf(),
        final(pb).repaints(old(pb), |px: int, py: int, o: Rgb| barrier_color(x as int, y as int, w as int, h as int, hi, lo, px, py, o)),
{
    let ghost a = *pb;
    let ghost (xi, yi, wi, hgt) = (x as int, y as int, w as int, h as int);
    proof {
        assert(pb.repaints(&a, |px: int, py: int, o: Rgb| barrier_stage(xi, yi, wi, 0, 0, px, py, o)));
    }
    let mut py: i32 = 0;
    while py < h
        invariant
            barrier_fits(x as int, y as int, w as int, h as int),
            xi == x && yi == y && wi == w && hgt == h,
            0 <= py,
            py <= h || py == 0,
            pb.wf(),
            pb.repaints(&a, |qx: int, qy: int, o: Rgb| barrier_stage(xi, yi, wi, py as int, 0, qx, qy, o)),
        decreases h - py,
    {
        let mut px: i32 = 0;
        while px < w
            invariant
                barrier_fits(x as int, y as int, w as int, h as int),
                xi == x && yi == y && wi == w && hgt == h,
                0 <= py < h,
                0 <= px,
                px <= w || px == 0,
                pb.wf(),
                pb.repaints(&a, |qx: int, qy: int, o: Rgb| barrier_stage(xi, yi, wi, py as int, px as int, qx, qy, o)),
            decreases w - px,
        {
            let diag = (px + py) as u32;
            let c: Rgb = if diag % 10 < 4 { (220, 200, 80) } else { (66, 76, 116) };
            let ghost before = *pb;
            pb.plot(x + px, y + py, c);
            proof {
                let (cx, cy) = ((x + px) as int, (y + py) as int);
                assert(c == stripe((px + py) as int));
                assert forall|qx: int, qy: int, o: Rgb| #[trigger] barrier_stage(xi, yi, wi, py as int, px + 1, qx, qy, o) == (
                if qx == cx && qy == cy { c } else { barrier_stage(xi, yi, wi, py as int, px as int, qx, qy, o) }) by {
                    if qx == cx && qy == cy {
                        assert((qx - xi) + (qy - yi) == px + py);
                    }
                }
                lemma_over(
                    &a,
                    &before,
                    pb,
                    |qx: int, qy: int, o: Rgb| barrier_stage(xi, yi, wi, py as int, px as int, qx, qy, o),
                    |qx: int, qy: int| qx == cx && qy == cy,
                    c,
                    |qx: int, qy: int, o: Rgb| barrier_stage(xi, yi, wi, py as int, px + 1, qx, qy, o),
                );
            }
            px = px + 1;
        }
        proof {
            lemma_same(
                &a,
                pb,
                |qx: int, qy: int, o: Rgb| barrier_stage(xi, yi, wi, py as int, px as int, qx, qy, o),
                |qx: int, qy: int, o: Rgb| barrier_stage(xi, yi, wi, py + 1, 0, qx, qy, o),
            );
        }
        py = py + 1;
    }
    let ghost b1 = *pb;
    pb.rect_fill(x, y, w, 1, hi);
    let ghost b2 = *pb;
    pb.rect_fill(x, y + h - 1, w, 1, lo);
    proof {
        let f1 = |qx: int, qy: int, o: Rgb| barrier_stage(xi, yi, wi, hgt, 0, qx, qy, o);
        let f2 = |qx: int, qy: int, o: Rgb| if in_rect(qx, qy, xi, yi, wi, 1) { hi } else { f1(qx, qy, o) };
        let f3 = |qx: int, qy: int, o: Rgb| if in_rect(qx, qy, xi, yi + hgt - 1, wi, 1) { lo } else { f2(qx, qy, o) };
        lemma_same(&a, &b1, |qx: int, qy: int, o: Rgb| barrier_stage(xi, yi, wi, py as int, 0, qx, qy, o), f1);
        lemma_over(&a, &b1, &b2, f1, |qx: int, qy: int| in_rect(qx, qy, xi, yi, wi, 1), hi, f2);
        lemma_over(&a, &b2, pb, f2, |qx: int, qy: int| in_rect(qx, qy, xi, yi + hgt - 1, wi, 1), lo, f3);
        lemma_same(&a, pb, f3, |qx: int, qy: int, o: Rgb| barrier_color(xi, yi, wi, hgt, hi, lo, qx, qy, o));
    }
}

} // verus!
