//! Maps: themes, palettes, the obstacle kinds and the obstacle layout.

use vstd::prelude::*;

use crate::nav::{wall_covers, NavGrid};
use crate::palette::Rgb;

verus! {

/// The three maps.
#[derive(Clone, Copy, Debug, PartialEq, Eq, Structural)]
pub enum Theme {
    Sewer,
    Kitchen,
    Lab,
}

/// Every theme, in menu order.
pub open spec fn all_themes() -> Seq<Theme> {
    seq![Theme::Sewer, Theme::Kitchen, Theme::Lab]
}

impl Theme {
    pub open spec fn spec_name(self) -> Seq<char> {
        match self {
            Theme::Sewer => "Sewer"@,
            Theme::Kitchen => "Kitchen"@,
            Theme::Lab => "Lab"@,
        }
    }

    /// Every theme, each once.
    pub fn all() -> (r: [Theme; 3])
        ensures
            r@ == all_themes(),
    {
        [Theme::Sewer, Theme::Kitchen, Theme::Lab]
    }

    pub fn name(self) -> (r: &'static str)
        ensures
            r@ == self.spec_name(),
    {
        match self {
            Theme::Sewer => "Sewer",
            Theme::Kitchen => "Kitchen",
            Theme::Lab => "Lab",
        }
    }
}

/// An axis-aligned rectangle in whole world pixels: top-left `(x, y)`,
/// width `w`, height `h`.
#[derive(Clone, Copy, Debug, PartialEq, Eq, Structural)]
pub struct Rect {
    pub x: i32,
    pub y: i32,
    pub w: i32,
    pub h: i32,
}

impl Rect {
    pub fn new(x: i32, y: i32, w: i32, h: i32) -> (r: Rect)
        ensures
            r == (Rect { x, y, w, h }),
    {
        Rect { x, y, w, h }
    }

    /// Right edge, `x + w`.
    pub fn right(&self) -> (r: i32)
        requires
            i32::MIN <= self.x + self.w <= i32::MAX,
        ensures
            r == self.x + self.w,
    {
        self.x + self.w
    }

    /// Bottom edge, `y + h`.
    pub fn bottom(&self) -> (r: i32)
        requires
            i32::MIN <= self.y + self.h <= i32::MAX,
        ensures
            r == self.y + self.h,
    {
        self.y + self.h
    }
}

/// The colors of a map.
#[derive(Clone, Copy, Debug, PartialEq, Eq)]
pub struct Palette {
    pub bg: Rgb,
    pub bg_alt: Rgb,
    pub wall: Rgb,
    pub wall_edge: Rgb,
    pub accent: Rgb,
    pub blood: Rgb,
}

impl Palette {
    pub open spec fn spec_for_theme(theme: Theme) -> Palette {
        match theme {
            Theme::Sewer => Palette {
                bg: (14u8, 22u8, 20u8),
                bg_alt: (18u8, 28u8, 26u8),
                wall: (40u8, 70u8, 64u8),
                wall_edge: (70u8, 120u8, 110u8),
                accent: (90u8, 220u8, 200u8),
                blood: (120u8, 200u8, 90u8),
            },
            Theme::Kitchen => Palette {
                bg: (26u8, 20u8, 16u8),
                bg_alt: (34u8, 26u8, 20u8),
                wall: (110u8, 80u8, 50u8),
                wall_edge: (170u8, 130u8, 80u8),
                accent: (255u8, 180u8, 90u8),
                blood: (200u8, 60u8, 50u8),
            },
            Theme::Lab => Palette {
                bg: (12u8, 14u8, 24u8),
                bg_alt: (16u8, 20u8, 34u8),
                wall: (40u8, 50u8, 90u8),
                wall_edge: (90u8, 120u8, 220u8),
                accent: (120u8, 220u8, 255u8),
                blood: (90u8, 200u8, 255u8),
            },
        }
    }

    /// The palette of a theme.
    pub fn for_theme(theme: Theme) -> (p: Palette)
        ensures
            p == Palette::spec_for_theme(theme),
    {
        match theme {
            Theme::Sewer => Palette {
                bg: (14, 22, 20),
                bg_alt: (18, 28, 26),
                wall: (40, 70, 64),
                wall_edge: (70, 120, 110),
                accent: (90, 220, 200),
                blood: (120, 200, 90),
            },
            Theme::Kitchen => Palette {
                bg: (26, 20, 16),
                bg_alt: (34, 26, 20),
                wall: (110, 80, 50),
                wall_edge: (170, 130, 80),
                accent: (255, 180, 90),
                blood: (200, 60, 50),
            },
            Theme::Lab => Palette {
                bg: (12, 14, 24),
                bg_alt: (16, 20, 34),
                wall: (40, 50, 90),
                wall_edge: (90, 120, 220),
                accent: (120, 220, 255),
                blood: (90, 200, 255),
            },
        }
    }
}

/// A solid obstacle kind; its footprint is the collision and nav rectangle.
#[derive(Clone, Copy, Debug, PartialEq, Eq, Structural)]
pub enum PropKind {
    PipeV,
    PipeH,
    Valve,
    Grate,
    Table,
    Crate,
    Barrel,
    Counter,
    Console,
    Tank,
    Barrier,
}

impl PropKind {
    pub open spec fn spec_size(self) -> (i32, i32) {
        match self {
            PropKind::PipeV => (14i32, 72i32),
            PropKind::PipeH => (72i32, 14i32),
            PropKind::Valve => (20i32, 20i32),
            PropKind::Grate => (30i32, 30i32),
            PropKind::Table => (40i32, 26i32),
            PropKind::Crate => (22i32, 22i32),
            PropKind::Barrel => (20i32, 20i32),
            PropKind::Counter => (66i32, 22i32),
            PropKind::Console => (46i32, 18i32),
            PropKind::Tank => (24i32, 24i32),
            PropKind::Barrier => (16i32, 66i32),
        }
    }

    /// Footprint `(width, height)` in world pixels.
    pub fn size(self) -> (r: (i32, i32))
        ensures
            r == self.spec_size(),
    {
        match self {
            PropKind::PipeV => (14, 72),
            PropKind::PipeH => (72, 14),
            PropKind::Valve => (20, 20),
            PropKind::Grate => (30, 30),
            PropKind::Table => (40, 26),
            PropKind::Crate => (22, 22),
            PropKind::Barrel => (20, 20),
            PropKind::Counter => (66, 22),
            PropKind::Console => (46, 18),
            PropKind::Tank => (24, 24),
            PropKind::Barrier => (16, 66),
        }
    }
}

/// Every footprint is positive, even in both dimensions, and at most 72 wide
/// or tall, so it can be centered on a whole pixel.
pub proof fn lemma_prop_sizes(k: PropKind)
    ensures
        0 < k.spec_size().0 <= 72,
        0 < k.spec_size().1 <= 72,
        k.spec_size().0 % 2 == 0,
        k.spec_size().1 % 2 == 0,
{
}

/// A placed obstacle.
#[derive(Clone, Copy, Debug, PartialEq, Eq, Structural)]
pub struct Prop {
    pub kind: PropKind,
    pub rect: Rect,
}

/// The cycle of obstacle kinds a theme scatters.
pub open spec fn spec_theme_props(theme: Theme) -> Seq<PropKind> {
    match theme {
        Theme::Sewer => seq![
            PropKind::PipeV,
            PropKind::PipeH,
            PropKind::Valve,
            PropKind::Grate,
            PropKind::Barrier,
            PropKind::PipeH,
            PropKind::PipeV,
            PropKind::Valve,
        ],
        Theme::Kitchen => seq![
            PropKind::Table,
            PropKind::Crate,
            PropKind::Barrel,
            PropKind::Counter,
            PropKind::Crate,
            PropKind::Table,
            PropKind::Barrel,
            PropKind::Counter,
        ],
        Theme::Lab => seq![
            PropKind::Console,
            PropKind::Tank,
            PropKind::Crate,
            PropKind::Barrier,
            PropKind::Console,
            PropKind::Tank,
            PropKind::Barrier,
            PropKind::Crate,
        ],
    }
}

/// The cycle of obstacle kinds a theme scatters.
pub fn theme_props(theme: Theme) -> (r: [PropKind; 8])
    ensures
        r@ == spec_theme_props(theme),
{
    match theme {
        Theme::Sewer => [
            PropKind::PipeV,
            PropKind::PipeH,
            PropKind::Valve,
            PropKind::Grate,
            PropKind::Barrier,
            PropKind::PipeH,
            PropKind::PipeV,
            PropKind::Valve,
        ],
        Theme::Kitchen => [
            PropKind::Table,
            PropKind::Crate,
            PropKind::Barrel,
            PropKind::Counter,
            PropKind::Crate,
            PropKind::Table,
            PropKind::Barrel,
            PropKind::Counter,
        ],
        Theme::Lab => [
            PropKind::Console,
            PropKind::Tank,
            PropKind::Crate,
            PropKind::Barrier,
            PropKind::Console,
            PropKind::Tank,
            PropKind::Barrier,
            PropKind::Crate,
        ],
    }
}

/// Arena width in world pixels.
pub const ARENA_W: i32 = 1020;

/// Arena height in world pixels.
pub const ARENA_H: i32 = 800;

/// Distance between obstacle slots, in world pixels.
pub const SLOT: i32 = 132;

/// Slots per row of the obstacle layout.
pub open spec fn slot_cols() -> int {
    (ARENA_W - 120) / SLOT as int + 1
}

/// Rows of the obstacle layout.
pub open spec fn slot_rows() -> int {
    (ARENA_H - 120) / SLOT as int + 1
}

/// Centre of slot `s`, counted row by row: odd rows are shifted by half a
/// slot.
pub open spec fn slot_center(s: int) -> (int, int) {
    let j = s / slot_cols();
    let i = s % slot_cols();
    let stagger = if j % 2 == 0 { 0 } else { SLOT / 2 };
    (90 + i * SLOT + stagger, 90 + j * SLOT)
}

/// The obstacle offered at slot `s`: the theme's kinds in turn, centred on
/// the slot.
pub open spec fn slot_prop(theme: Theme, s: int) -> Prop {
    let kind = spec_theme_props(theme)[s % 8];
    let c = slot_center(s);
    let (w, h) = kind.spec_size();
    Prop { kind, rect: Rect { x: (c.0 - w / 2) as i32, y: (c.1 - h / 2) as i32, w, h } }
}

/// An obstacle is kept when its centre lies at least 120 pixels from the
/// arena centre (the spawn stays clear) and it stays 26 pixels inside every
/// edge.
pub open spec fn placement_ok(p: Prop) -> bool {
    let r = p.rect;
    let cx = r.x + r.w / 2;
    let cy = r.y + r.h / 2;
    let dx = cx - ARENA_W / 2;
    let dy = cy - ARENA_H / 2;
    &&& dx * dx + dy * dy >= 120 * 120
    &&& r.x >= 26
    &&& r.x + r.w <= ARENA_W - 26
    &&& r.y >= 26
    &&& r.y + r.h <= ARENA_H - 26
}

/// The obstacles kept among the first `n` slots, in slot order.
pub open spec fn layout_upto(theme: Theme, n: nat) -> Seq<Prop>
    decreases n,
{
    if n == 0 {
        Seq::empty()
    } else {
        let prev = layout_upto(theme, (n - 1) as nat);
        let p = slot_prop(theme, n - 1);
        if placement_ok(p) {
            prev.push(p)
        } else {
            prev
        }
    }
}

/// The obstacles of a theme's map.
pub open spec fn spec_layout(theme: Theme) -> Seq<Prop> {
    layout_upto(theme, (slot_cols() * slot_rows()) as nat)
}

/// Every obstacle of a map keeps the spawn clear and stays off the edges,
/// and is one of the theme's kinds.
pub proof fn lemma_layout_clear(theme: Theme, n: nat)
    ensures
        forall|i: int| 0 <= i < layout_upto(theme, n).len() ==> #[trigger] placement_ok(layout_upto(theme, n)[i]),
        forall|i: int| 0 <= i < layout_upto(theme, n).len() ==> spec_theme_props(theme).contains(#[trigger] layout_upto(theme, n)[i].kind),
        layout_upto(theme, n).len() <= n,
    decreases n,
{
    if n > 0 {
        lemma_layout_clear(theme, (n - 1) as nat);
        let prev = layout_upto(theme, (n - 1) as nat);
        let p = slot_prop(theme, n - 1);
        let k = (n - 1) % 8;
        assert(spec_theme_props(theme)[k] == p.kind);
        if placement_ok(p) {
            assert forall|i: int| 0 <= i < layout_upto(theme, n).len() implies spec_theme_props(theme).contains(#[trigger] layout_upto(theme, n)[i].kind) by {
                if i < prev.len() {
                    assert(layout_upto(theme, n)[i] == prev[i]);
                }
            }
        }
    }
}

/// A map: its theme, arena, obstacles, palette and nav grid.
pub struct Level {
    pub theme: Theme,
    pub arena_w: i32,
    pub arena_h: i32,
    /// Collision and nav footprints, one per obstacle.
    pub walls: Vec<Rect>,
    /// The obstacles as drawn.
    pub props: Vec<Prop>,
    pub palette: Palette,
    pub nav: NavGrid,
}

impl Level {
    /// Lay out the map of `theme`: a 1020 by 800 arena, the theme's palette,
    /// its obstacles scattered on a staggered grid of slots (skipping the
    /// spawn circle and the margins), and the nav grid of 16-pixel cells
    /// over their footprints.
    pub fn new(theme: Theme) -> (l: Level)
        ensures
            l.theme == theme,
            l.arena_w == ARENA_W,
            l.arena_h == ARENA_H,
            l.props@ == spec_layout(theme),
            l.walls@.len() == l.props@.len(),
            forall|i: int| 0 <= i < l.walls@.len() ==> #[trigger] l.walls@[i] == l.props@[i].rect,
            l.palette == Palette::spec_for_theme(theme),
            l.nav.wf(),
            l.nav.width() == 64,
            l.nav.height() == 50,
            l.nav.cell_size() == 16,
            forall|cx: int, cy: int| #[trigger] l.nav.in_grid(cx, cy) <==> (0 <= cx < 64 && 0 <= cy < 50),
            forall|cx: int, cy: int|
                l.nav.in_grid(cx, cy) ==> (#[trigger] l.nav.blocked_at(cx, cy) <==> exists|i: int|
                    0 <= i < l.walls@.len() && wall_covers(#[trigger] l.walls@[i], 16, cx, cy)),
    {
        let kinds = theme_props(theme);
        let cols: i32 = (ARENA_W - 120) / SLOT;
        let rows: i32 = (ARENA_H - 120) / SLOT;
        let mut props: Vec<Prop> = Vec::new();
        let mut idx: usize = 0;
        let mut j: i32 = 0;
        while j <= rows
            invariant
                kinds@ == spec_theme_props(theme),
                cols == 6,
                rows == 5,
                0 <= j <= rows + 1,
                idx == j * 7,
                props@ == layout_upto(theme, idx as nat),
            decreases rows + 1 - j,
        {
            let mut i: i32 = 0;
            while i <= cols
                invariant
                    kinds@ == spec_theme_props(theme),
                    cols == 6,
                    rows == 5,
                    0 <= j <= rows,
                    0 <= i <= cols + 1,
                    idx == j * 7 + i,
                    props@ == layout_upto(theme, idx as nat),
                decreases cols + 1 - i,
            {
                let kind = kinds[idx % 8];
                let stagger: i32 = if j % 2 == 0 { 0 } else { SLOT / 2 };
                let cxp: i32 = 90 + i * SLOT + stagger;
                let cyp: i32 = 90 + j * SLOT;
                let (w, h) = kind.size();
                proof {
                    lemma_prop_sizes(kind);
                    assert((j * 7 + i) / 7 == j && (j * 7 + i) % 7 == i) by (nonlinear_arith)
                        requires
                            0 <= i < 7,
                            0 <= j,
                    ;
                }
                let rect = Rect::new(cxp - w / 2, cyp - h / 2, w, h);
                let p = Prop { kind, rect };
                let dx: i32 = cxp - ARENA_W / 2;
                let dy: i32 = cyp - ARENA_H / 2;
                proof {
                    assert(0 <= dx * dx <= 500 * 500 && 0 <= dy * dy <= 500 * 500) by (nonlinear_arith)
                        requires
                            -500 <= dx <= 500,
                            -500 <= dy <= 500,
                    ;
                }
                let clear = dx * dx + dy * dy >= 120 * 120;
                let inside = rect.x >= 26 && rect.x + rect.w <= ARENA_W - 26 && rect.y >= 26 && rect.y + rect.h
                    <= ARENA_H - 26;
                proof {
                    assert(p == slot_prop(theme, idx as int));
                    assert(rect.x + rect.w / 2 == cxp && rect.y + rect.h / 2 == cyp);
                    assert((clear && inside) == placement_ok(p));
                }
                if clear && inside {
                    props.push(p);
                }
                idx = idx + 1;
                i = i + 1;
            }
            j = j + 1;
        }
        let mut walls: Vec<Rect> = Vec::new();
        let mut k: usize = 0;
        while k < props.len()
            invariant
                k <= props@.len(),
                walls@.len() == k,
                forall|t: int| 0 <= t < k ==> #[trigger] walls@[t] == props@[t].rect,
            decreases props.len() - k,
        {
            walls.push(props[k].rect);
            k = k + 1;
        }
        let nav = NavGrid::build(ARENA_W, ARENA_H, &walls, 16);
        let ghost wv = walls@;
        let l = Level { theme, arena_w: ARENA_W, arena_h: ARENA_H, walls, props, palette: Palette::for_theme(theme), nav };
        proof {
            assert(l.walls@ == wv);
            assert forall|cx: int, cy: int| l.nav.in_grid(cx, cy) implies (#[trigger] l.nav.blocked_at(cx, cy) <==> exists|i: int|
                0 <= i < l.walls@.len() && wall_covers(#[trigger] l.walls@[i], 16, cx, cy)) by {
                assert(nav.in_grid(cx, cy));
                if nav.blocked_at(cx, cy) {
                    let i = choose|i: int| 0 <= i < wv.len() && wall_covers(#[trigger] wv[i], 16, cx, cy);
                    assert(wall_covers(l.walls@[i], 16, cx, cy));
                }
            }
        }
        l
    }
}

} // verus!
