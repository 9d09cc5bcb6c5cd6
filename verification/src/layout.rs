//! Placement of the menu cards on the terminal.

use vstd::prelude::*;

verus! {

/// A rectangle of terminal cells.
#[derive(Clone, Copy, Debug, PartialEq, Eq, Structural)]
pub struct Area {
    pub x: u16,
    pub y: u16,
    pub width: u16,
    pub height: u16,
}

/// The smaller of two sizes.
pub open spec fn at_most(a: u16, b: u16) -> u16 {
    if a < b { a } else { b }
}

/// A `w` by `h` card centered in `area`, shrunk to fit it; leftover cells
/// are split evenly, the odd one going right and below.
pub fn centered_rect(w: u16, h: u16, area: Area) -> (r: Area)
    requires
        area.x + (area.width - at_most(w, area.width)) / 2 <= u16::MAX,
        area.y + (area.height - at_most(h, area.height)) / 2 <= u16::MAX,
    ensures
        r.width == at_most(w, area.width),
        r.height == at_most(h, area.height),
        r.x == area.x + (area.width - r.width) / 2,
        r.y == area.y + (area.height - r.height) / 2,
{
    let w = if w < area.width { w } else { area.width };
    let h = if h < area.height { h } else { area.height };
    Area {
        x: area.x + (area.width - w) / 2,
        y: area.y + (area.height - h) / 2,
        width: w,
        height: h,
    }
}

/// The card lies within the area, with at most one cell more on its right
/// and lower sides than on its left and upper sides.
pub proof fn lemma_centered_inside(w: u16, h: u16, area: Area, r: Area)
    requires
        r.width == at_most(w, area.width),
        r.height == at_most(h, area.height),
        r.x == area.x + (area.width - r.width) / 2,
        r.y == area.y + (area.height - r.height) / 2,
    ensures
        area.x <= r.x,
        r.x + r.width <= area.x + area.width,
        area.y <= r.y,
        r.y + r.height <= area.y + area.height,
        0 <= (area.x + area.width - (r.x + r.width)) - (r.x - area.x) <= 1,
        0 <= (area.y + area.height - (r.y + r.height)) - (r.y - area.y) <= 1,
{
}

} // verus!
