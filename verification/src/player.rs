//! Experience and leveling of the player rat.

use vstd::prelude::*;

verus! {

/// The highest level whose threshold still fits in a `u32`.
pub open spec fn top_level() -> u32 {
    858_993_458
}

/// Experience needed to advance from `level` to the next one.
pub open spec fn spec_xp_for_level(level: u32) -> int {
    5 + level * 5
}

/// Experience needed to climb from level `from` to level `to`.
pub open spec fn xp_between(from: int, to: int) -> int
    decreases to - from,
{
    if to <= from {
        0
    } else {
        xp_between(from, to - 1) + 5 + (to - 1) * 5
    }
}

/// Experience needed to advance from `level` to the next one.
pub fn xp_for_level(level: u32) -> (r: u32)
    requires
        level <= top_level(),
    ensures
        r == spec_xp_for_level(level),
{
    5 + level * 5
}

/// Experience held toward the next level, the level, and the threshold.
#[derive(Clone, Copy, PartialEq, Eq, Debug, Structural)]
pub struct Progress {
    pub xp: u32,
    pub level: u32,
    pub xp_to_next: u32,
}

impl Progress {
    /// The threshold is the one of the current level.
    pub open spec fn wf(self) -> bool {
        &&& self.level <= top_level()
        &&& self.xp_to_next == spec_xp_for_level(self.level)
    }

    /// A fresh rat: level 1, no experience.
    pub fn new() -> (p: Progress)
        ensures
            p.wf(),
            p.xp == 0,
            p.level == 1,
            p.xp_to_next == 10,
    {
        Progress { xp: 0, level: 1, xp_to_next: xp_for_level(1) }
    }

    /// Add experience; returns how many level-ups it triggered. Experience
    /// carries over: every threshold passed is paid out of it, and what is
    /// left is below the new threshold.
    pub fn add_xp(&mut self, amount: u32) -> (levels: u32)
        requires
            old(self).wf(),
            old(self).xp + amount <= u32::MAX,
            old(self).level < top_level() || old(self).xp + amount < u32::MAX,
        ensures
            final(self).wf(),
            final(self).level == old(self).level + levels,
            final(self).xp < final(self).xp_to_next,
            final(self).xp + xp_between(old(self).level as int, final(self).level as int) == old(self).xp + amount,
    {
        self.xp = self.xp + amount;
        let mut levels: u32 = 0;
        let ghost start = *old(self);
        while self.xp >= self.xp_to_next
            invariant
                self.wf(),
                self.level == start.level + levels,
                self.level < top_level() || self.xp < u32::MAX,
                self.xp + xp_between(start.level as int, self.level as int) == start.xp + amount,
                start.xp + amount <= u32::MAX,
            decreases self.xp,
        {
            self.xp = self.xp - self.xp_to_next;
            self.level = self.level + 1;
            self.xp_to_next = xp_for_level(self.level);
            levels = levels + 1;
        }
        levels
    }
}

/// Climbing from `from` to `to` costs what climbing to `mid` and then on to
/// `to` costs, and never less than the first leg.
pub proof fn lemma_xp_between_monotone(from: int, mid: int, to: int)
    requires
        from <= mid <= to,
        from >= 0,
    ensures
        xp_between(from, to) == xp_between(from, mid) + xp_between(mid, to),
        xp_between(from, mid) <= xp_between(from, to),
    decreases to - mid,
{
    if mid < to {
        lemma_xp_between_monotone(from, mid, to - 1);
    }
}

/// The level reached by a gain is determined by the gain: two runs of
/// `add_xp` from the same state with the same amount end in the same level
/// and keep the same experience.
pub proof fn lemma_add_xp_deterministic(
    start_level: int,
    start_xp: int,
    amount: int,
    l1: int,
    x1: int,
    l2: int,
    x2: int,
)
    requires
        0 <= start_level <= l1,
        start_level <= l2,
        0 <= x1 < 5 + l1 * 5,
        0 <= x2 < 5 + l2 * 5,
        x1 + xp_between(start_level, l1) == start_xp + amount,
        x2 + xp_between(start_level, l2) == start_xp + amount,
    ensures
        l1 == l2,
        x1 == x2,
{
    if l1 < l2 {
        lemma_xp_between_monotone(start_level, l1 + 1, l2);
        assert(xp_between(start_level, l1 + 1) == xp_between(start_level, l1) + 5 + l1 * 5);
    } else if l2 < l1 {
        lemma_xp_between_monotone(start_level, l2 + 1, l1);
        assert(xp_between(start_level, l2 + 1) == xp_between(start_level, l2) + 5 + l2 * 5);
    }
}

} // verus!
