//! A list with a capacity: when full, the oldest entry makes room for the
//! newest, which keeps the per-frame work of the particle system bounded.

use vstd::prelude::*;

verus! {

/// The list after pushing `x` onto `items` with capacity `cap`: when the
/// list is at or over capacity the first (oldest) entry is dropped.
pub open spec fn pushed<T>(items: Seq<T>, cap: nat, x: T) -> Seq<T> {
    if items.len() >= cap {
        items.drop_first().push(x)
    } else {
        items.push(x)
    }
}

/// Entries in arrival order, with a capacity.
pub struct Capped<T> {
    pub items: Vec<T>,
    pub cap: usize,
}

impl<T> Capped<T> {
    /// An empty list holding at most `cap` entries.
    pub fn new(cap: usize) -> (c: Capped<T>)
        ensures
            c.items@ == Seq::<T>::empty(),
            c.cap == cap,
    {
        Capped { items: Vec::new(), cap }
    }

    /// Append `x`, first dropping the oldest entry when the list is full.
    pub fn push(&mut self, x: T)
        requires
            old(self).items@.len() < old(self).cap || old(self).items@.len() > 0,
        ensures
            final(self).cap == old(self).cap,
            final(self).items@ == pushed(old(self).items@, old(self).cap as nat, x),
    {
        if self.items.len() >= self.cap {
            self.items.remove(0);
        }
        self.items.push(x);
    }

    /// Number of entries.
    pub fn len(&self) -> (r: usize)
        ensures
            r == self.items@.len(),
    {
        self.items.len()
    }
}

/// Pushing never takes a list within its capacity over it, the newest entry
/// is always last, and every entry but the dropped oldest one stays, in order.
pub proof fn lemma_push_respects_cap<T>(items: Seq<T>, cap: nat, x: T)
    requires
        items.len() <= cap,
        cap > 0,
    ensures
        pushed(items, cap, x).len() <= cap,
        pushed(items, cap, x).last() == x,
        items.len() < cap ==> pushed(items, cap, x).drop_last() == items,
        items.len() == cap ==> pushed(items, cap, x).drop_last() == items.drop_first(),
{
    assert(pushed(items, cap, x).drop_last() =~= (if items.len() >= cap { items.drop_first() } else { items }));
}

} // verus!
