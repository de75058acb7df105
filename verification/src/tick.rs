//! Change ticks: a wrapping counter that records when a field slot was last
//! written (`changed`) and when it was created (`added`), together with the
//! wraparound-aware ordering used to answer "changed since tick T".

use vstd::prelude::*;

verus! {

/// The change metadata of one field slot.
#[derive(Clone, Copy, Debug, PartialEq, Eq, Structural)]
pub struct ComponentTicks {
    pub added: u32,
    pub changed: u32,
}

/// Distance walked backwards from `cur` to `t` on the wrapping tick circle.
pub open spec fn spec_tick_delta(cur: u32, t: u32) -> int {
    if cur >= t {
        cur - t
    } else {
        cur - t + 0x1_0000_0000
    }
}

/// A tick `t` counts as newer than `last` in an iteration window `(last, cur]`
/// iff it lies strictly closer to `cur` than `last` does, walking backwards on
/// the wrapping circle. This is the wraparound-aware reading of
/// `last < t <= cur`.
pub open spec fn spec_tick_newer_than(t: u32, last: u32, cur: u32) -> bool {
    spec_tick_delta(cur, t) < spec_tick_delta(cur, last)
}

/// Wrapping distance from `t` backwards to `cur`, as executable code.
pub fn tick_delta(cur: u32, t: u32) -> (r: u32)
    ensures
        r == spec_tick_delta(cur, t),
{
    if cur >= t {
        cur - t
    } else {
        (u32::MAX - (t - cur)) + 1
    }
}

impl ComponentTicks {
    /// Fresh metadata for a slot created at `tick`.
    pub fn new(tick: u32) -> (r: ComponentTicks)
        ensures
            r.added == tick,
            r.changed == tick,
    {
        ComponentTicks { added: tick, changed: tick }
    }

    /// Was the slot written inside the window `(last, cur]`?
    pub fn is_changed(&self, last: u32, cur: u32) -> (r: bool)
        ensures
            r == spec_tick_newer_than(self.changed, last, cur),
    {
        tick_delta(cur, self.changed) < tick_delta(cur, last)
    }

    /// Was the slot created inside the window `(last, cur]`?
    pub fn is_added(&self, last: u32, cur: u32) -> (r: bool)
        ensures
            r == spec_tick_newer_than(self.added, last, cur),
    {
        tick_delta(cur, self.added) < tick_delta(cur, last)
    }

    /// Record a write at `tick`.
    pub fn set_changed(&mut self, tick: u32)
        ensures
            final(self).added == old(self).added,
            final(self).changed == tick,
    {
        self.changed = tick;
    }
}

} // verus!
