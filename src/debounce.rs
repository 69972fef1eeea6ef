//! When edits are persisted: a burst of edits is saved once, after a quiet period.
use vstd::prelude::*;

verus! {

/// Quiet period, in milliseconds, after the last edit before it is saved.
pub const DEBOUNCE_MS: u64 = 100;

/// The time of the last edit, and whether an edit is waiting to be saved.
#[derive(Clone, Copy, Debug, PartialEq, Eq)]
pub struct SaveSchedule {
    pub last_change_ms: u64,
    pub pending: bool,
}

impl SaveSchedule {
    /// Nothing waiting to be saved.
    pub fn new(now_ms: u64) -> (r: Self)
        ensures
            r.last_change_ms == now_ms,
            !r.pending,
    {
        SaveSchedule { last_change_ms: now_ms, pending: false }
    }

    /// Takes one frame at time `now_ms`, in which the records `changed` or
    /// not. Returns whether to export, save and notify now: only when nothing
    /// changed in this frame, an edit is waiting, and more than the quiet
    /// period has passed since the last edit.
    pub fn on_frame(&mut self, now_ms: u64, changed: bool) -> (fire: bool)
        ensures
            changed ==> !fire && *final(self) == (SaveSchedule { last_change_ms: now_ms, pending: true }),
            !changed ==> fire == (old(self).pending && now_ms as int > old(self).last_change_ms + DEBOUNCE_MS),
            !changed && fire ==> *final(self) == (SaveSchedule { last_change_ms: old(self).last_change_ms, pending: false }),
            !changed && !fire ==> *final(self) == *old(self),
    {
        if changed {
            self.last_change_ms = now_ms;
            self.pending = true;
            return false;
        }
        if self.pending && now_ms > self.last_change_ms && now_ms - self.last_change_ms > DEBOUNCE_MS {
            self.pending = false;
            true
        } else {
            false
        }
    }
}

} // verus!
