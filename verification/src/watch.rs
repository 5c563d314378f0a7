//! Telling the server's own writes of the file from changes made by others.
//!
//! While and shortly after the server writes the file, the watcher is to
//! pass over what it is told of the file. Times are milliseconds on any one
//! clock.

use vstd::prelude::*;

verus! {

/// How long a write may take before the watcher looks again.
pub const WRITE_WINDOW: u64 = 10_000;

/// How long the watcher waits behind a write that is done.
pub const SETTLE_WINDOW: u64 = 1_000;

/// `time` and `window` after it, or the last time there is.
pub open spec fn later(time: u64, window: u64) -> u64 {
    if time + window > u64::MAX {
        u64::MAX
    } else {
        (time + window) as u64
    }
}

/// The time up to which a change of the file counts as the server's own.
pub struct WriteGuard {
    pub deadline: u64,
}

impl WriteGuard {
    /// A guard that passes over nothing.
    pub fn new() -> (guard: Self)
        ensures
            guard.deadline == 0,
    {
        WriteGuard { deadline: 0 }
    }

    /// A write begins at `now`: changes count as the server's own for the
    /// time a write may take.
    pub fn begin_write(&mut self, now: u64)
        ensures
            final(self).deadline == later(now, WRITE_WINDOW),
    {
        self.deadline = now.saturating_add(WRITE_WINDOW);
    }

    /// The write is done at `now`: changes count as the server's own for a
    /// short while more.
    pub fn end_write(&mut self, now: u64)
        ensures
            final(self).deadline == later(now, SETTLE_WINDOW),
    {
        self.deadline = now.saturating_add(SETTLE_WINDOW);
    }

    /// Whether a change seen at `now` is to be passed over.
    pub fn passes_over(&self, now: u64) -> (yes: bool)
        ensures
            yes == (now < self.deadline),
    {
        now < self.deadline
    }
}

} // verus!
