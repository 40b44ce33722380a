//! Countdown timers, rendered by the embedding as progress bars.

use vstd::prelude::*;

verus! {

/// A countdown that accumulates elapsed milliseconds up to a fixed total.
/// Breeding stacks and tile production slots each own one.
#[derive(Clone, Copy, Debug)]
pub struct ProgressBar {
    pub current_ms: u64,
    pub total_ms: u64,
}

impl ProgressBar {
    /// Accumulated time never exceeds the total.
    pub open spec fn wf(self) -> bool {
        self.current_ms <= self.total_ms
    }

    pub fn new(total_ms: u64) -> (bar: ProgressBar)
        ensures
            bar.current_ms == 0,
            bar.total_ms == total_ms,
            bar.wf(),
    {
        ProgressBar { current_ms: 0, total_ms }
    }

    pub open spec fn finished_spec(self) -> bool {
        self.current_ms >= self.total_ms
    }

    pub fn finished(&self) -> (r: bool)
        ensures
            r == self.finished_spec(),
    {
        self.current_ms >= self.total_ms
    }

    /// Advance by `amount_ms`, clamping at the total.
    pub fn add(&mut self, amount_ms: u64)
        requires
            old(self).wf(),
        ensures
            final(self).wf(),
            final(self).total_ms == old(self).total_ms,
            final(self).current_ms as int == if old(self).current_ms + amount_ms
                >= old(self).total_ms {
                old(self).total_ms as int
            } else {
                old(self).current_ms + amount_ms
            },
    {
        if amount_ms >= self.total_ms - self.current_ms {
            self.current_ms = self.total_ms;
        } else {
            self.current_ms = self.current_ms + amount_ms;
        }
    }

    /// Start the countdown over.
    pub fn reset(&mut self)
        ensures
            final(self).current_ms == 0,
            final(self).total_ms == old(self).total_ms,
            final(self).wf(),
    {
        self.current_ms = 0;
    }
}

/// One spawned timer entity. Despawning marks it dead; the slot itself is
/// kept so that timer identities stay stable.
#[derive(Clone, Copy, Debug)]
pub struct BarEntity {
    pub bar: ProgressBar,
    pub alive: bool,
}

} // verus!
