//! Retry and broadcast timers: an interval that is due when it has never
//! fired, or when more than the interval has passed since it last fired.
//!
//! One such timer paces the keepalive broadcast, another the
//! storage-recovery attempts.

use vstd::prelude::*;

verus! {

/// A periodic timer over a millisecond clock supplied by the caller.
#[derive(Clone, Copy)]
pub struct PeriodicTimer {
    interval_ms: u64,
    last: Option<u64>,
}

impl PeriodicTimer {
    /// The timer's interval in milliseconds.
    pub closed spec fn spec_interval(&self) -> u64 {
        self.interval_ms
    }

    /// When the timer last fired, if ever.
    pub closed spec fn spec_last(&self) -> Option<u64> {
        self.last
    }

    /// Due when it never fired, or when more than one interval has passed.
    pub open spec fn spec_due(&self, now: u64) -> bool {
        match self.spec_last() {
            None => true,
            Some(l) => l + self.spec_interval() < now,
        }
    }

    /// A timer that has never fired: due at once.
    pub fn new(interval_ms: u64) -> (r: PeriodicTimer)
        ensures
            r.spec_interval() == interval_ms,
            r.spec_last() is None,
    {
        PeriodicTimer { interval_ms, last: None }
    }

    /// Whether the timer is due at time `now`.
    pub fn is_due(&self, now: u64) -> (r: bool)
        ensures
            r == self.spec_due(now),
    {
        match self.last {
            None => true,
            Some(l) => {
                match l.checked_add(self.interval_ms) {
                    Some(deadline) => now > deadline,
                    None => false,
                }
            },
        }
    }

    /// Records that the timed action ran at time `now`.
    pub fn fire(&mut self, now: u64)
        ensures
            final (self).spec_interval() == old(self).spec_interval(),
            final (self).spec_last() == Some(now),
    {
        self.last = Some(now);
    }
}

} // verus!
