//! Wireless-link health supervisor: counts consecutive send failures and
//! raises a one-shot re-scan signal when they cross a fixed threshold.
//!
//! The caller reports the outcome of every wireless send. Any success
//! clears the count; the signal is raised exactly once per unbroken run of
//! failures — at the moment the run reaches the threshold — so the waiting
//! channel-search task is woken at most once per signal, never busy-polled.

use vstd::prelude::*;

verus! {

/// Consecutive-failure counter with a re-scan threshold.
pub struct LinkHealth {
    failures: u64,
    threshold: u64,
}

impl LinkHealth {
    /// Number of consecutive failures seen since the last success.
    pub closed spec fn spec_failures(&self) -> u64 {
        self.failures
    }

    /// The failure count at which one re-scan signal is raised.
    pub closed spec fn spec_threshold(&self) -> u64 {
        self.threshold
    }

    /// A healthy link with no failures recorded.
    pub fn new(threshold: u64) -> (r: LinkHealth)
        requires
            threshold > 0,
        ensures
            r.spec_failures() == 0,
            r.spec_threshold() == threshold,
    {
        LinkHealth { failures: 0, threshold }
    }

    /// Records one send outcome. A success clears the failure run; a
    /// failure lengthens it, and the signal is raised exactly when the run
    /// reaches the threshold — once per run, not on every further failure.
    pub fn record(&mut self, ok: bool) -> (rescan: bool)
        ensures
            final (self).spec_threshold() == old(self).spec_threshold(),
            ok ==> final (self).spec_failures() == 0 && !rescan,
            !ok && old(self).spec_failures() < u64::MAX ==> final (self).spec_failures() == old(
                self,
            ).spec_failures() + 1,
            !ok && old(self).spec_failures() == u64::MAX ==> final (self).spec_failures()
                == u64::MAX,
            !ok ==> rescan == (final (self).spec_failures() == old(self).spec_threshold()
                && old(self).spec_failures() < old(self).spec_threshold()),
    {
        if ok {
            self.failures = 0;
            false
        } else {
            let before = self.failures;
            if self.failures < u64::MAX {
                self.failures = self.failures + 1;
            }
            self.failures == self.threshold && before < self.threshold
        }
    }
}

} // verus!
