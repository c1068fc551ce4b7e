//! Wall-clock state for the master node.
//!
//! The process boots with an unset clock; once a time source hands in the
//! current milliseconds since the epoch (the network time step, in the real
//! system), the clock is marked set and callers may trust its reading.

use vstd::prelude::*;

verus! {

/// Milliseconds since the epoch as last handed in, plus whether any time
/// was ever handed in at all.
#[derive(Clone, Copy)]
pub struct CurrentTime {
    millis: u64,
    set: bool,
}

impl CurrentTime {
    /// Whether the clock has been set since boot.
    pub closed spec fn spec_is_set(&self) -> bool {
        self.set
    }

    /// The clock's reading in milliseconds since the epoch.
    pub closed spec fn spec_millis(&self) -> u64 {
        self.millis
    }

    /// A clock that has not been set yet.
    pub fn new() -> (r: CurrentTime)
        ensures
            !r.spec_is_set(),
            r.spec_millis() == 0,
    {
        CurrentTime { millis: 0, set: false }
    }

    /// Whether the clock has been set since boot.
    pub fn is_set(&self) -> (r: bool)
        ensures
            r == self.spec_is_set(),
    {
        self.set
    }

    /// Sets the clock to `time` milliseconds since the epoch and marks it
    /// set from now on.
    pub fn update_time(&mut self, time: u64)
        ensures
            final (self).spec_is_set(),
            final (self).spec_millis() == time,
    {
        self.millis = time;
        self.set = true;
    }

    /// The clock's reading whether or not it was ever set (an unset clock
    /// reads zero, the epoch).
    pub fn as_millis_raw(&self) -> (r: u64)
        ensures
            r == self.spec_millis(),
    {
        self.millis
    }

    /// The clock's reading, only if it has been set.
    pub fn as_millis(&self) -> (r: Option<u64>)
        ensures
            self.spec_is_set() ==> r == Some(self.spec_millis()),
            !self.spec_is_set() ==> r is None,
    {
        if self.set {
            Some(self.millis)
        } else {
            None
        }
    }
}

impl Default for CurrentTime {
    fn default() -> (r: Self)
        ensures
            !r.spec_is_set(),
            r.spec_millis() == 0,
    {
        Self::new()
    }
}

} // verus!
