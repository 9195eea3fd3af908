//! The hybrid logical clock of one instance.
use vstd::prelude::*;

verus! {

/// The clock cannot advance past the largest representable timestamp.
#[derive(Debug, Clone, Copy, PartialEq, Eq, Structural)]
pub enum ClockError {
    Exhausted,
}

/// Hybrid logical clock: the last timestamp issued locally or observed remotely.
pub struct Clock {
    last: u64,
}

impl Clock {
    /// The highest timestamp issued or observed so far.
    pub closed spec fn last_spec(&self) -> u64 {
        self.last
    }

    /// A clock that has issued and observed nothing.
    pub fn new() -> (r: Clock)
        ensures
            r.last_spec() == 0,
    {
        Clock { last: 0 }
    }

    /// The highest timestamp issued or observed so far.
    pub fn last(&self) -> (r: u64)
        ensures
            r == self.last_spec(),
    {
        self.last
    }

    /// A fresh timestamp: the physical time `now` when it is ahead of every timestamp
    /// issued or observed, else one logical step past the last of them.
    pub fn next(&mut self, now: u64) -> (r: Result<u64, ClockError>)
        ensures
            match r {
                Ok(t) => {
                    &&& t > old(self).last_spec()
                    &&& t >= now
                    &&& t == (if now > old(self).last_spec() { now } else { (old(self).last_spec() + 1) as u64 })
                    &&& final(self).last_spec() == t
                },
                Err(_) => {
                    &&& now <= old(self).last_spec()
                    &&& old(self).last_spec() == u64::MAX
                    &&& final(self).last_spec() == old(self).last_spec()
                },
            },
    {
        if now > self.last {
            self.last = now;
            Ok(now)
        } else if self.last == u64::MAX {
            Err(ClockError::Exhausted)
        } else {
            self.last = self.last + 1;
            Ok(self.last)
        }
    }

    /// Folds a remote timestamp in, so that later local timestamps come after it.
    pub fn observe(&mut self, remote: u64)
        ensures
            final(self).last_spec() == (if remote > old(self).last_spec() { remote } else { old(self).last_spec() }),
    {
        if remote > self.last {
            self.last = remote;
        }
    }
}

} // verus!
