//! Wall-clock rate limiting for the simulation step and the render sync.

use vstd::prelude::*;

verus! {

/// A minimal rate limiter: the operation it guards fires when at least
/// `time_between_refresh` milliseconds have passed since the last firing.
/// An interval of zero fires every tick.  One timer gates the simulation
/// step and another the render sync, each configured on its own.
pub struct RefreshTimer {
    pub last_refresh: u128,
    pub time_between_refresh: u128,
}

impl RefreshTimer {
    pub fn new(now: u128, interval: u128) -> (t: RefreshTimer)
        ensures
            t.last_refresh == now,
            t.time_between_refresh == interval,
    {
        RefreshTimer { last_refresh: now, time_between_refresh: interval }
    }

    /// Whether the guarded operation fires at time `now`.  Firing records
    /// `now` as the new last-run time; an attempt that does not fire
    /// changes nothing.
    pub fn due(&mut self, now: u128) -> (fired: bool)
        ensures
            fired == (old(self).time_between_refresh == 0 || old(self).last_refresh + old(
                self,
            ).time_between_refresh <= now),
            final(self).time_between_refresh == old(self).time_between_refresh,
            final(self).last_refresh == if fired {
                now
            } else {
                old(self).last_refresh
            },
    {
        let fired = self.time_between_refresh == 0 || (now >= self.last_refresh && now
            - self.last_refresh >= self.time_between_refresh);
        if fired {
            self.last_refresh = now;
        }
        fired
    }
}

} // verus!
