//! The fixed-interval accumulator that decides when a generation is due.
//!
//! Elapsed time is added up; once it reaches the interval, one generation is
//! due and the interval is taken off the total, the rest carried over. At most
//! one generation is due per tick: a surplus of whole intervals is carried and
//! yields one generation on each of the following ticks, so none is skipped.
use vstd::prelude::*;

verus! {

/// Time accumulated towards the next generation, in nanoseconds.
#[derive(Clone, Copy, Debug, PartialEq, Eq, Structural)]
pub struct TickTimer {
    interval: u64,
    elapsed: u64,
}

impl TickTimer {
    /// The length of one interval.
    pub closed spec fn interval_spec(&self) -> nat {
        self.interval as nat
    }

    /// The time accumulated and not yet spent on a generation.
    pub closed spec fn elapsed_spec(&self) -> nat {
        self.elapsed as nat
    }

    /// A timer with nothing accumulated; `None` for an interval of zero, which
    /// would make every tick due.
    pub fn new(interval_nanos: u64) -> (r: Option<TickTimer>)
        ensures
            r.is_some() <==> interval_nanos > 0,
            r matches Some(t) ==> t.interval_spec() == interval_nanos && t.elapsed_spec() == 0,
    {
        if interval_nanos == 0 {
            None
        } else {
            Some(TickTimer { interval: interval_nanos, elapsed: 0 })
        }
    }

    /// The length of one interval.
    pub fn interval_nanos(&self) -> (r: u64)
        ensures
            r == self.interval_spec(),
    {
        self.interval
    }

    /// The time accumulated and not yet spent on a generation.
    pub fn elapsed_nanos(&self) -> (r: u64)
        ensures
            r == self.elapsed_spec(),
    {
        self.elapsed
    }

    /// Adds `delta_nanos` of elapsed time (the total saturates at `u64::MAX`) and
    /// says whether a generation is due; when it is, one interval is taken off
    /// the total.
    pub fn tick(&mut self, delta_nanos: u64) -> (due: bool)
        ensures
            final(self).interval_spec() == old(self).interval_spec(),
            ({
                let total = if old(self).elapsed_spec() + delta_nanos > u64::MAX {
                    u64::MAX as int
                } else {
                    old(self).elapsed_spec() + delta_nanos
                };
                &&& due == (total >= old(self).interval_spec())
                &&& final(self).elapsed_spec() == if due {
                    total - old(self).interval_spec()
                } else {
                    total
                }
            }),
    {
        let total = self.elapsed.saturating_add(delta_nanos);
        if total >= self.interval {
            self.elapsed = total - self.interval;
            true
        } else {
            self.elapsed = total;
            false
        }
    }
}

} // verus!
