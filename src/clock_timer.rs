use vstd::prelude::*;

verus! {

/// Whether a value fits in an `i64`.
pub open spec fn fits_i64(v: int) -> bool {
    i64::MIN <= v <= i64::MAX
}

/// An interval tracking clock. Times are milliseconds since the Unix epoch,
/// durations milliseconds. Each tick yields the time it is due at, with the
/// time elapsed since the start and the time remaining to the end; the clock
/// is done once the remaining time is negative.
pub struct ClockTimer {
    pub next_tick: i64,
    pub interval: i64,
    pub elapsed: i64,
    pub remaining: i64,
}

/// Timing information for one tick.
#[derive(Clone, Copy, Debug, PartialEq, Eq)]
pub struct Tick {
    pub this_tick: i64,
    pub elapsed: i64,
    pub remaining: i64,
}

impl ClockTimer {
    /// A builder that takes the start, then the end or a duration, then the
    /// interval.
    pub fn builder() -> Builder {
        Builder::new()
    }

    /// Whether stepping to the next tick keeps every field in range.
    pub open spec fn can_step(&self) -> bool {
        &&& fits_i64(self.next_tick + self.interval)
        &&& fits_i64(self.elapsed + self.interval)
        &&& fits_i64(self.remaining - self.interval)
    }

    /// The next tick, with the clock moved on by one interval; `None` once
    /// the remaining time is negative, or where the clock cannot step
    /// further within the range of its fields. The caller waits until the
    /// tick is due (see [`wait_ms`]).
    pub fn next_tick(&mut self) -> (r: Option<Tick>)
        ensures
            old(self).remaining < 0 || !old(self).can_step() ==> r is None && *final(self) == *old(self),
            old(self).remaining >= 0 && old(self).can_step() ==> {
                &&& r == Some(
                    Tick {
                        this_tick: old(self).next_tick,
                        elapsed: old(self).elapsed,
                        remaining: old(self).remaining,
                    },
                )
                &&& final(self).next_tick == old(self).next_tick + old(self).interval
                &&& final(self).elapsed == old(self).elapsed + old(self).interval
                &&& final(self).remaining == old(self).remaining - old(self).interval
                &&& final(self).interval == old(self).interval
            },
    {
        if self.remaining < 0 {
            return None;
        }
        let next = self.next_tick as i128 + self.interval as i128;
        let elapsed = self.elapsed as i128 + self.interval as i128;
        let remaining = self.remaining as i128 - self.interval as i128;
        if next < i64::MIN as i128 || next > i64::MAX as i128 || elapsed < i64::MIN as i128 || elapsed
            > i64::MAX as i128 || remaining < i64::MIN as i128 || remaining > i64::MAX as i128 {
            return None;
        }
        let tick = Tick { this_tick: self.next_tick, elapsed: self.elapsed, remaining: self.remaining };
        self.next_tick = next as i64;
        self.elapsed = elapsed as i64;
        self.remaining = remaining as i64;
        Some(tick)
    }
}

/// How long to wait, from `now`, until a tick due at `due`: nothing when it
/// is already due.
pub fn wait_ms(due: i64, now: i64) -> (r: u64)
    ensures
        due <= now ==> r == 0,
        due > now ==> r == due - now,
{
    if due <= now {
        0
    } else {
        (due as i128 - now as i128) as u64
    }
}

/// The first step of building a [`ClockTimer`].
pub struct Builder {
    private: (),
}

/// A builder that has its start time.
pub struct BuilderWithStart {
    start: i64,
}

/// A builder that has its start and end times.
pub struct BuilderWithEnd {
    start: i64,
    end: i64,
}

/// A builder that has everything a [`ClockTimer`] needs.
pub struct BuilderWithInterval {
    start: i64,
    end: i64,
    interval: i64,
}

impl Builder {
    pub fn new() -> (r: Builder) {
        Builder { private: () }
    }

    /// Sets the time of the first tick.
    pub fn with_start_datetime(self, start: i64) -> (r: BuilderWithStart)
        ensures
            r.start() == start,
    {
        BuilderWithStart { start }
    }
}

impl BuilderWithStart {
    pub closed spec fn start(&self) -> i64 {
        self.start
    }

    /// Sets the end time: the clock ticks until this time is passed, and
    /// ticks at it if a tick falls on it.
    pub fn with_end_datetime(self, end: i64) -> (r: BuilderWithEnd)
        ensures
            r.start() == self.start(),
            r.end() == end,
    {
        BuilderWithEnd { start: self.start, end }
    }

    /// Sets how long the clock runs: the end is the start plus `duration`.
    pub fn with_duration(self, duration: i64) -> (r: BuilderWithEnd)
        requires
            fits_i64(self.start() + duration),
        ensures
            r.start() == self.start(),
            r.end() == self.start() + duration,
    {
        BuilderWithEnd { start: self.start, end: self.start + duration }
    }
}

impl BuilderWithEnd {
    pub closed spec fn start(&self) -> i64 {
        self.start
    }

    pub closed spec fn end(&self) -> i64 {
        self.end
    }

    /// Sets the time between ticks.
    pub fn with_interval(self, interval: i64) -> (r: BuilderWithInterval)
        ensures
            r.start() == self.start(),
            r.end() == self.end(),
            r.interval() == interval,
    {
        BuilderWithInterval { start: self.start, end: self.end, interval }
    }
}

impl BuilderWithInterval {
    pub closed spec fn start(&self) -> i64 {
        self.start
    }

    pub closed spec fn end(&self) -> i64 {
        self.end
    }

    pub closed spec fn interval(&self) -> i64 {
        self.interval
    }

    /// The clock: first tick at the start, nothing elapsed, and the span from
    /// start to end remaining.
    pub fn build(self) -> (r: ClockTimer)
        requires
            fits_i64(self.end() - self.start()),
        ensures
            r.next_tick == self.start(),
            r.interval == self.interval(),
            r.elapsed == 0,
            r.remaining == self.end() - self.start(),
    {
        ClockTimer {
            next_tick: self.start,
            interval: self.interval,
            elapsed: 0,
            remaining: self.end - self.start,
        }
    }
}

} // verus!
