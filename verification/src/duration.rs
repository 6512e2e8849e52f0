//! Time spans and the single time unit shared by the codec, the store and the
//! query engine: milliseconds since the Unix epoch for timestamps, and
//! milliseconds of wall-clock time for durations.
use vstd::prelude::*;

verus! {

/// Milliseconds in one second.
pub const MS_PER_SEC: u64 = 1000;
/// Milliseconds in one hour.
pub const MS_PER_HOUR: u64 = 3_600_000;
/// Milliseconds in one day.
pub const MS_PER_DAY: u64 = 86_400_000;
/// Days in one week.
pub const DAYS_PER_WEEK: u64 = 7;

/// A span of wall-clock time, in milliseconds.
#[derive(Clone, Copy, PartialEq, Eq, Structural, Debug)]
pub struct DurationMs {
    pub ms: u64,
}

/// Construction of time spans from calendar-sized units.
pub trait DurationExt: Sized {
    /// The span in milliseconds.
    spec fn spec_ms(&self) -> u64;

    fn from_days(days: u64) -> (r: Self)
        requires
            days * MS_PER_DAY <= u64::MAX,
        ensures
            r.spec_ms() == days * MS_PER_DAY,
    ;

    fn from_weeks(weeks: u64) -> (r: Self)
        requires
            weeks * DAYS_PER_WEEK * MS_PER_DAY <= u64::MAX,
        ensures
            r.spec_ms() == weeks * DAYS_PER_WEEK * MS_PER_DAY,
    ;
}

impl DurationExt for DurationMs {
    open spec fn spec_ms(&self) -> u64 {
        self.ms
    }

    fn from_days(days: u64) -> (r: Self)
    {
        DurationMs { ms: days * MS_PER_DAY }
    }

    fn from_weeks(weeks: u64) -> (r: Self)
    {
        DurationMs { ms: weeks * DAYS_PER_WEEK * MS_PER_DAY }
    }
}

/// The absolute cutoff timestamp for a time window: records strictly newer
/// than the cutoff fall inside the window. A window reaching back past the
/// epoch is clipped to the epoch.
pub fn window_cutoff(now_ms: u64, window: DurationMs) -> (r: u64)
    ensures
        r == spec_window_cutoff(now_ms, window.ms),
{
    if window.ms > now_ms {
        0
    } else {
        now_ms - window.ms
    }
}

/// Mathematical form of `window_cutoff`.
pub open spec fn spec_window_cutoff(now_ms: u64, window_ms: u64) -> u64 {
    if window_ms > now_ms {
        0
    } else {
        (now_ms - window_ms) as u64
    }
}

} // verus!
