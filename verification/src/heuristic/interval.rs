use vstd::prelude::*;

verus! {

/// A point in time of the heuristic solver (seconds).
pub type TimeValue = u32;

/// A half-open time interval `[time_start, time_end)`.
#[derive(Clone, Copy, PartialEq, Eq, Hash, PartialOrd, Ord, Debug)]
pub struct TimeInterval {
    pub time_start: TimeValue,
    pub time_end: TimeValue,
}

/// The interval that sorts after every other interval.
pub open spec fn interval_max_spec() -> TimeInterval {
    TimeInterval { time_start: TimeValue::MAX, time_end: TimeValue::MAX }
}

/// The interval that sorts after every other interval.
pub fn interval_max() -> (r: TimeInterval)
    ensures
        r == interval_max_spec(),
{
    TimeInterval { time_start: TimeValue::MAX, time_end: TimeValue::MAX }
}

/// The interval that sorts before every other interval.
pub fn interval_min() -> (r: TimeInterval)
    ensures
        r.time_start == 0 && r.time_end == 0,
{
    TimeInterval { time_start: 0, time_end: 0 }
}

/// Two intervals overlap when neither ends before the other starts.
pub open spec fn intervals_overlap(a: TimeInterval, b: TimeInterval) -> bool {
    !(a.time_end <= b.time_start || b.time_end <= a.time_start)
}

impl TimeInterval {
    /// The interval that starts at `start` and lasts `duration`.
    pub fn duration(start: TimeValue, duration: TimeValue) -> (r: TimeInterval)
        requires
            start + duration <= TimeValue::MAX,
        ensures
            r.time_start == start,
            r.time_end == start + duration,
    {
        TimeInterval { time_start: start, time_end: start + duration }
    }

    /// Whether the two intervals share a point of time.
    pub fn overlap(&self, other: &Self) -> (r: bool)
        ensures
            r == intervals_overlap(*self, *other),
    {
        !(self.time_end <= other.time_start || other.time_end <= self.time_start)
    }
}

impl Default for TimeInterval {
    fn default() -> (r: Self)
        ensures
            r == interval_max_spec(),
    {
        interval_max()
    }
}

} // verus!
