use vstd::prelude::*;

verus! {

/// A wall-clock time of day at minute resolution.
#[derive(Clone, Copy, PartialEq, Eq, Structural, Debug)]
pub struct TimeOfDay {
    pub hour: u8,
    pub minute: u8,
}

impl TimeOfDay {
    /// A time of day lies on a 24-hour clock.
    pub open spec fn valid(self) -> bool {
        self.hour < 24 && self.minute < 60
    }

    /// The time as minutes since midnight.
    pub open spec fn spec_minutes(self) -> int {
        self.hour * 60 + self.minute
    }

    /// Builds a time of day, rejecting values off the 24-hour clock.
    pub fn new(hour: u8, minute: u8) -> (r: Option<TimeOfDay>)
        ensures
            match r {
                Some(t) => t.valid() && t.hour == hour && t.minute == minute,
                None => !(hour < 24 && minute < 60),
            },
    {
        if hour < 24 && minute < 60 {
            Some(TimeOfDay { hour, minute })
        } else {
            None
        }
    }

    /// Minutes since midnight.
    pub fn minutes(&self) -> (m: u16)
        requires
            self.valid(),
        ensures
            m == self.spec_minutes(),
    {
        (self.hour as u16) * 60 + (self.minute as u16)
    }

    pub open spec fn spec_le(self, other: TimeOfDay) -> bool {
        self.spec_minutes() <= other.spec_minutes()
    }

    /// Whether `self` is no later than `other`.
    pub fn le(&self, other: &TimeOfDay) -> (r: bool)
        requires
            self.valid(),
            other.valid(),
        ensures
            r == self.spec_le(*other),
    {
        self.hour < other.hour || (self.hour == other.hour && self.minute <= other.minute)
    }
}

/// A chain is in order when no adjacent pair of times is reversed.
pub open spec fn non_decreasing(s: Seq<TimeOfDay>) -> bool {
    forall|i: int|
        0 <= i && i + 1 < s.len() ==> #[trigger] s[i].spec_minutes() <= s[i + 1].spec_minutes()
}

/// A signed span of time in whole minutes; negative spans arise from
/// overtime accounting, never from a sign split across fields.
#[derive(Clone, Copy, PartialEq, Eq, Structural, Debug)]
pub struct TimeSpan {
    pub minutes: i64,
}

impl TimeSpan {
    pub fn zero() -> (r: TimeSpan)
        ensures
            r.minutes == 0,
    {
        TimeSpan { minutes: 0 }
    }
}

/// The span `end - start` between two times of the same day.
pub fn sub_times(end: &TimeOfDay, start: &TimeOfDay) -> (r: TimeSpan)
    requires
        end.valid(),
        start.valid(),
    ensures
        r.minutes == end.spec_minutes() - start.spec_minutes(),
{
    TimeSpan { minutes: (end.minutes() as i64) - (start.minutes() as i64) }
}

} // verus!
