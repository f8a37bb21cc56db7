//! Spans and points of time, to the nanosecond.

use crate::model::Model;
use vstd::prelude::*;

verus! {

/// A span of time.
#[derive(Clone, Copy, Debug, PartialEq, Eq, Structural)]
pub struct Duration {
    pub nanos: u128,
}

impl Duration {
    pub fn from_nanos(nanos: u128) -> (span: Self)
        ensures
            span.nanos == nanos,
    {
        Duration { nanos }
    }

    pub fn from_millis(millis: u64) -> (span: Self)
        ensures
            span.nanos == millis * 1_000_000,
    {
        Duration { nanos: millis as u128 * 1_000_000 }
    }

    pub fn from_secs(secs: u64) -> (span: Self)
        ensures
            span.nanos == secs * 1_000_000_000,
    {
        Duration { nanos: secs as u128 * 1_000_000_000 }
    }

    /// The shorter of two spans.
    pub fn min(self, other: Self) -> (span: Self)
        ensures
            span.nanos == (if self.nanos <= other.nanos {
                self.nanos
            } else {
                other.nanos
            }),
    {
        if self.nanos <= other.nanos {
            self
        } else {
            other
        }
    }
}

/// A point of time, counted from the Unix epoch (before it: negative).
#[derive(Clone, Copy, Debug, PartialEq, Eq, Structural)]
pub struct SystemTime {
    pub nanos: i128,
}

impl SystemTime {
    /// Whether more than `span` has gone by from `start` to this point; a
    /// point before `start` has seen nothing of it go by.
    pub fn past(self, start: SystemTime, span: Duration) -> (b: bool)
        ensures
            b == (self.nanos >= start.nanos && self.nanos - start.nanos > span.nanos),
    {
        if self.nanos < start.nanos {
            return false;
        }
        if self.nanos >= 0 && start.nanos < 0 {
            let after: u128 = self.nanos as u128;
            let before: u128 = (-(start.nanos + 1)) as u128;
            // The distance is `after + before + 1`, which fits.
            after + before + 1 > span.nanos
        } else {
            (self.nanos - start.nanos) as u128 > span.nanos
        }
    }

    /// Whole milliseconds since the epoch, 0 for a point before it.
    pub fn millis_since_epoch(self) -> (millis: i128)
        ensures
            millis == (if self.nanos < 0 {
                0int
            } else {
                self.nanos as int / 1_000_000
            }),
    {
        if self.nanos < 0 {
            0
        } else {
            self.nanos / 1_000_000
        }
    }
}

/// The point of time that a batch's millisecond timestamp names; a negative
/// timestamp names none.
pub open spec fn time_of_timestamp(timestamp_ms: i64) -> Option<SystemTime> {
    if timestamp_ms < 0 {
        None
    } else {
        Some(SystemTime { nanos: (timestamp_ms * 1_000_000) as i128 })
    }
}

pub fn timestamp_to_system_time(timestamp_ms: i64) -> (time: Option<SystemTime>)
    ensures
        time == time_of_timestamp(timestamp_ms),
{
    if timestamp_ms < 0 {
        None
    } else {
        Some(SystemTime { nanos: timestamp_ms as i128 * 1_000_000 })
    }
}

impl Model for SystemTime {
    type V = SystemTime;

    open spec fn model(&self) -> SystemTime {
        *self
    }

    open spec fn wf(&self) -> bool {
        true
    }

    fn dup(&self) -> (copy: Self) {
        *self
    }
}

} // verus!
