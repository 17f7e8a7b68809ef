//! Instants and elapsed time.
//!
//! An instant is a whole number of seconds since 1970-01-01T00:00:00 UTC,
//! restricted to the years 1970 through 9999 so that every instant has a
//! fixed-width textual form. Elapsed time is a signed number of seconds:
//! a manual offset patched onto a session may make it negative.

use vstd::prelude::*;

verus! {

/// Seconds in one day.
pub const SECS_PER_DAY: i64 = 86400;

/// The last representable instant, 9999-12-31T23:59:59 UTC.
pub const MAX_TS: i64 = 253402300799;

/// An instant in time: whole seconds since 1970-01-01T00:00:00 UTC.
#[derive(Clone, Copy, Debug, PartialEq, Eq, Structural)]
pub struct Timestamp {
    pub seconds: i64,
}

impl Timestamp {
    /// The instant lies within the representable span (years 1970..=9999).
    pub open spec fn wf(self) -> bool {
        0 <= self.seconds <= MAX_TS
    }

    /// The calendar day this instant falls on, as days since 1970-01-01.
    pub open spec fn spec_epoch_day(self) -> int {
        self.seconds as int / SECS_PER_DAY as int
    }

    /// The second of the day, in 0..86400.
    pub open spec fn spec_second_of_day(self) -> int {
        self.seconds as int % SECS_PER_DAY as int
    }

    pub fn new(seconds: i64) -> (r: Timestamp)
        requires
            0 <= seconds <= MAX_TS,
        ensures
            r.seconds == seconds,
            r.wf(),
    {
        Timestamp { seconds }
    }

    /// The calendar day this instant falls on, as days since 1970-01-01.
    pub fn epoch_day(&self) -> (r: i64)
        requires
            self.wf(),
        ensures
            r == self.spec_epoch_day(),
    {
        self.seconds / SECS_PER_DAY
    }
}

/// A signed span of elapsed time, in whole seconds.
#[derive(Clone, Copy, Debug, PartialEq, Eq, Structural)]
pub struct TimeDelta {
    pub seconds: i64,
}

/// Signed division truncating toward zero, as the executable `/` does on
/// machine integers.
pub open spec fn trunc_div(a: int, b: int) -> int {
    if a >= 0 {
        a / b
    } else {
        -((-a) / b)
    }
}

impl TimeDelta {
    /// Whole minutes, truncated toward zero.
    pub fn num_minutes(&self) -> (r: i64)
        requires
            -0x4000_0000_0000_0000 < self.seconds < 0x4000_0000_0000_0000,
        ensures
            r == trunc_div(self.seconds as int, 60),
    {
        if self.seconds >= 0 {
            self.seconds / 60
        } else {
            -((-self.seconds) / 60)
        }
    }

    /// Whole hours, truncated toward zero.
    pub fn num_hours(&self) -> (r: i64)
        requires
            -0x4000_0000_0000_0000 < self.seconds < 0x4000_0000_0000_0000,
        ensures
            r == trunc_div(self.seconds as int, 3600),
    {
        if self.seconds >= 0 {
            self.seconds / 3600
        } else {
            -((-self.seconds) / 3600)
        }
    }
}

/// Splits a non-negative count of minutes into whole hours and leftover
/// minutes.
pub fn split_minutes(total_minutes: u32) -> (r: (u32, u32))
    ensures
        r.0 == total_minutes as int / 60,
        r.1 == total_minutes as int % 60,
        r.0 * 60 + r.1 == total_minutes,
        r.1 < 60,
{
    let hours = total_minutes / 60;
    let minutes = total_minutes % 60;
    (hours, minutes)
}

} // verus!
