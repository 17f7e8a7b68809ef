//! The proleptic Gregorian calendar over the representable span: conversion
//! between instants and civil date-time fields, weekdays, and the three
//! summary windows — day, pay week (Saturday through Friday), and month.

use vstd::prelude::*;

use crate::time::{MAX_TS, SECS_PER_DAY, Timestamp};

verus! {

/// Days from 1970-01-01 to the last representable day, 9999-12-31.
pub const MAX_EPOCH_DAY: i64 = 2932896;

/// The weekday number of Saturday (Sunday is 0).
pub const SATURDAY: i64 = 6;

/// A year with a leap day.
pub open spec fn spec_is_leap_year(y: int) -> bool {
    y % 4 == 0 && (y % 100 != 0 || y % 400 == 0)
}

/// Days in a year.
pub open spec fn spec_days_in_year(y: int) -> int {
    if spec_is_leap_year(y) {
        366
    } else {
        365
    }
}

/// Days in a month.
pub open spec fn spec_days_in_month(y: int, m: int) -> int {
    if m == 1 {
        31
    } else if m == 2 {
        if spec_is_leap_year(y) {
            29
        } else {
            28
        }
    } else if m == 3 {
        31
    } else if m == 4 {
        30
    } else if m == 5 {
        31
    } else if m == 6 {
        30
    } else if m == 7 {
        31
    } else if m == 8 {
        31
    } else if m == 9 {
        30
    } else if m == 10 {
        31
    } else if m == 11 {
        30
    } else {
        31
    }
}

/// Days from 1970-01-01 to the first day of year `y`.
pub open spec fn days_before_year(y: int) -> int
    decreases y,
{
    if y <= 1970 {
        0
    } else {
        days_before_year(y - 1) + spec_days_in_year(y - 1)
    }
}

/// Days from the first of January to the first of month `m` in year `y`.
pub open spec fn days_before_month(y: int, m: int) -> int
    decreases m,
{
    if m <= 1 {
        0
    } else {
        days_before_month(y, m - 1) + spec_days_in_month(y, m - 1)
    }
}

/// The civil date is one this calendar represents.
pub open spec fn valid_civil_date(y: int, m: int, d: int) -> bool {
    &&& 1970 <= y <= 9999
    &&& 1 <= m <= 12
    &&& 1 <= d <= spec_days_in_month(y, m)
}

/// Days since 1970-01-01 of the civil date `y`-`m`-`d`.
pub open spec fn spec_epoch_days(y: int, m: int, d: int) -> int {
    days_before_year(y) + days_before_month(y, m) + (d - 1)
}

/// The weekday of a day number, with Sunday as 0 (so Saturday is 6):
/// 1970-01-01, day zero, was a Thursday.
pub open spec fn spec_weekday_of_day(d: int) -> int {
    (d + 4) % 7
}

/// Whether year `y` has a leap day.
pub fn is_leap_year(y: i32) -> (r: bool)
    requires
        0 <= y,
    ensures
        r == spec_is_leap_year(y as int),
{
    y % 4 == 0 && (y % 100 != 0 || y % 400 == 0)
}

/// The number of days in month `m` of year `y`.
pub fn days_in_month(y: i32, m: i32) -> (r: i32)
    requires
        0 <= y,
        1 <= m <= 12,
    ensures
        r == spec_days_in_month(y as int, m as int),
        28 <= r <= 31,
{
    if m == 2 {
        if is_leap_year(y) {
            29
        } else {
            28
        }
    } else if m == 4 || m == 6 || m == 9 || m == 11 {
        30
    } else {
        31
    }
}

/// The number of days in year `y`.
fn days_in_year(y: i32) -> (r: i32)
    requires
        0 <= y,
    ensures
        r == spec_days_in_year(y as int),
{
    if is_leap_year(y) {
        366
    } else {
        365
    }
}

/// The months of a year hold as many days as the year.
proof fn lemma_year_months_sum(y: int)
    ensures
        days_before_month(y, 13) == spec_days_in_year(y),
{
    reveal_with_fuel(days_before_month, 13);
}

/// No month starts before the year does.
proof fn lemma_days_before_month_nonneg(y: int, m: int)
    requires
        1 <= m <= 13,
    ensures
        0 <= days_before_month(y, m),
    decreases m,
{
    if m > 1 {
        lemma_days_before_month_nonneg(y, m - 1);
    }
}

/// `days_before_month` grows with the month.
proof fn lemma_days_before_month_bounds(y: int, m: int)
    requires
        1 <= m <= 12,
    ensures
        0 <= days_before_month(y, m),
        days_before_month(y, m) + spec_days_in_month(y, m) <= spec_days_in_year(y),
    decreases 13 - m,
{
    lemma_days_before_month_nonneg(y, m);
    if m == 12 {
        lemma_year_months_sum(y);
    } else {
        lemma_days_before_month_bounds(y, m + 1);
    }
}

/// Leap years from 1970 (inclusive) to year `y` (exclusive).
pub open spec fn num_leaps_before(y: int) -> int {
    (y - 1) / 4 - (y - 1) / 100 + (y - 1) / 400 - 477
}

/// Dividing by `d` steps up by one exactly at the multiples of `d`.
proof fn lemma_div_step(a: int, d: int)
    requires
        d > 0,
    ensures
        a / d - (a - 1) / d == if a % d == 0 {
            1int
        } else {
            0int
        },
{
    vstd::arithmetic::div_mod::lemma_fundamental_div_mod(a, d);
    let q = a / d;
    let r = a % d;
    vstd::arithmetic::div_mod::lemma_mod_bound(a, d);
    if r == 0 {
        assert(a - 1 == (q - 1) * d + (d - 1)) by (nonlinear_arith)
            requires
                a == d * q + r,
                r == 0,
        ;
        vstd::arithmetic::div_mod::lemma_fundamental_div_mod_converse(a - 1, d, q - 1, d - 1);
    } else {
        assert(a - 1 == q * d + (r - 1)) by (nonlinear_arith)
            requires
                a == d * q + r,
        ;
        vstd::arithmetic::div_mod::lemma_fundamental_div_mod_converse(a - 1, d, q, r - 1);
    }
}

/// The recursive day count before a year equals its closed form.
proof fn lemma_days_before_year_value(y: int)
    requires
        1970 <= y <= 10000,
    ensures
        days_before_year(y) == 365 * (y - 1970) + num_leaps_before(y),
    decreases y,
{
    if y == 1970 {
    } else {
        lemma_days_before_year_value(y - 1);
        lemma_div_step(y - 1, 4);
        lemma_div_step(y - 1, 100);
        lemma_div_step(y - 1, 400);
        assert((y - 1) % 4 == 0 && (y - 1) % 100 != 0 ==> spec_is_leap_year(y - 1));
        assert((y - 1) % 400 == 0 ==> (y - 1) % 100 == 0 && (y - 1) % 4 == 0) by {
            if (y - 1) % 400 == 0 {
                let k = (y - 1) / 400;
                vstd::arithmetic::div_mod::lemma_fundamental_div_mod(y - 1, 400);
                assert(y - 1 == 400 * k);
                vstd::arithmetic::div_mod::lemma_mod_multiples_basic(4 * k, 100);
                assert(y - 1 == 100 * (4 * k)) by (nonlinear_arith)
                    requires
                        y - 1 == 400 * k,
                ;
                vstd::arithmetic::div_mod::lemma_mod_multiples_basic(25 * k, 4);
                assert(y - 1 == 4 * (100 * k)) by (nonlinear_arith)
                    requires
                        y - 1 == 400 * k,
                ;
                vstd::arithmetic::div_mod::lemma_mod_multiples_basic(100 * k, 4);
            }
        }
        assert((y - 1) % 100 == 0 ==> (y - 1) % 4 == 0) by {
            if (y - 1) % 100 == 0 {
                let k = (y - 1) / 100;
                vstd::arithmetic::div_mod::lemma_fundamental_div_mod(y - 1, 100);
                assert(y - 1 == 4 * (25 * k)) by (nonlinear_arith)
                    requires
                        y - 1 == 100 * k,
                ;
                vstd::arithmetic::div_mod::lemma_mod_multiples_basic(25 * k, 4);
            }
        }
    }
}

/// The whole representable span holds `MAX_EPOCH_DAY + 1` days.
proof fn lemma_days_before_year_10000()
    ensures
        days_before_year(10000) == MAX_EPOCH_DAY + 1,
{
    lemma_days_before_year_value(10000);
}

/// `days_before_year` grows with the year.
pub proof fn lemma_days_before_year_monotone(y1: int, y2: int)
    requires
        y1 <= y2,
    ensures
        days_before_year(y1) <= days_before_year(y2),
    decreases y2 - y1,
{
    if y1 < y2 {
        lemma_days_before_year_monotone(y1, y2 - 1);
    }
}

/// The day count of a valid civil date lies within the representable span.
pub proof fn lemma_epoch_days_in_span(y: int, m: int, d: int)
    requires
        valid_civil_date(y, m, d),
    ensures
        0 <= spec_epoch_days(y, m, d) <= MAX_EPOCH_DAY,
        spec_epoch_days(y, m, d) < days_before_year(y + 1),
        days_before_year(y) <= spec_epoch_days(y, m, d),
{
    lemma_days_before_month_bounds(y, m);
    lemma_days_before_year_monotone(1970, y);
    assert(spec_epoch_days(y, m, d) < days_before_year(y) + spec_days_in_year(y));
    lemma_days_before_year_monotone(y + 1, 10000);
    lemma_days_before_year_10000();
}

/// Days since 1970-01-01 of the civil date `y`-`m`-`d`.
pub fn days_from_civil(y: i32, m: i32, d: i32) -> (r: i64)
    requires
        valid_civil_date(y as int, m as int, d as int),
    ensures
        r == spec_epoch_days(y as int, m as int, d as int),
        0 <= r <= MAX_EPOCH_DAY,
{
    proof {
        lemma_epoch_days_in_span(y as int, m as int, d as int);
    }
    let mut acc: i64 = 0;
    let mut yy: i32 = 1970;
    while yy < y
        invariant
            1970 <= yy <= y,
            y <= 9999,
            acc == days_before_year(yy as int),
            acc <= MAX_EPOCH_DAY,
        decreases y - yy,
    {
        proof {
            lemma_days_before_year_monotone(yy as int + 1, y as int);
            lemma_epoch_days_in_span(y as int, 1, 1);
        }
        acc = acc + days_in_year(yy) as i64;
        yy = yy + 1;
    }
    let mut mm: i32 = 1;
    while mm < m
        invariant
            1 <= mm <= m,
            m <= 12,
            1970 <= y <= 9999,
            acc == days_before_year(y as int) + days_before_month(y as int, mm as int),
            acc <= MAX_EPOCH_DAY + 366,
        decreases m - mm,
    {
        proof {
            lemma_days_before_month_bounds(y as int, mm as int);
            lemma_days_before_month_bounds(y as int, m as int);
            lemma_epoch_days_in_span(y as int, 1, 1);
            lemma_days_before_year_monotone(y as int + 1, 10000);
            lemma_days_before_year_10000();
            assert(days_before_year(y as int) + spec_days_in_year(y as int) <= MAX_EPOCH_DAY + 1);
        }
        acc = acc + days_in_month(y, mm) as i64;
        mm = mm + 1;
    }
    acc + (d as i64 - 1)
}

/// The civil date `(year, month, day)` of a day count since 1970-01-01.
pub fn civil_from_days(days: i64) -> (r: (i32, i32, i32))
    requires
        0 <= days <= MAX_EPOCH_DAY,
    ensures
        valid_civil_date(r.0 as int, r.1 as int, r.2 as int),
        spec_epoch_days(r.0 as int, r.1 as int, r.2 as int) == days,
{
    let mut y: i32 = 1970;
    let mut rem: i64 = days;
    proof {
        lemma_days_before_year_10000();
    }
    while rem >= days_in_year(y) as i64
        invariant
            1970 <= y <= 9999,
            days_before_year(y as int) + rem == days,
            0 <= rem,
            days <= MAX_EPOCH_DAY,
            days_before_year(10000) == MAX_EPOCH_DAY + 1,
        decreases MAX_EPOCH_DAY - days_before_year(y as int),
    {
        proof {
            assert(y as int + 1 <= 9999) by {
                if y as int + 1 == 10000 {
                    assert(days_before_year(10000) <= days);
                }
            }
            lemma_days_before_year_monotone(1970, y as int);
        }
        rem = rem - days_in_year(y) as i64;
        y = y + 1;
    }
    let mut m: i32 = 1;
    while m < 12 && rem >= days_in_month(y, m) as i64
        invariant
            1 <= m <= 12,
            1970 <= y <= 9999,
            days_before_year(y as int) + days_before_month(y as int, m as int) + rem == days,
            0 <= rem,
            rem < spec_days_in_year(y as int) - days_before_month(y as int, m as int),
        decreases 12 - m,
    {
        proof {
            lemma_days_before_month_bounds(y as int, m as int + 1);
        }
        rem = rem - days_in_month(y, m) as i64;
        m = m + 1;
    }
    proof {
        assert(rem < spec_days_in_month(y as int, m as int)) by {
            if m == 12 {
                lemma_year_months_sum(y as int);
            }
        }
    }
    (y, m, (rem + 1) as i32)
}

/// The civil fields `(year, month, day, hour, minute, second)` of an instant.
pub fn civil_from_timestamp(t: Timestamp) -> (r: (i32, i32, i32, i32, i32, i32))
    requires
        t.wf(),
    ensures
        valid_civil_date(r.0 as int, r.1 as int, r.2 as int),
        spec_epoch_days(r.0 as int, r.1 as int, r.2 as int) == t.spec_epoch_day(),
        0 <= r.3 < 24,
        0 <= r.4 < 60,
        0 <= r.5 < 60,
        r.3 * 3600 + r.4 * 60 + r.5 == t.spec_second_of_day(),
{
    let days = t.seconds / SECS_PER_DAY;
    let sod = t.seconds % SECS_PER_DAY;
    proof {
        assert(days <= MAX_EPOCH_DAY && 0 <= sod < 86400) by {
            vstd::arithmetic::div_mod::lemma_fundamental_div_mod(t.seconds as int, 86400);
            assert(MAX_TS == (MAX_EPOCH_DAY + 1) * 86400 - 1);
        }
    }
    let (y, m, d) = civil_from_days(days);
    let h = (sod / 3600) as i32;
    let rem = sod % 3600;
    let mi = (rem / 60) as i32;
    let s = (rem % 60) as i32;
    proof {
        vstd::arithmetic::div_mod::lemma_fundamental_div_mod(sod as int, 3600);
        vstd::arithmetic::div_mod::lemma_fundamental_div_mod(rem as int, 60);
    }
    (y, m, d, h, mi, s)
}

/// The day window around `now`: from its UTC midnight to the next midnight.
/// Both window ends are returned as instants; the span is one whole day.
pub fn current_day_range(now: Timestamp) -> (r: (Timestamp, Timestamp))
    requires
        now.wf(),
        now.spec_epoch_day() < MAX_EPOCH_DAY,
    ensures
        r.0.wf(),
        r.1.wf(),
        r.0.seconds == now.spec_epoch_day() * 86400,
        r.1.seconds == r.0.seconds + 86400,
        r.0.seconds <= now.seconds < r.1.seconds,
{
    let day = now.seconds / SECS_PER_DAY;
    proof {
        vstd::arithmetic::div_mod::lemma_fundamental_div_mod(now.seconds as int, 86400);
        vstd::arithmetic::div_mod::lemma_mod_bound(now.seconds as int, 86400);
    }
    let start = Timestamp { seconds: day * SECS_PER_DAY };
    let end = Timestamp { seconds: start.seconds + SECS_PER_DAY };
    (start, end)
}

/// The pay-week window around `now`: from the most recent Saturday at
/// 00:00:00 UTC through the following Friday at 23:59:59 UTC.
pub fn current_week_range(now: Timestamp) -> (r: (Timestamp, Timestamp))
    requires
        now.wf(),
        2 <= now.spec_epoch_day() <= MAX_EPOCH_DAY - 6,
    ensures
        r.0.wf(),
        r.1.wf(),
        spec_weekday_of_day(r.0.seconds as int / 86400) == SATURDAY,
        r.0.seconds % 86400 == 0,
        r.0.seconds <= now.seconds,
        now.spec_epoch_day() < r.0.seconds as int / 86400 + 7,
        r.1.seconds == r.0.seconds + 6 * 86400 + 86399,
{
    let today = now.seconds / SECS_PER_DAY;
    proof {
        vstd::arithmetic::div_mod::lemma_fundamental_div_mod(now.seconds as int, 86400);
        vstd::arithmetic::div_mod::lemma_mod_bound(now.seconds as int, 86400);
    }
    let wd = (today + 4) % 7;
    proof {
        vstd::arithmetic::div_mod::lemma_fundamental_div_mod(today as int + 4, 7);
        vstd::arithmetic::div_mod::lemma_mod_bound(today as int + 4, 7);
    }
    let days_back = if wd == 6 {
        0
    } else {
        (wd + 1) % 7
    };
    proof {
        if wd != 6 {
            vstd::arithmetic::div_mod::lemma_small_mod((wd + 1) as nat, 7);
        }
    }
    let sat = today - days_back;
    proof {
        let q = (today as int + 4) / 7;
        if wd == 6 {
            assert(sat as int + 4 == 7 * q + 6);
            vstd::arithmetic::div_mod::lemma_fundamental_div_mod_converse(sat as int + 4, 7, q, 6);
        } else {
            assert(today as int + 4 >= 7) by {
                if q == 0 {
                    assert(today as int + 4 == wd);
                    assert(today >= 2);
                }
            }
            assert(sat as int + 4 == 7 * (q - 1) + 6) by {
                assert(sat as int + 4 == 7 * q + wd - wd - 1);
                assert(7 * (q - 1) == 7 * q - 7) by (nonlinear_arith);
            }
            vstd::arithmetic::div_mod::lemma_fundamental_div_mod_converse(
                sat as int + 4,
                7,
                q - 1,
                6,
            );
        }
        assert(sat * 86400 <= now.seconds);
        assert((sat * 86400) as int / 86400 == sat as int) by {
            vstd::arithmetic::div_mod::lemma_fundamental_div_mod_converse(
                (sat * 86400) as int,
                86400,
                sat as int,
                0,
            );
        }
        assert((sat * 86400) as int % 86400 == 0) by {
            vstd::arithmetic::div_mod::lemma_fundamental_div_mod_converse(
                (sat * 86400) as int,
                86400,
                sat as int,
                0,
            );
        }
    }
    let start = Timestamp { seconds: sat * SECS_PER_DAY };
    let end = Timestamp { seconds: start.seconds + 6 * SECS_PER_DAY + 86399 };
    proof {
        assert(end.seconds == (sat + 6) * 86400 + 86399) by (nonlinear_arith)
            requires
                end.seconds == sat * 86400 + 6 * 86400 + 86399,
        ;
        assert(end.seconds <= MAX_TS) by {
            assert((sat + 6) * 86400 <= MAX_EPOCH_DAY * 86400) by (nonlinear_arith)
                requires
                    sat + 6 <= MAX_EPOCH_DAY,
                    0 <= sat,
            ;
            assert(MAX_TS == (MAX_EPOCH_DAY + 1) * 86400 - 1);
        }
    }
    (start, end)
}

/// The month window around `now`: from the first of its month at 00:00:00 UTC
/// through the last day of that month at 23:59:59 UTC. Month lengths and the
/// December-to-January rollover follow the calendar.
pub fn current_month_range(now: Timestamp) -> (r: (Timestamp, Timestamp))
    requires
        now.wf(),
    ensures
        r.0.wf(),
        r.1.wf(),
        ({
            let y = spec_year_of(now);
            let m = spec_month_of(now);
            &&& r.0.seconds == spec_epoch_days(y, m, 1) * 86400
            &&& r.1.seconds == spec_epoch_days(y, m, spec_days_in_month(y, m)) * 86400 + 86399
        }),
        r.0.seconds <= now.seconds <= r.1.seconds,
{
    let (y, m, d, _h, _mi, _s) = civil_from_timestamp(now);
    let last = days_in_month(y, m);
    let start = timestamp_from_civil(y, m, 1, 0, 0, 0);
    let end = timestamp_from_civil(y, m, last, 23, 59, 59);
    proof {
        let yv = y as int;
        let mv = m as int;
        assert(spec_year_of(now) == yv && spec_month_of(now) == mv) by {
            lemma_civil_of_day_unique(now.spec_epoch_day(), yv, mv, d as int);
            let c = (yv, mv, d as int);
            assert(valid_civil_date(c.0, c.1, c.2) && spec_epoch_days(c.0, c.1, c.2)
                == now.spec_epoch_day());
            let w = spec_civil_of(now);
            assert(valid_civil_date(w.0, w.1, w.2) && spec_epoch_days(w.0, w.1, w.2)
                == now.spec_epoch_day());
        }
        assert(start.seconds <= now.seconds) by {
            assert(spec_epoch_days(yv, mv, 1) <= now.spec_epoch_day());
            assert(spec_epoch_days(yv, mv, 1) * 86400 <= now.spec_epoch_day() * 86400)
                by (nonlinear_arith)
                requires
                    spec_epoch_days(yv, mv, 1) <= now.spec_epoch_day(),
            ;
            vstd::arithmetic::div_mod::lemma_fundamental_div_mod(now.seconds as int, 86400);
            vstd::arithmetic::div_mod::lemma_mod_bound(now.seconds as int, 86400);
        }
        assert(now.seconds <= end.seconds) by {
            assert(now.spec_epoch_day() <= spec_epoch_days(yv, mv, spec_days_in_month(yv, mv)));
            assert(now.spec_epoch_day() * 86400 <= spec_epoch_days(
                yv,
                mv,
                spec_days_in_month(yv, mv),
            ) * 86400) by (nonlinear_arith)
                requires
                    now.spec_epoch_day() <= spec_epoch_days(yv, mv, spec_days_in_month(yv, mv)),
            ;
            vstd::arithmetic::div_mod::lemma_fundamental_div_mod(now.seconds as int, 86400);
            vstd::arithmetic::div_mod::lemma_mod_bound(now.seconds as int, 86400);
        }
    }
    (start, end)
}

/// The civil date an instant falls on, as a `(year, month, day)` triple.
pub open spec fn spec_civil_of(t: Timestamp) -> (int, int, int) {
    choose|c: (int, int, int)|
        valid_civil_date(c.0, c.1, c.2) && spec_epoch_days(c.0, c.1, c.2) == t.spec_epoch_day()
}

/// The calendar year an instant falls in.
pub open spec fn spec_year_of(t: Timestamp) -> int {
    spec_civil_of(t).0
}

/// The calendar month an instant falls in.
pub open spec fn spec_month_of(t: Timestamp) -> int {
    spec_civil_of(t).1
}

/// Each day number has one civil date.
proof fn lemma_civil_of_day_unique(day: int, y: int, m: int, d: int)
    requires
        valid_civil_date(y, m, d),
        spec_epoch_days(y, m, d) == day,
    ensures
        forall|y2: int, m2: int, d2: int|
            valid_civil_date(y2, m2, d2) && spec_epoch_days(y2, m2, d2) == day ==> y2 == y && m2
                == m && d2 == d,
{
    assert forall|y2: int, m2: int, d2: int|
        valid_civil_date(y2, m2, d2) && spec_epoch_days(y2, m2, d2) == day implies y2 == y && m2
        == m && d2 == d by {
        lemma_epoch_days_in_span(y, m, d);
        lemma_epoch_days_in_span(y2, m2, d2);
        assert(y2 == y) by {
            if y2 < y {
                lemma_days_before_year_monotone(y2 + 1, y);
            }
            if y < y2 {
                lemma_days_before_year_monotone(y + 1, y2);
            }
        }
        assert(m2 == m) by {
            if m2 < m {
                lemma_month_offsets_separate(y, m2, m);
            }
            if m < m2 {
                lemma_month_offsets_separate(y, m, m2);
            }
            lemma_days_before_month_bounds(y, m);
            lemma_days_before_month_bounds(y, m2);
        }
    }
}

/// Every day of the representable span has a civil date.
pub proof fn lemma_civil_exists(day: int)
    requires
        0 <= day <= MAX_EPOCH_DAY,
    ensures
        exists|c: (int, int, int)|
            valid_civil_date(c.0, c.1, c.2) && spec_epoch_days(c.0, c.1, c.2) == day,
    decreases day,
{
    if day == 0 {
        let c = (1970int, 1int, 1int);
        assert(valid_civil_date(c.0, c.1, c.2) && spec_epoch_days(c.0, c.1, c.2) == 0);
    } else {
        lemma_civil_exists(day - 1);
        let p = choose|c: (int, int, int)|
            valid_civil_date(c.0, c.1, c.2) && spec_epoch_days(c.0, c.1, c.2) == day - 1;
        let (y, m, d) = p;
        if d < spec_days_in_month(y, m) {
            let c = (y, m, d + 1);
            assert(valid_civil_date(c.0, c.1, c.2) && spec_epoch_days(c.0, c.1, c.2) == day);
        } else if m < 12 {
            let c = (y, m + 1, 1int);
            assert(days_before_month(y, m + 1) == days_before_month(y, m) + spec_days_in_month(
                y,
                m,
            ));
            assert(valid_civil_date(c.0, c.1, c.2) && spec_epoch_days(c.0, c.1, c.2) == day);
        } else {
            let c = (y + 1, 1int, 1int);
            lemma_year_months_sum(y);
            assert(days_before_month(y, 13) == days_before_month(y, 12) + spec_days_in_month(
                y,
                12,
            ));
            assert(days_before_year(y + 1) == days_before_year(y) + spec_days_in_year(y));
            assert(spec_epoch_days(c.0, c.1, c.2) == day);
            assert(y + 1 <= 9999) by {
                if y + 1 == 10000 {
                    lemma_days_before_year_10000();
                    assert(days_before_year(10000) == day);
                }
            }
            assert(valid_civil_date(c.0, c.1, c.2));
        }
    }
}

/// The civil date of an instant's day is the one its fields spell.
pub proof fn lemma_civil_of(t: Timestamp, y: int, m: int, d: int)
    requires
        valid_civil_date(y, m, d),
        spec_epoch_days(y, m, d) == t.spec_epoch_day(),
    ensures
        spec_civil_of(t) == (y, m, d),
{
    let c = (y, m, d);
    assert(valid_civil_date(c.0, c.1, c.2) && spec_epoch_days(c.0, c.1, c.2)
        == t.spec_epoch_day());
    let w = spec_civil_of(t);
    assert(valid_civil_date(w.0, w.1, w.2) && spec_epoch_days(w.0, w.1, w.2)
        == t.spec_epoch_day());
    lemma_civil_of_day_unique(t.spec_epoch_day(), y, m, d);
}

/// An earlier month's days all precede a later month's first day.
pub proof fn lemma_month_offsets_separate(y: int, m1: int, m2: int)
    requires
        1 <= m1 < m2 <= 12,
    ensures
        days_before_month(y, m1) + spec_days_in_month(y, m1) <= days_before_month(y, m2),
    decreases m2 - m1,
{
    if m1 + 1 < m2 {
        lemma_month_offsets_separate(y, m1 + 1, m2);
        lemma_days_before_month_nonneg(y, m1 + 1);
    }
}

/// The instant of the civil date-time `y`-`m`-`d` `h`:`mi`:`s` UTC.
pub fn timestamp_from_civil(y: i32, m: i32, d: i32, h: i32, mi: i32, s: i32) -> (r: Timestamp)
    requires
        valid_civil_date(y as int, m as int, d as int),
        0 <= h < 24,
        0 <= mi < 60,
        0 <= s < 60,
    ensures
        r.wf(),
        r.seconds == spec_epoch_days(y as int, m as int, d as int) * 86400 + h * 3600 + mi * 60
            + s,
        r.spec_epoch_day() == spec_epoch_days(y as int, m as int, d as int),
        r.spec_second_of_day() == h * 3600 + mi * 60 + s,
{
    let days = days_from_civil(y, m, d);
    let sod: i64 = (h as i64) * 3600 + (mi as i64) * 60 + (s as i64);
    let seconds = days * SECS_PER_DAY + sod;
    proof {
        assert(seconds <= MAX_TS) by {
            assert(days * 86400 <= MAX_EPOCH_DAY * 86400) by (nonlinear_arith)
                requires
                    days <= MAX_EPOCH_DAY,
                    0 <= days,
            ;
        }
        assert(seconds / 86400 == days && seconds % 86400 == sod) by {
            vstd::arithmetic::div_mod::lemma_fundamental_div_mod_converse(
                seconds as int,
                86400,
                days as int,
                sod as int,
            );
        }
    }
    Timestamp { seconds }
}

} // verus!
