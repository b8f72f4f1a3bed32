//! A plain model of proleptic Gregorian calendar dates and minute-precision
//! date-times. A date is a count of days since 0001-01-01 (day 0, a Monday),
//! so weekday arithmetic is plain modular arithmetic on the day number.

use vstd::prelude::*;
use vstd::arithmetic::div_mod::lemma_add_mod_noop;

verus! {

/// Upper bound on day numbers the library works with; large enough for any
/// realistic calendar date while leaving headroom for day arithmetic in u64.
pub const MAX_DAY: u64 = 0xFFFF_FFFF_FFFF;

/// A calendar date, as a number of days since 0001-01-01 of the proleptic
/// Gregorian calendar.
#[derive(Clone, Copy, PartialEq, Eq, Structural, Debug)]
pub struct Date {
    pub day: u64,
}

/// A date with a time of day, to minute precision.
#[derive(Clone, Copy, PartialEq, Eq, Structural, Debug)]
pub struct DateTime {
    pub date: Date,
    pub hour: u32,
    pub min: u32,
}

/// Weekday of a day number, numbered from Sunday: 0 is Sunday, 1 is Monday,
/// ..., 6 is Saturday. Day 0 (0001-01-01) is a Monday.
pub open spec fn wday_of_day(day: int) -> int {
    (day + 1) % 7
}

pub open spec fn is_leap_year(y: int) -> bool {
    (y % 4 == 0 && y % 100 != 0) || y % 400 == 0
}

/// Days in the months before month `m` (1-based) of year `y`.
pub open spec fn days_before_month(y: int, m: int) -> int {
    let base: int = if m == 1 {
        0
    } else if m == 2 {
        31
    } else if m == 3 {
        59
    } else if m == 4 {
        90
    } else if m == 5 {
        120
    } else if m == 6 {
        151
    } else if m == 7 {
        181
    } else if m == 8 {
        212
    } else if m == 9 {
        243
    } else if m == 10 {
        273
    } else if m == 11 {
        304
    } else {
        334
    };
    base + if m > 2 && is_leap_year(y) {
        1int
    } else {
        0int
    }
}

pub open spec fn days_in_month(y: int, m: int) -> int {
    if m == 2 {
        if is_leap_year(y) {
            29
        } else {
            28
        }
    } else if m == 4 || m == 6 || m == 9 || m == 11 {
        30
    } else {
        31
    }
}

pub open spec fn valid_ymd(y: int, m: int, d: int) -> bool {
    &&& 1 <= y <= 9999
    &&& 1 <= m <= 12
    &&& 1 <= d <= days_in_month(y, m)
}

/// The day number of a year-month-day date: whole years before `y`, with
/// Gregorian leap days, then whole months before `m`, then the days of the
/// current month.
pub open spec fn day_number(y: int, m: int, d: int) -> int {
    365 * (y - 1) + (y - 1) / 4 - (y - 1) / 100 + (y - 1) / 400 + days_before_month(y, m) + (d - 1)
}

impl Date {
    pub open spec fn valid(self) -> bool {
        self.day <= MAX_DAY
    }

    pub open spec fn wday(self) -> int {
        wday_of_day(self.day as int)
    }

    /// The date of a valid year-month-day triple.
    pub fn from_ymd(y: u32, m: u32, d: u32) -> (r: Date)
        requires
            valid_ymd(y as int, m as int, d as int),
        ensures
            r.day == day_number(y as int, m as int, d as int),
            r.valid(),
    {
        let yy: u64 = (y - 1) as u64;
        let before_month: u64 = {
            let base: u64 = if m == 1 {
                0
            } else if m == 2 {
                31
            } else if m == 3 {
                59
            } else if m == 4 {
                90
            } else if m == 5 {
                120
            } else if m == 6 {
                151
            } else if m == 7 {
                181
            } else if m == 8 {
                212
            } else if m == 9 {
                243
            } else if m == 10 {
                273
            } else if m == 11 {
                304
            } else {
                334
            };
            let leap: bool = (y % 4 == 0 && y % 100 != 0) || y % 400 == 0;
            if m > 2 && leap {
                base + 1
            } else {
                base
            }
        };
        let day: u64 = 365 * yy + yy / 4 + yy / 400 + before_month + (d - 1) as u64 - yy / 100;
        Date { day }
    }

    /// The next calendar day.
    pub fn succ(self) -> (r: Date)
        requires
            self.day < u64::MAX,
        ensures
            r.day == self.day + 1,
    {
        Date { day: self.day + 1 }
    }

    /// The weekday, numbered from Sunday (0) to Saturday (6).
    pub fn weekday(self) -> (w: u32)
        ensures
            w == self.wday(),
            w < 7,
    {
        proof {
            lemma_add_mod_noop(self.day as int, 1int, 7int);
        }
        (((self.day % 7) + 1) % 7) as u32
    }
}

/// Strict chronological order on date-times.
pub open spec fn dt_lt(a: DateTime, b: DateTime) -> bool {
    ||| a.date.day < b.date.day
    ||| (a.date.day == b.date.day && a.hour < b.hour)
    ||| (a.date.day == b.date.day && a.hour == b.hour && a.min < b.min)
}

pub open spec fn dt_le(a: DateTime, b: DateTime) -> bool {
    dt_lt(a, b) || a == b
}

impl DateTime {
    pub open spec fn valid(self) -> bool {
        self.date.valid() && self.hour < 24 && self.min < 60
    }

    pub fn new(date: Date, hour: u32, min: u32) -> (r: DateTime)
        ensures
            r == (DateTime { date, hour, min }),
    {
        DateTime { date, hour, min }
    }

    /// Chronological strict comparison.
    pub fn lt(&self, other: &DateTime) -> (r: bool)
        ensures
            r == dt_lt(*self, *other),
    {
        self.date.day < other.date.day || (self.date.day == other.date.day && (self.hour
            < other.hour || (self.hour == other.hour && self.min < other.min)))
    }

    /// Chronological non-strict comparison.
    pub fn le(&self, other: &DateTime) -> (r: bool)
        ensures
            r == dt_le(*self, *other),
    {
        !other.lt(self)
    }
}

} // verus!
