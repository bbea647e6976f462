//! Plain calendar values with minute resolution.
//!
//! The log format has no time zone and no seconds, so a timestamp is held
//! directly as its year/month/day/hour/minute components (proleptic
//! Gregorian calendar), and chronological order is lexicographic order on
//! those components.

use vstd::prelude::*;

verus! {

/// A calendar date, held as plain year/month/day values.
#[derive(Clone, Copy, PartialEq, Eq, Structural, Debug)]
pub struct Date {
    pub year: u16,
    pub month: u8,
    pub day: u8,
}

/// A timestamp with minute resolution: the moment an activity ended.
#[derive(Clone, Copy, PartialEq, Eq, Structural, Debug)]
pub struct DateTime {
    pub year: u16,
    pub month: u8,
    pub day: u8,
    pub hour: u8,
    pub minute: u8,
}

pub open spec fn is_leap_year(y: int) -> bool {
    y % 4 == 0 && (y % 100 != 0 || y % 400 == 0)
}

pub open spec fn days_in_month(y: int, m: int) -> int {
    if m == 2 {
        if is_leap_year(y) {
            29
        } else {
            28
        }
    } else if m == 4 || m == 6 || m == 9 || m == 11 {
        30
    } else {
        31
    }
}

/// Executable counterpart of `days_in_month`.
pub fn month_length(y: u16, m: u8) -> (r: u8)
    requires
        1 <= m <= 12,
    ensures
        r as int == days_in_month(y as int, m as int),
{
    if m == 2 {
        if y % 4 == 0 && (y % 100 != 0 || y % 400 == 0) {
            29
        } else {
            28
        }
    } else if m == 4 || m == 6 || m == 9 || m == 11 {
        30
    } else {
        31
    }
}

impl Date {
    /// A well-formed calendar date that the four-digit-year log format can hold.
    pub open spec fn valid(self) -> bool {
        &&& self.year <= 9999
        &&& 1 <= self.month <= 12
        &&& self.day >= 1
        &&& self.day as int <= days_in_month(self.year as int, self.month as int)
    }
}

impl DateTime {
    pub open spec fn spec_date(self) -> Date {
        Date { year: self.year, month: self.month, day: self.day }
    }

    /// The calendar-date component of this timestamp.
    pub fn date(&self) -> (d: Date)
        ensures
            d == self.spec_date(),
    {
        Date { year: self.year, month: self.month, day: self.day }
    }

    /// A well-formed timestamp that the log format can hold.
    pub open spec fn valid(self) -> bool {
        &&& self.spec_date().valid()
        &&& self.hour <= 23
        &&& self.minute <= 59
    }

    /// Chronological order: lexicographic on (year, month, day, hour, minute).
    pub open spec fn spec_le(self, other: DateTime) -> bool {
        if self.year != other.year {
            self.year < other.year
        } else if self.month != other.month {
            self.month < other.month
        } else if self.day != other.day {
            self.day < other.day
        } else if self.hour != other.hour {
            self.hour < other.hour
        } else {
            self.minute <= other.minute
        }
    }

    /// Executable chronological comparison: `self` is not later than `other`.
    pub fn le(&self, other: &DateTime) -> (r: bool)
        ensures
            r == self.spec_le(*other),
    {
        if self.year != other.year {
            self.year < other.year
        } else if self.month != other.month {
            self.month < other.month
        } else if self.day != other.day {
            self.day < other.day
        } else if self.hour != other.hour {
            self.hour < other.hour
        } else {
            self.minute <= other.minute
        }
    }
}

} // verus!
