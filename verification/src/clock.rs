//! The wall clock, behind a trusted boundary.
//!
//! The store never reads the clock's raw value directly: the trusted wrapper
//! hands back plain components, and everything after that is verified for
//! every value the clock could return.

use vstd::prelude::*;
use chrono::Datelike;
use chrono::Timelike;
use crate::date::Date;
use crate::date::DateTime;
use crate::date::days_in_month;

verus! {

/// Relies on chrono's `Local::now` (read through the `Datelike` / `Timelike`
/// accessors): the current local wall-clock time. chrono only constructs
/// well-formed calendar dates and times of day, but promises nothing about
/// which moment comes back, so the clauses state validity alone.
#[verifier::external_body]
fn now_parts() -> (r: (i32, u8, u8, u8, u8))
    ensures
        1 <= r.1 <= 12,
        1 <= r.2 && r.2 as int <= days_in_month(r.0 as int, r.1 as int),
        r.3 <= 23,
        r.4 <= 59,
{
    let t = chrono::Local::now().naive_local();
    (t.year(), t.month() as u8, t.day() as u8, t.hour() as u8, t.minute() as u8)
}

/// The current local time, if its year fits the four-digit log format.
pub(crate) fn now_datetime() -> (r: Option<DateTime>)
    ensures
        r matches Some(dt) ==> dt.valid(),
{
    let (y, mo, d, h, mi) = now_parts();
    if 0 <= y && y <= 9999 {
        Some(DateTime { year: y as u16, month: mo, day: d, hour: h, minute: mi })
    } else {
        None
    }
}

/// The current local calendar date, if its year fits the log format.
pub(crate) fn today() -> (r: Option<Date>)
    ensures
        r matches Some(d) ==> d.valid(),
{
    match now_datetime() {
        Some(dt) => Some(dt.date()),
        None => None,
    }
}

} // verus!
