//! Minute-resolution timestamps on the proleptic Gregorian calendar.
//!
//! A [`Timestamp`] counts whole minutes from midnight of January 1, 1 CE.
//! The recorder stores calendar fields (month, day, year, hour, minute); the
//! conversion from a calendar date to its day count is delegated to the
//! `chrono` crate, whose result is named by the uninterpreted function
//! [`days_of`].

use chrono::Datelike;
use vstd::prelude::*;

verus! {

/// A point in time with minute resolution: minutes since midnight of
/// January 1, 1 CE.
#[derive(Clone, Copy, Debug, PartialEq, Eq, Structural)]
pub struct Timestamp {
    pub minutes: u64,
}

impl Timestamp {
    /// Every timestamp the decoder produces stays well below this bound, so
    /// sums and differences of well-formed timestamps fit in a `u64`.
    pub open spec fn wf(self) -> bool {
        self.minutes <= 0x4000_0000_0000_0000
    }

    /// The calendar day this timestamp falls on, as a day count from
    /// January 1, 1 CE (that day itself counts as 1).
    pub open spec fn day(self) -> int {
        self.minutes as int / 1440
    }
}

/// Splits a duration in minutes into whole days, hours of the last partial
/// day, and minutes of the last partial hour, for rendering as
/// `DDd:HHh:MMm`.
pub fn duration_parts(minutes: u64) -> (r: (u64, u64, u64))
    ensures
        r.0 == minutes / 1440,
        r.1 == (minutes / 60) % 24,
        r.2 == minutes % 60,
        minutes == r.0 * 1440 + r.1 * 60 + r.2,
{
    let days = minutes / 1440;
    let hours = (minutes / 60) % 24;
    let mins = minutes % 60;
    proof {
        vstd::arithmetic::div_mod::lemma_fundamental_div_mod(minutes as int, 60);
        vstd::arithmetic::div_mod::lemma_fundamental_div_mod(minutes as int / 60, 24);
        vstd::arithmetic::div_mod::lemma_div_denominator(minutes as int, 60, 24);
    }
    (days, hours, mins)
}

/// Whether `year-month-day` is a real date of the proleptic Gregorian
/// calendar (for years 1 through 9999).
pub open spec fn valid_date(year: int, month: int, day: int) -> bool {
    1 <= month <= 12 && 1 <= day <= days_in_month(year, month)
}

/// Number of days in the given month of the given year.
pub open spec fn days_in_month(year: int, month: int) -> int {
    if month == 2 {
        if is_leap_year(year) {
            29
        } else {
            28
        }
    } else if month == 4 || month == 6 || month == 9 || month == 11 {
        30
    } else {
        31
    }
}

/// The Gregorian leap-year rule.
pub open spec fn is_leap_year(year: int) -> bool {
    year % 4 == 0 && (year % 100 != 0 || year % 400 == 0)
}

/// The day count of a calendar date: the number of days from January 1, 1 CE
/// to `year-month-day` inclusive. Its values are fixed by the calendar and
/// computed by the `chrono` crate; only `days_from_civil` below speaks for
/// them.
pub uninterp spec fn days_of(year: int, month: int, day: int) -> int;

/// Relies on `chrono::NaiveDate::from_ymd_opt`, which returns `Some` exactly
/// for valid proleptic Gregorian dates (all years 1..=9999 lie inside
/// chrono's supported range), and on `chrono::NaiveDate::num_days_from_ce`,
/// which counts the days from January 1, 1 CE inclusive — a function of the
/// date alone, at least 1 for any date of year 1 or later.
#[verifier::external_body]
pub(crate) fn days_from_civil(year: i32, month: u8, day: u8) -> (r: Option<i32>)
    requires
        1 <= year <= 9999,
    ensures
        r is Some <==> valid_date(year as int, month as int, day as int),
        r is Some ==> r->Some_0 == days_of(year as int, month as int, day as int),
        r is Some ==> r->Some_0 >= 1,
{
    chrono::NaiveDate::from_ymd_opt(year, month as u32, day as u32).map(|d| d.num_days_from_ce())
}

} // verus!
