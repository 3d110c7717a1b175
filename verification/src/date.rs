//! Day-count calendar. A `Date` is a signed number of days relative to a
//! fixed epoch (day 0 is January 2 of year 1 in the proleptic Gregorian
//! calendar, so that January 1 of year 1 is day 0 after the offset used
//! below). All scheduling arithmetic works on these day numbers; the
//! conversions from calendar dates are delegated to the `chrono` crate.

use vstd::prelude::*;

verus! {

/// Calendar years accepted by `chrono::NaiveDate` (its `MIN_YEAR`).
pub const MIN_CALENDAR_YEAR: i32 = -262143;

/// Calendar years accepted by `chrono::NaiveDate` (its `MAX_YEAR`).
pub const MAX_CALENDAR_YEAR: i32 = 262142;

/// Whether `y` is a leap year in the proleptic Gregorian calendar.
pub open spec fn is_leap_year(y: int) -> bool {
    (y % 4 == 0 && y % 100 != 0) || y % 400 == 0
}

/// Days in the months strictly before month `m` of a common year.
pub open spec fn days_before_month(m: int) -> int {
    if m <= 1 {
        0
    } else if m == 2 {
        31
    } else if m == 3 {
        59
    } else if m == 4 {
        90
    } else if m == 5 {
        120
    } else if m == 6 {
        151
    } else if m == 7 {
        181
    } else if m == 8 {
        212
    } else if m == 9 {
        243
    } else if m == 10 {
        273
    } else if m == 11 {
        304
    } else {
        334
    }
}

/// Number of days in month `m` of year `y`.
pub open spec fn days_in_month(y: int, m: int) -> int {
    if m == 2 {
        if is_leap_year(y) {
            29
        } else {
            28
        }
    } else if m == 4 || m == 6 || m == 9 || m == 11 {
        30
    } else {
        31
    }
}

/// Day of the year (1-based) of the calendar date `y-m-d`.
pub open spec fn ordinal_of(y: int, m: int, d: int) -> int {
    days_before_month(m) + (if m > 2 && is_leap_year(y) {
        1int
    } else {
        0int
    }) + d
}

/// Whether `y-m-d` names an existing calendar date within chrono's year range.
pub open spec fn valid_civil(y: int, m: int, d: int) -> bool {
    &&& MIN_CALENDAR_YEAR <= y <= MAX_CALENDAR_YEAR
    &&& 1 <= m <= 12
    &&& 1 <= d <= days_in_month(y, m)
}

/// Whether ordinal day `o` exists in year `y`, within chrono's year range.
pub open spec fn valid_ordinal(y: int, o: int) -> bool {
    &&& MIN_CALENDAR_YEAR <= y <= MAX_CALENDAR_YEAR
    &&& 1 <= o <= (if is_leap_year(y) {
        366int
    } else {
        365int
    })
}

/// Days from the epoch of the proleptic Gregorian calendar: day 1 is
/// January 1 of year 1, matching chrono's `num_days_from_ce`. Years before
/// year 1 are first shifted forward by whole 400-year cycles of 146097 days.
pub open spec fn days_from_ce(y: int, ordinal: int) -> int {
    let y0 = y - 1;
    let excess = if y0 < 0 {
        1 + (-y0) / 400
    } else {
        0int
    };
    let ys = y0 + excess * 400;
    (ys * 1461) / 4 - ys / 100 + (ys / 100) / 4 - excess * 146097 + ordinal
}

/// A moment in calendar time, held as a signed day count.
#[derive(Clone, Copy, Debug, PartialEq, Eq, Structural)]
pub struct Date {
    pub day: i32,
}

impl Date {
    /// Whether `self` falls on `other`'s day or later.
    pub fn is_after(&self, other: &Date) -> (r: bool)
        ensures
            r == (self.day >= other.day),
    {
        self.day >= other.day
    }

    /// Moves the date by `d` days; `None` when the day count leaves `i32`.
    pub fn checked_add_days(&self, d: i32) -> (r: Option<Date>)
        ensures
            (i32::MIN <= self.day + d <= i32::MAX) ==> r == Some(
                Date { day: (self.day + d) as i32 },
            ),
            !(i32::MIN <= self.day + d <= i32::MAX) ==> r is None,
    {
        match self.day.checked_add(d) {
            Some(new_day) => Some(Date { day: new_day }),
            None => None,
        }
    }

    /// Relies on `chrono::NaiveDate::from_ymd_opt` (`Some` exactly on
    /// existing calendar dates within its year range) and on
    /// `chrono::Datelike::num_days_from_ce` for the day count.
    #[verifier::external_body]
    pub fn from_ymd_opt(year: i32, month: u32, day: u32) -> (r: Option<Date>)
        ensures
            r is Some <==> valid_civil(year as int, month as int, day as int),
            r matches Some(date) ==> date.day as int == days_from_ce(
                year as int,
                ordinal_of(year as int, month as int, day as int),
            ) - 1,
    {
        let naive = chrono::NaiveDate::from_ymd_opt(year, month, day)?;
        Some(Date { day: chrono::Datelike::num_days_from_ce(&naive) - 1 })
    }

    /// Relies on `chrono::NaiveDate::from_yo_opt` (`Some` exactly on
    /// existing ordinal days within its year range) and on
    /// `chrono::Datelike::num_days_from_ce` for the day count.
    #[verifier::external_body]
    pub fn from_yo_opt(year: i32, ordinal: u32) -> (r: Option<Date>)
        ensures
            r is Some <==> valid_ordinal(year as int, ordinal as int),
            r matches Some(date) ==> date.day as int == days_from_ce(
                year as int,
                ordinal as int,
            ) - 1,
    {
        let naive = chrono::NaiveDate::from_yo_opt(year, ordinal)?;
        Some(Date { day: chrono::Datelike::num_days_from_ce(&naive) - 1 })
    }
}

} // verus!
