//! Gregorian calendar facts, the UTC date of a timestamp, and the texts
//! that name a day or a month.
use vstd::prelude::*;
use chrono::{DateTime, Datelike, NaiveDate};
use crate::text::blank;

verus! {

/// Whether `year` is a leap year of the proleptic Gregorian calendar.
pub open spec fn is_leap_year(year: int) -> bool {
    (year % 4 == 0 && year % 100 != 0) || year % 400 == 0
}

/// Number of days of `month` (1 to 12) in `year`.
pub open spec fn month_length(year: int, month: int) -> int {
    if month == 2 {
        if is_leap_year(year) { 29 } else { 28 }
    } else if month == 4 || month == 6 || month == 9 || month == 11 {
        30
    } else {
        31
    }
}

/// A valid calendar day.
pub open spec fn is_valid_date(year: int, month: int, day: int) -> bool {
    1 <= month <= 12 && 1 <= day <= month_length(year, month)
}

/// The number of days in `month` of `year`.
pub fn days_in_month(year: i32, month: u32) -> (r: i64)
    requires
        1 <= month <= 12,
    ensures
        r == month_length(year as int, month as int),
{
    if month == 2 {
        let leap = (year % 4 == 0 && year % 100 != 0) || year % 400 == 0;
        if leap { 29 } else { 28 }
    } else if month == 4 || month == 6 || month == 9 || month == 11 {
        30
    } else {
        31
    }
}

/// The UTC calendar date (year, month, day) of a Unix timestamp in
/// seconds, where chrono can represent it.
pub uninterp spec fn utc_date_of(secs: int) -> Option<(int, int, int)>;

/// The text that chrono writes for the date `year`-`month`-`day` with the
/// format `format`, where the day exists.
pub uninterp spec fn formatted_date_of(year: int, month: int, day: int, format: Seq<char>) -> Option<
    Seq<char>,
>;

/// The format of a day heading ("May 20, 2021").
pub open spec fn day_format() -> Seq<char> {
    "%B %-d, %Y"@
}

/// The format of a month ("June 2021").
pub open spec fn month_format() -> Seq<char> {
    "%B %Y"@
}

/// The heading text of a day ("May 20, 2021"), where the day exists.
pub open spec fn day_header_of(year: int, month: int, day: int) -> Option<Seq<char>> {
    formatted_date_of(year, month, day, day_format())
}

/// The name of a month ("June 2021"), where it exists.
pub open spec fn month_name_of(year: int, month: int) -> Option<Seq<char>> {
    formatted_date_of(year, month, 1, month_format())
}

/// Relies on chrono's `DateTime::from_timestamp` and its `Datelike`
/// accessors: a date that chrono returns is a day of the calendar.
#[verifier::external_body]
pub(crate) fn utc_date(secs: i64) -> (r: Option<(i32, u32, u32)>)
    ensures
        match r {
            Some((y, m, d)) => utc_date_of(secs as int) == Some((y as int, m as int, d as int)),
            None => utc_date_of(secs as int) is None,
        },
        r matches Some((y, m, d)) ==> is_valid_date(y as int, m as int, d as int),
{
    match DateTime::from_timestamp(secs, 0) {
        Some(t) => Some((t.year(), t.month(), t.day())),
        None => None,
    }
}

/// Relies on chrono's `NaiveDate::from_ymd_opt` and `NaiveDate::format`:
/// the date exists only for days of the calendar, and for every such day of
/// the years 1 to 9999; the two formats admitted hold date fields only,
/// which chrono writes without error, and begin with the month's name, which
/// is never blank.
#[verifier::external_body]
pub(crate) fn format_date(year: i32, month: u32, day: u32, format: &str) -> (r: Option<String>)
    requires
        format@ == day_format() || format@ == month_format(),
    ensures
        match r {
            Some(h) => formatted_date_of(year as int, month as int, day as int, format@) == Some(h@),
            None => formatted_date_of(year as int, month as int, day as int, format@) is None,
        },
        r is Some ==> is_valid_date(year as int, month as int, day as int),
        is_valid_date(year as int, month as int, day as int) && 1 <= year <= 9999 ==> r is Some,
        r matches Some(h) ==> !blank(h@),
{
    match NaiveDate::from_ymd_opt(year, month, day) {
        Some(d) => Some(d.format(format).to_string()),
        None => None,
    }
}

/// The heading text of a day ("May 20, 2021").
pub(crate) fn day_header(year: i32, month: u32, day: u32) -> (r: Option<String>)
    ensures
        match r {
            Some(h) => day_header_of(year as int, month as int, day as int) == Some(h@),
            None => day_header_of(year as int, month as int, day as int) is None,
        },
        r is Some ==> is_valid_date(year as int, month as int, day as int),
        is_valid_date(year as int, month as int, day as int) && 1 <= year <= 9999 ==> r is Some,
        r matches Some(h) ==> !blank(h@),
{
    format_date(year, month, day, "%B %-d, %Y")
}

/// The name of a month ("June 2021").
pub(crate) fn month_name(year: i32, month: u32) -> (r: Option<String>)
    ensures
        match r {
            Some(h) => month_name_of(year as int, month as int) == Some(h@),
            None => month_name_of(year as int, month as int) is None,
        },
        1 <= month <= 12 && 1 <= year <= 9999 ==> r is Some,
{
    format_date(year, month, 1, "%B %Y")
}

/// The heading text of the UTC day of the timestamp `secs`.
pub open spec fn date_header_of(secs: int) -> Option<Seq<char>> {
    match utc_date_of(secs) {
        Some((y, m, d)) => day_header_of(y, m, d),
        None => None,
    }
}

/// The heading text ("May 20, 2021") of the UTC day of the timestamp `secs`.
pub fn date_header(secs: i64) -> (r: Option<String>)
    ensures
        match r {
            Some(h) => date_header_of(secs as int) == Some(h@),
            None => date_header_of(secs as int) is None,
        },
        r matches Some(h) ==> !blank(h@),
{
    match utc_date(secs) {
        Some((y, m, d)) => day_header(y, m, d),
        None => None,
    }
}

} // verus!
