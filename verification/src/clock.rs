//! The calendar services of `chrono` that the countdown uses: parsing a date
//! key, reading today's local date, and counting the days between two dates.
//! Dates cross this boundary as plain `(year, month, day)` triples.

use chrono::{Datelike, Local, NaiveDate};
use vstd::prelude::*;
use crate::calendar::{is_valid_date, julian_day};

verus! {

/// A date that `chrono::NaiveDate` can hold: a valid calendar date from
/// January 1 of year -262143 to December 31 of year 262142.
pub open spec fn is_chrono_date(date: (i32, u32, u32)) -> bool {
    &&& is_valid_date(date.0 as int, date.1 as int, date.2 as int)
    &&& -262143 <= date.0 <= 262142
}

/// The date, if any, that `chrono::NaiveDate::parse_from_str` reads from the
/// text `s` with the format `fmt`, as `(year, month, day)`.
pub uninterp spec fn chrono_parsed_date(s: Seq<char>, fmt: Seq<char>) -> Option<(i32, u32, u32)>;

/// Calls `chrono::NaiveDate::parse_from_str(s, fmt)`. The result is named by
/// `chrono_parsed_date`; what is stated besides is only that a parsed date is
/// one that `NaiveDate` can hold. Which texts a format accepts is not stated.
#[verifier::external_body]
pub(crate) fn parse_date(s: &str, fmt: &str) -> (r: Option<(i32, u32, u32)>)
    ensures
        r == chrono_parsed_date(s@, fmt@),
        r matches Some(date) ==> is_chrono_date(date),
{
    match NaiveDate::parse_from_str(s, fmt) {
        Ok(d) => Some((d.year(), d.month(), d.day())),
        Err(_) => None,
    }
}

/// Calls `chrono::Local::now().date_naive()`: today's date in the machine's
/// time zone. Only that it is a date `NaiveDate` can hold is stated. The call
/// can panic on a broken environment, which no precondition can rule out:
/// `chrono` panics when the system clock reads before 1970, and when the
/// local time-zone data gives no local time type.
#[verifier::external_body]
pub(crate) fn local_today() -> (r: (i32, u32, u32))
    ensures
        is_chrono_date(r),
{
    let d = Local::now().date_naive();
    (d.year(), d.month(), d.day())
}

/// Calls `(a - b).num_days()` on two `chrono::NaiveDate`s: the signed number
/// of days from `b` to `a`, which is the difference of their day numbers.
#[verifier::external_body]
pub(crate) fn days_between(a: (i32, u32, u32), b: (i32, u32, u32)) -> (r: i64)
    requires
        is_chrono_date(a),
        is_chrono_date(b),
    ensures
        r == julian_day(a.0 as int, a.1 as int, a.2 as int) - julian_day(b.0 as int, b.1 as int, b.2 as int),
{
    let x = NaiveDate::from_ymd_opt(a.0, a.1, a.2).unwrap();
    let y = NaiveDate::from_ymd_opt(b.0, b.1, b.2).unwrap();
    (x - y).num_days()
}

/// Today's local date.
pub fn today() -> (r: (i32, u32, u32))
    ensures
        is_chrono_date(r),
{
    local_today()
}

} // verus!
