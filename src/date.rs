//! Calendar dates without a time of day, checked and formatted by `chrono`.

use vstd::prelude::*;
use crate::decimal::abs;
use crate::text::{digits, padded};

verus! {

/// The earliest year that a date may have.
pub const MIN_YEAR: i32 = -262143;

/// The latest year that a date may have.
pub const MAX_YEAR: i32 = 262142;

pub open spec fn is_leap_year(y: int) -> bool {
    (y % 4 == 0 && y % 100 != 0) || y % 400 == 0
}

pub open spec fn days_in_month(y: int, m: int) -> int {
    if m == 2 {
        if is_leap_year(y) {
            29
        } else {
            28
        }
    } else if m == 4 || m == 6 || m == 9 || m == 11 {
        30
    } else {
        31
    }
}

/// A day of the proleptic Gregorian calendar within the supported years.
pub open spec fn is_valid_date(y: int, m: int, d: int) -> bool {
    MIN_YEAR <= y <= MAX_YEAR && 1 <= m <= 12 && 1 <= d <= days_in_month(y, m)
}

/// The year with at least four digits; outside `0..=9999` with a sign.
pub open spec fn year_text(y: int) -> Seq<char> {
    if 0 <= y <= 9999 {
        padded(y as nat, 4)
    } else {
        let sign = if y < 0 {
            seq!['-']
        } else {
            seq!['+']
        };
        if abs(y) < 10000 {
            sign + padded(abs(y), 4)
        } else {
            sign + digits(abs(y))
        }
    }
}

/// `YYYY/MM/DD`.
pub open spec fn date_text(y: int, m: int, d: int) -> Seq<char> {
    year_text(y) + seq!['/'] + padded(m as nat, 2) + seq!['/'] + padded(d as nat, 2)
}

/// Why a field of an invoice could not be decoded.
#[derive(Clone, Copy, Debug, PartialEq, Eq, Structural)]
pub enum FormatError {
    /// A date field held something other than a date.
    NotADate,
    /// The year, month and day do not name a day of the calendar.
    InvalidDate,
    /// A decimal field held something other than an exact decimal literal.
    InvalidDecimal,
}

#[derive(Clone, Copy, Debug, PartialEq, Eq, Structural)]
pub struct Date {
    pub year: i32,
    pub month: u32,
    pub day: u32,
}

impl Date {
    pub open spec fn wf(&self) -> bool {
        is_valid_date(self.year as int, self.month as int, self.day as int)
    }

    /// The date with these parts, if it is one.
    pub fn from_ymd(year: i32, month: u32, day: u32) -> (r: Option<Date>)
        ensures
            r is Some <==> is_valid_date(year as int, month as int, day as int),
            r matches Some(d) ==> d.wf() && d.year == year && d.month == month && d.day == day,
    {
        calendar_date(year, month, day)
    }

    /// The date as `YYYY/MM/DD`, month and day with two digits.
    pub fn to_string(&self) -> (r: String)
        requires
            self.wf(),
        ensures
            r@ == date_text(self.year as int, self.month as int, self.day as int),
    {
        format_date(self)
    }
}

/// Decodes a date field: `ymd` is the year, month and day of the field's
/// date, or `None` where the field held no date.
pub fn decode_date(ymd: Option<(u16, u8, u8)>) -> (r: Result<Date, FormatError>)
    ensures
        ymd is None ==> r == Err::<Date, FormatError>(FormatError::NotADate),
        ymd matches Some((y, m, d)) ==> (if is_valid_date(y as int, m as int, d as int) {
            r == Ok::<Date, FormatError>(Date { year: y as i32, month: m as u32, day: d as u32 })
        } else {
            r == Err::<Date, FormatError>(FormatError::InvalidDate)
        }),
        r matches Ok(d) ==> d.wf(),
{
    match ymd {
        None => Err(FormatError::NotADate),
        Some((y, m, d)) => match Date::from_ymd(y as i32, m as u32, d as u32) {
            Some(date) => Ok(date),
            None => Err(FormatError::InvalidDate),
        },
    }
}

/// Relies on `chrono::NaiveDate::from_ymd_opt`: `Some` exactly for a valid day
/// of the proleptic Gregorian calendar within chrono's range of years.
#[verifier::external_body]
fn calendar_date(year: i32, month: u32, day: u32) -> (r: Option<Date>)
    ensures
        r is Some <==> is_valid_date(year as int, month as int, day as int),
        r matches Some(d) ==> d.year == year && d.month == month && d.day == day,
{
    match chrono::NaiveDate::from_ymd_opt(year, month, day) {
        Some(_) => Some(Date { year, month, day }),
        None => None,
    }
}

/// Relies on `chrono::NaiveDate::format` with `%Y/%m/%d`: the year zero-padded
/// to four digits (signed outside `0..=9999`), month and day with two digits.
#[verifier::external_body]
fn format_date(d: &Date) -> (r: String)
    requires
        d.wf(),
    ensures
        r@ == date_text(d.year as int, d.month as int, d.day as int),
{
    let date = chrono::NaiveDate::from_ymd_opt(d.year, d.month, d.day).unwrap();
    date.format("%Y/%m/%d").to_string()
}

} // verus!
