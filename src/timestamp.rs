//! Normalization of raw timestamps into one canonical rendering.
//!
//! Parsing a timestamp against a format and rendering a calendar time are
//! done by chrono; the order in which formats are tried, and the fallback,
//! are this module's own.

use chrono::{Datelike, Timelike};
use std::fmt::Write;
use vstd::prelude::*;

verus! {

/// A calendar date and time of day, without time zone.
#[derive(Debug, Clone, Copy, PartialEq, Eq, Structural)]
pub struct Stamp {
    pub year: i32,
    pub month: u32,
    pub day: u32,
    pub hour: u32,
    pub minute: u32,
    pub second: u32,
    pub nanosecond: u32,
}

/// Error-log timestamps: `Wed Oct 11 14:32:52.123456 2023`.
pub const ERROR_LOG_FORMAT: &'static str = "%a %b %d %H:%M:%S%.f %Y";

/// Access-log timestamps: `10/Oct/2023:13:55:36 -0700`.
pub const ACCESS_LOG_FORMAT: &'static str = "%d/%b/%Y:%H:%M:%S %z";

/// The canonical rendering: `Tue Oct 10 01:55:36 PM 2023`.
pub const CANONICAL_FORMAT: &'static str = "%a %b %d %I:%M:%S %p %Y";

/// The earliest and latest years that chrono's dates cover.
pub const MIN_YEAR: i32 = -262143;

pub const MAX_YEAR: i32 = 262142;

/// Whether `year` is a leap year of the proleptic Gregorian calendar.
pub open spec fn is_leap_year(year: int) -> bool {
    year % 4 == 0 && (year % 100 != 0 || year % 400 == 0)
}

/// The number of days in `month` of `year`.
pub open spec fn days_in_month(year: int, month: int) -> int {
    if month == 2 {
        if is_leap_year(year) {
            29
        } else {
            28
        }
    } else if month == 4 || month == 6 || month == 9 || month == 11 {
        30
    } else {
        31
    }
}

impl Stamp {
    /// The fields name a real calendar time that chrono can hold: a day of
    /// a month of a year in range, and a time of day, where a nanosecond
    /// count of a second or more marks a leap second and comes only with
    /// second 59.
    pub open spec fn is_calendar_time(&self) -> bool {
        &&& MIN_YEAR <= self.year <= MAX_YEAR
        &&& 1 <= self.month <= 12
        &&& 1 <= self.day <= days_in_month(self.year as int, self.month as int)
        &&& self.hour < 24
        &&& self.minute < 60
        &&& self.second < 60
        &&& self.nanosecond < 2_000_000_000
        &&& (self.nanosecond >= 1_000_000_000 ==> self.second == 59)
    }
}

/// What chrono reads from `raw` under the strftime-style format `fmt`.
pub uninterp spec fn parsed_stamp(raw: Seq<char>, fmt: Seq<char>) -> Option<Stamp>;

/// How chrono renders a calendar time under the strftime-style format `fmt`;
/// `None` where the fields name no calendar time.
pub uninterp spec fn rendered_stamp(d: Stamp, fmt: Seq<char>) -> Option<Seq<char>>;

/// Relies on chrono's `NaiveDateTime::parse_from_str`: the calendar time
/// that `raw` denotes under `fmt`, if it denotes one. An offset in `raw` is
/// read and not applied. A `NaiveDateTime` always holds a real calendar
/// time in chrono's range of years.
#[verifier::external_body]
fn parse_stamp(raw: &str, fmt: &str) -> (r: Option<Stamp>)
    ensures
        r == parsed_stamp(raw@, fmt@),
        r matches Some(d) ==> d.is_calendar_time(),
{
    match chrono::NaiveDateTime::parse_from_str(raw, fmt) {
        Ok(t) => Some(Stamp {
            year: t.year(),
            month: t.month(),
            day: t.day(),
            hour: t.hour(),
            minute: t.minute(),
            second: t.second(),
            nanosecond: t.nanosecond(),
        }),
        Err(_) => None,
    }
}

/// Relies on chrono's `NaiveDateTime::format` under `fmt`, after building
/// the value with `NaiveDate::from_ymd_opt` and `NaiveDate::and_hms_nano_opt`;
/// those accept every real calendar time in range, and every specifier of
/// the canonical format names a field that such a value has.
#[verifier::external_body]
fn render_stamp(d: &Stamp, fmt: &str) -> (r: Option<String>)
    requires
        fmt@ == CANONICAL_FORMAT@,
    ensures
        r matches Some(s) ==> rendered_stamp(*d, fmt@) == Some(s@),
        r is None ==> rendered_stamp(*d, fmt@) is None,
        d.is_calendar_time() ==> r is Some,
{
    let date = chrono::NaiveDate::from_ymd_opt(d.year, d.month, d.day)?;
    let t = date.and_hms_nano_opt(d.hour, d.minute, d.second, d.nanosecond)?;
    let mut out = String::new();
    match write!(out, "{}", t.format(fmt)) {
        Ok(()) => Some(out),
        Err(_) => None,
    }
}

/// The placeholder of a timestamp that no known format reads.
pub open spec fn invalid_timestamp() -> Seq<char> {
    "Invalid Timestamp"@
}

/// The calendar time that the first known format able to read `raw` gives.
pub open spec fn first_stamp(raw: Seq<char>) -> Option<Stamp> {
    match parsed_stamp(raw, ERROR_LOG_FORMAT@) {
        Some(d) => Some(d),
        None => parsed_stamp(raw, ACCESS_LOG_FORMAT@),
    }
}

/// The canonical rendering of a raw timestamp, or the placeholder.
pub open spec fn normalized(raw: Seq<char>) -> Seq<char> {
    match first_stamp(raw) {
        Some(d) => match rendered_stamp(d, CANONICAL_FORMAT@) {
            Some(s) => s,
            None => invalid_timestamp(),
        },
        None => invalid_timestamp(),
    }
}

/// Renders a raw timestamp canonically, trying the known formats in order;
/// never fails, and gives `"Invalid Timestamp"` where no format applies.
pub fn format_timestamp(raw_timestamp: &str) -> (r: String)
    ensures
        r@ == normalized(raw_timestamp@),
        first_stamp(raw_timestamp@) matches Some(d) ==> rendered_stamp(d, CANONICAL_FORMAT@)
            == Some(r@),
{
    let first = match parse_stamp(raw_timestamp, ERROR_LOG_FORMAT) {
        Some(d) => Some(d),
        None => parse_stamp(raw_timestamp, ACCESS_LOG_FORMAT),
    };
    format_stamp(first)
}

/// Renders the calendar time that a format gave, or the placeholder where
/// none did.
pub fn format_stamp(first: Option<Stamp>) -> (r: String)
    ensures
        r@ == (match first {
            Some(d) => match rendered_stamp(d, CANONICAL_FORMAT@) {
                Some(s) => s,
                None => invalid_timestamp(),
            },
            None => invalid_timestamp(),
        }),
        first matches Some(d) ==> (d.is_calendar_time() ==> rendered_stamp(
            d,
            CANONICAL_FORMAT@,
        ) == Some(r@)),
{
    match first {
        Some(d) => match render_stamp(&d, CANONICAL_FORMAT) {
            Some(s) => s,
            None => "Invalid Timestamp".to_owned(),
        },
        None => "Invalid Timestamp".to_owned(),
    }
}

/// Normalization depends on the calendar time alone: two raw timestamps,
/// in the same or in different known formats, that denote the same
/// calendar time are rendered identically; one that no known format reads
/// becomes `"Invalid Timestamp"`.
pub proof fn law_normalization_deterministic(a: Seq<char>, b: Seq<char>)
    ensures
        first_stamp(a) is Some && first_stamp(a) == first_stamp(b) ==> normalized(a)
            == normalized(b),
        first_stamp(a) is None ==> normalized(a) == invalid_timestamp(),
{
}

} // verus!
