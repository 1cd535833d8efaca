//! Dates and times in UTC, and their RFC 3339 texts.

pub mod layout;
pub mod order;

use chrono::{Datelike, Timelike};
use vstd::prelude::*;

use crate::text::decimal;

verus! {

/// The format of a plain date.
pub const DATE_FORMAT: &'static str = "%Y-%m-%d";

/// A date and time in UTC. During a leap second `nanosecond` counts on beyond one second.
#[derive(Debug, Clone, Copy, PartialEq, Eq)]
pub struct UtcTime {
    pub year: i32,
    pub month: u32,
    pub day: u32,
    pub hour: u32,
    pub minute: u32,
    pub second: u32,
    pub nanosecond: u32,
}

/// `year` has a 29th of February.
pub open spec fn is_leap_year(year: int) -> bool {
    year % 4 == 0 && (year % 100 != 0 || year % 400 == 0)
}

/// Number of days of a month.
pub open spec fn days_in_month(year: int, month: int) -> int {
    if month == 2 {
        if is_leap_year(year) {
            29
        } else {
            28
        }
    } else if month == 4 || month == 6 || month == 9 || month == 11 {
        30
    } else {
        31
    }
}

/// A day of the calendar, in the years that `chrono` covers.
pub open spec fn is_date(year: int, month: int, day: int) -> bool {
    -262143 <= year <= 262142 && 1 <= month <= 12 && 1 <= day <= days_in_month(year, month)
}

impl UtcTime {
    /// A day of the calendar and a time of day. Only the last second of a minute can be followed
    /// by a leap second.
    pub open spec fn valid(self) -> bool {
        &&& is_date(self.year as int, self.month as int, self.day as int)
        &&& self.hour < 24 && self.minute < 60 && self.second < 60
        &&& self.nanosecond < 1_000_000_000 || (self.second == 59 && self.nanosecond
            < 2_000_000_000)
    }

    /// The first moment of a day.
    pub open spec fn midnight(year: i32, month: u32, day: u32) -> UtcTime {
        UtcTime { year, month, day, hour: 0, minute: 0, second: 0, nanosecond: 0 }
    }
}

/// The last two decimal digits of `n`.
pub open spec fn two_digits(n: int) -> Seq<char> {
    seq![decimal::digit_char(n / 10 % 10), decimal::digit_char(n % 10)]
}

/// The last three decimal digits of `n`.
pub open spec fn three_digits(n: int) -> Seq<char> {
    seq![
        decimal::digit_char(n / 100 % 10),
        decimal::digit_char(n / 10 % 10),
        decimal::digit_char(n % 10),
    ]
}

/// A year: four digits up to 9999, with a sign outside of 0 to 9999.
pub open spec fn year_text(year: int) -> Seq<char> {
    if year > 9999 {
        seq!['+'] + decimal::digits(year as nat)
    } else if year >= 0 {
        two_digits(year / 100) + two_digits(year)
    } else if year >= -9999 {
        seq!['-'] + two_digits(-year / 100) + two_digits(-year)
    } else {
        seq!['-'] + decimal::digits((-year) as nat)
    }
}

/// A fraction of a second: nothing, or a point and as many groups of three digits as needed.
pub open spec fn fraction_text(nanos: int) -> Seq<char> {
    let groups = three_digits(nanos / 1_000_000);
    if nanos == 0 {
        Seq::empty()
    } else if nanos % 1_000_000 == 0 {
        seq!['.'] + groups
    } else if nanos % 1_000 == 0 {
        seq!['.'] + groups + three_digits(nanos / 1_000)
    } else {
        seq!['.'] + groups + three_digits(nanos / 1_000) + three_digits(nanos)
    }
}

/// The RFC 3339 text of a time in UTC, such as `1996-12-20T00:39:57+00:00`. A leap second is
/// second 60.
pub open spec fn rfc3339_text(t: UtcTime) -> Seq<char> {
    let leap = t.nanosecond >= 1_000_000_000;
    let second = if leap {
        t.second + 1
    } else {
        t.second as int
    };
    let nanos = if leap {
        t.nanosecond - 1_000_000_000
    } else {
        t.nanosecond as int
    };
    year_text(t.year as int) + seq!['-'] + two_digits(t.month as int) + seq!['-'] + two_digits(
        t.day as int,
    ) + seq!['T'] + two_digits(t.hour as int) + seq![':'] + two_digits(t.minute as int) + seq![':']
        + two_digits(second) + fraction_text(nanos) + seq!['+', '0', '0', ':', '0', '0']
}

/// The time, in UTC, that `chrono::DateTime::parse_from_rfc3339` reads from a text.
pub uninterp spec fn rfc3339_time(text: Seq<char>) -> Option<UtcTime>;

/// The year, month and day that `chrono::NaiveDate::parse_from_str` reads from a text.
pub uninterp spec fn formatted_date(text: Seq<char>, format: Seq<char>) -> Option<(i32, u32, u32)>;

/// Calls `chrono::DateTime::parse_from_rfc3339`, and `naive_utc` for the fields of the result in
/// UTC. What it returns depends on the text alone, and is a valid time.
#[verifier::external_body]
fn parse_rfc3339(text: &str) -> (r: Option<UtcTime>)
    ensures
        r == rfc3339_time(text@),
        r matches Some(t) ==> t.valid(),
{
    let d = match chrono::DateTime::parse_from_rfc3339(text) {
        Ok(d) => d.naive_utc(),
        Err(_) => return None,
    };
    Some(UtcTime {
        year: d.year(),
        month: d.month(),
        day: d.day(),
        hour: d.hour(),
        minute: d.minute(),
        second: d.second(),
        nanosecond: d.nanosecond(),
    })
}

/// Calls `chrono::NaiveDate::parse_from_str` with the format of a plain date. What it returns
/// depends on the text and the format alone, and is a day of the calendar.
#[verifier::external_body]
fn parse_date(text: &str, format: &str) -> (r: Option<(i32, u32, u32)>)
    requires
        format@ == DATE_FORMAT@,
    ensures
        r == formatted_date(text@, format@),
        r matches Some((year, month, day)) ==> is_date(year as int, month as int, day as int),
{
    match chrono::NaiveDate::parse_from_str(text, format) {
        Ok(d) => Some((d.year(), d.month(), d.day())),
        Err(_) => None,
    }
}

/// Calls `chrono::DateTime::<Utc>::to_rfc3339` on the time that the fields stand for. The text is
/// `rfc3339_text`. Reading it as RFC 3339 gives the time back if the year has four digits, and
/// fails otherwise; it never reads as a plain date.
#[verifier::external_body]
fn format_rfc3339(t: &UtcTime) -> (r: String)
    requires
        t.valid(),
    ensures
        r@ == rfc3339_text(*t),
        rfc3339_time(r@) == (if 0 <= t.year <= 9999 {
            Some(*t)
        } else {
            None
        }),
        formatted_date(r@, DATE_FORMAT@) is None,
{
    let date = chrono::NaiveDate::from_ymd_opt(t.year, t.month, t.day).unwrap();
    let time = date.and_hms_nano_opt(t.hour, t.minute, t.second, t.nanosecond).unwrap();
    time.and_utc().to_rfc3339()
}

/// What a text becomes that reads as `time` or as `date`: the RFC 3339 text of the time, or of the
/// midnight at which the date starts, or else the text itself.
pub open spec fn date_text(
    text: Seq<char>,
    time: Option<UtcTime>,
    date: Option<(i32, u32, u32)>,
) -> Seq<char> {
    match (time, date) {
        (Some(t), _) => rfc3339_text(t),
        (None, Some((year, month, day))) => rfc3339_text(UtcTime::midnight(year, month, day)),
        (None, None) => text,
    }
}

/// `text` as UTC RFC 3339 if it reads as a date; `text` itself otherwise.
pub open spec fn normalized(text: Seq<char>) -> Seq<char> {
    date_text(text, rfc3339_time(text), formatted_date(text, DATE_FORMAT@))
}

/// Writes a text that reads as `time` or as `date` in UTC RFC 3339; any other stays as it is.
pub fn write_date(text: &str, time: Option<UtcTime>, date: Option<(i32, u32, u32)>) -> (r: String)
    requires
        time matches Some(t) ==> t.valid(),
        date matches Some((year, month, day)) ==> is_date(year as int, month as int, day as int),
    ensures
        r@ == date_text(text@, time, date),
        (time is Some || date is Some) ==> normalized(r@) == r@,
{
    match time {
        Some(t) => {
            return format_rfc3339(&t);
        },
        None => {},
    }
    match date {
        Some((year, month, day)) => format_rfc3339(
            &UtcTime { year, month, day, hour: 0, minute: 0, second: 0, nanosecond: 0 },
        ),
        None => text.to_owned(),
    }
}

/// Normalizes a text to UTC RFC 3339 if it looks like a date; returns it unchanged otherwise.
/// Normalizing the result again changes nothing.
pub fn normalize_date(text: &str) -> (r: String)
    ensures
        r@ == normalized(text@),
        normalized(r@) == r@,
{
    let time = parse_rfc3339(text);
    let date = parse_date(text, DATE_FORMAT);
    write_date(text, time, date)
}

} // verus!
