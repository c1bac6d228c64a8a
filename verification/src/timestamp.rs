//! Submission timestamps. chrono reads and prints them; the library carries
//! their calendar fields.

use chrono::{Datelike, NaiveDate, NaiveDateTime, Timelike};
use vstd::prelude::*;

verus! {

/// The calendar fields that chrono's `NaiveDateTime::parse_from_str` reads out
/// of `text` under the format `pattern`, or `None` where it reports an error.
pub uninterp spec fn parsed_timestamp(text: Seq<char>, pattern: Seq<char>) -> Option<Timestamp>;

/// What chrono's `Display` prints for the date-time with these calendar
/// fields, or `None` where chrono knows no such date-time.
pub uninterp spec fn rendered_timestamp(
    year: int,
    month: int,
    day: int,
    hour: int,
    minute: int,
    second: int,
    nanosecond: int,
) -> Option<Seq<char>>;

/// A date and time of day without a time zone.
///
/// Every value names a date-time that chrono accepts, so it can always be
/// printed. A leap second is held the way chrono holds it: second 59 with a
/// nanosecond of a billion or more.
#[derive(Clone, Copy, Debug, PartialEq, Eq, Structural)]
pub struct Timestamp {
    year: i32,
    month: u32,
    day: u32,
    hour: u32,
    minute: u32,
    second: u32,
    nanosecond: u32,
}

/// The format of the timestamp column: `YYYY-MM-DD HH:MM:SS`.
pub const TIMESTAMP_PATTERN: &'static str = "%Y-%m-%d %H:%M:%S";

impl Timestamp {
    /// Whether the fields name a date-time that chrono can print. Every
    /// timestamp does.
    #[verifier::type_invariant]
    pub closed spec fn is_calendar_time(self) -> bool {
        rendered_timestamp(
            self.year as int,
            self.month as int,
            self.day as int,
            self.hour as int,
            self.minute as int,
            self.second as int,
            self.nanosecond as int,
        ) is Some
    }

    /// Year, month, day, hour, minute, second and nanosecond.
    pub closed spec fn fields(self) -> (int, int, int, int, int, int, int) {
        (
            self.year as int,
            self.month as int,
            self.day as int,
            self.hour as int,
            self.minute as int,
            self.second as int,
            self.nanosecond as int,
        )
    }

    /// The printed form, as chrono's `Display` gives it.
    pub closed spec fn text(self) -> Seq<char> {
        rendered_timestamp(
            self.year as int,
            self.month as int,
            self.day as int,
            self.hour as int,
            self.minute as int,
            self.second as int,
            self.nanosecond as int,
        )->0
    }

    /// The timestamp with second precision and these calendar fields, if the
    /// calendar has such a moment.
    pub fn new(year: i32, month: u32, day: u32, hour: u32, minute: u32, second: u32) -> (made:
        Option<Timestamp>)
        ensures
            made is Some <==> rendered_timestamp(
                year as int,
                month as int,
                day as int,
                hour as int,
                minute as int,
                second as int,
                0,
            ) is Some,
            made matches Some(t) ==> t.fields() == (
                year as int,
                month as int,
                day as int,
                hour as int,
                minute as int,
                second as int,
                0int,
            ) && Some(t.text()) == rendered_timestamp(
                year as int,
                month as int,
                day as int,
                hour as int,
                minute as int,
                second as int,
                0,
            ),
    {
        match chrono_render(year, month, day, hour, minute, second, 0) {
            Some(_) => Some(Timestamp { year, month, day, hour, minute, second, nanosecond: 0 }),
            None => None,
        }
    }

    /// Reads a timestamp written as `YYYY-MM-DD HH:MM:SS`.
    pub fn parse(text: &str) -> (parsed: Option<Timestamp>)
        ensures
            parsed == parsed_timestamp(text@, TIMESTAMP_PATTERN@),
    {
        chrono_parse(text, TIMESTAMP_PATTERN)
    }

    /// Prints the timestamp.
    pub fn render(&self) -> (printed: String)
        ensures
            printed@ == self.text(),
    {
        proof {
            use_type_invariant(self);
        }
        let printed = chrono_render(
            self.year,
            self.month,
            self.day,
            self.hour,
            self.minute,
            self.second,
            self.nanosecond,
        );
        printed.unwrap()
    }
}

/// Calls chrono's `NaiveDateTime::parse_from_str` and copies the calendar
/// fields out of what it returns. Trusted: the result is the named parse of the
/// two texts, and chrono can rebuild and print the date-time from the fields
/// that its getters hand out. Only the pattern of the timestamp column is
/// handed in, which asks for date and time of day alone.
#[verifier::external_body]
fn chrono_parse(text: &str, pattern: &str) -> (parsed: Option<Timestamp>)
    requires
        pattern@ == TIMESTAMP_PATTERN@,
    ensures
        parsed == parsed_timestamp(text@, pattern@),
        parsed matches Some(t) ==> t.is_calendar_time(),
{
    match NaiveDateTime::parse_from_str(text, pattern) {
        Ok(t) => Some(
            Timestamp {
                year: t.year(),
                month: t.month(),
                day: t.day(),
                hour: t.hour(),
                minute: t.minute(),
                second: t.second(),
                nanosecond: t.nanosecond(),
            },
        ),
        Err(_) => None,
    }
}

/// Builds the date-time with chrono's `NaiveDate::from_ymd_opt` and
/// `NaiveDate::and_hms_nano_opt` and prints it with its `Display`. Trusted: the
/// result is the named rendering of the seven fields, `None` where chrono
/// refuses them.
#[verifier::external_body]
fn chrono_render(
    year: i32,
    month: u32,
    day: u32,
    hour: u32,
    minute: u32,
    second: u32,
    nanosecond: u32,
) -> (printed: Option<String>)
    ensures
        match printed {
            Some(s) => rendered_timestamp(
                year as int,
                month as int,
                day as int,
                hour as int,
                minute as int,
                second as int,
                nanosecond as int,
            ) == Some(s@),
            None => rendered_timestamp(
                year as int,
                month as int,
                day as int,
                hour as int,
                minute as int,
                second as int,
                nanosecond as int,
            ) is None,
        },
{
    let date = NaiveDate::from_ymd_opt(year, month, day)?;
    let moment = date.and_hms_nano_opt(hour, minute, second, nanosecond)?;
    Some(moment.to_string())
}

} // verus!
