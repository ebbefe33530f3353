use vstd::prelude::*;
use vstd::string::StringSliceAdditionalSpecFns;
use crate::error::Error;
use chrono::Datelike;
use chrono::Timelike;

verus! {

/// A point in time as plain calendar and clock fields, ordered
/// lexicographically.  `nanos` holds the sub-second part in nanoseconds and
/// may exceed one second for a leap second, so the lexicographic order agrees
/// with chronological order for every value an accepted timestamp text can
/// denote.
#[derive(Clone, Copy, Debug, PartialEq, Eq, Structural)]
pub struct Timestamp {
    pub year: i32,
    pub month: u32,
    pub day: u32,
    pub hour: u32,
    pub minute: u32,
    pub second: u32,
    pub nanos: u32,
}

/// Chronological "no later than" on timestamps: lexicographic over the fields.
pub open spec fn ts_le(a: Timestamp, b: Timestamp) -> bool {
    if a.year != b.year {
        a.year < b.year
    } else if a.month != b.month {
        a.month < b.month
    } else if a.day != b.day {
        a.day < b.day
    } else if a.hour != b.hour {
        a.hour < b.hour
    } else if a.minute != b.minute {
        a.minute < b.minute
    } else if a.second != b.second {
        a.second < b.second
    } else {
        a.nanos <= b.nanos
    }
}

impl Timestamp {
    /// Chronological comparison, `self` no later than `other`.
    pub fn le(&self, other: &Timestamp) -> (r: bool)
        ensures
            r == ts_le(*self, *other),
    {
        if self.year != other.year {
            self.year < other.year
        } else if self.month != other.month {
            self.month < other.month
        } else if self.day != other.day {
            self.day < other.day
        } else if self.hour != other.hour {
            self.hour < other.hour
        } else if self.minute != other.minute {
            self.minute < other.minute
        } else if self.second != other.second {
            self.second < other.second
        } else {
            self.nanos <= other.nanos
        }
    }

    /// Builds a timestamp from calendar fields and a millisecond part.
    pub fn from_ymd_hms_milli(
        year: i32,
        month: u32,
        day: u32,
        hour: u32,
        minute: u32,
        second: u32,
        milli: u32,
    ) -> (r: Timestamp)
        requires
            milli < 2000,
        ensures
            r == (Timestamp {
                year,
                month,
                day,
                hour,
                minute,
                second,
                nanos: (milli * 1000000) as u32,
            }),
    {
        Timestamp { year, month, day, hour, minute, second, nanos: milli * 1000000 }
    }
}

/// What chrono's `NaiveDateTime::parse_from_str` returns for a given text and
/// format, carried over to plain fields.
pub uninterp spec fn dt_parse_of(s: Seq<char>, fmt: Seq<char>) -> Option<Timestamp>;

/// What chrono's `NaiveDate::parse_from_str` returns for a given text and
/// format: year, month and day.
pub uninterp spec fn date_parse_of(s: Seq<char>, fmt: Seq<char>) -> Option<(i32, u32, u32)>;

/// Relies on chrono's `NaiveDateTime::parse_from_str`: the result is a
/// function of the input text and the format alone.
#[verifier::external_body]
fn chrono_parse_date_time(input: &str, fmt: &str) -> (r: Option<Timestamp>)
    ensures
        r == dt_parse_of(input@, fmt@),
{
    match chrono::NaiveDateTime::parse_from_str(input, fmt) {
        Ok(t) => Some(Timestamp {
            year: t.year(),
            month: t.month(),
            day: t.day(),
            hour: t.hour(),
            minute: t.minute(),
            second: t.second(),
            nanos: t.nanosecond(),
        }),
        Err(_) => None,
    }
}

/// Relies on chrono's `NaiveDate::parse_from_str`: the result is a function
/// of the input text and the format alone.
#[verifier::external_body]
fn chrono_parse_date(input: &str, fmt: &str) -> (r: Option<(i32, u32, u32)>)
    ensures
        r == date_parse_of(input@, fmt@),
{
    match chrono::NaiveDate::parse_from_str(input, fmt) {
        Ok(d) => Some((d.year(), d.month(), d.day())),
        Err(_) => None,
    }
}

/// Relies on `core::str::from_utf8`: succeeds exactly on valid UTF-8, and the
/// returned slice views the input bytes.
#[verifier::external_body]
fn bytes_as_str(input: &[u8]) -> (r: Option<&str>)
    ensures
        r matches Some(s) ==> s.spec_bytes() == input@ && vstd::utf8::valid_utf8(input@),
        r is None ==> !vstd::utf8::valid_utf8(input@),
{
    core::str::from_utf8(input).ok()
}

/// What a record's timestamp text denotes: decode the bytes as UTF-8 and
/// parse them in the fixed `YYYY-MM-DD HH:MM:SS.mmm` layout.
pub open spec fn ts_text_parse(bytes: Seq<u8>) -> Option<Timestamp> {
    if vstd::utf8::valid_utf8(bytes) {
        dt_parse_of(vstd::utf8::decode_utf8(bytes), "%F %T.%3f"@)
    } else {
        None
    }
}

/// Parses a record timestamp in the fixed `YYYY-MM-DD HH:MM:SS.mmm` layout.
pub fn parse_timestamp(input: &[u8]) -> (r: Result<Timestamp, Error>)
    ensures
        r matches Ok(t) ==> ts_text_parse(input@) == Some(t),
        r is Err ==> ts_text_parse(input@) is None,
        r matches Err(e) ==> e is CannotParseTimestamp,
{
    match bytes_as_str(input) {
        Some(s) => {
            proof {
                vstd::utf8::encode_utf8_decode_utf8(s@);
            }
            match chrono_parse_date_time(s, "%F %T.%3f") {
                Some(t) => Ok(t),
                None => Err(Error::CannotParseTimestamp),
            }
        },
        None => Err(Error::CannotParseTimestamp),
    }
}

/// What an accepted command-line date/time text denotes: the first of four
/// layouts that parses, a bare date meaning midnight.
pub open spec fn cli_date_time_parse(s: Seq<char>) -> Option<Timestamp> {
    if dt_parse_of(s, "%F %T.%3f"@) is Some {
        dt_parse_of(s, "%F %T.%3f"@)
    } else if dt_parse_of(s, "%F %T"@) is Some {
        dt_parse_of(s, "%F %T"@)
    } else if dt_parse_of(s, "%F %R"@) is Some {
        dt_parse_of(s, "%F %R"@)
    } else {
        match date_parse_of(s, "%F"@) {
            Some((y, m, d)) => Some(
                Timestamp { year: y, month: m, day: d, hour: 0, minute: 0, second: 0, nanos: 0 },
            ),
            None => None,
        }
    }
}

/// Parses a command-line date/time option, trying the accepted layouts from
/// the most to the least precise.
pub fn parse_date_time_cli_option(input: &str, arg_name: &'static str) -> (r: Result<
    Timestamp,
    Error,
>)
    ensures
        r matches Ok(t) ==> cli_date_time_parse(input@) == Some(t),
        r is Err ==> cli_date_time_parse(input@) is None,
        r matches Err(e) ==> e matches Error::InvalidCliOptionValue(a) && a@ == arg_name@,
{
    if let Some(t) = chrono_parse_date_time(input, "%F %T.%3f") {
        Ok(t)
    } else if let Some(t) = chrono_parse_date_time(input, "%F %T") {
        Ok(t)
    } else if let Some(t) = chrono_parse_date_time(input, "%F %R") {
        Ok(t)
    } else if let Some((y, m, d)) = chrono_parse_date(input, "%F") {
        Ok(Timestamp { year: y, month: m, day: d, hour: 0, minute: 0, second: 0, nanos: 0 })
    } else {
        Err(Error::InvalidCliOptionValue(arg_name))
    }
}

} // verus!
