use vstd::prelude::*;
use vstd::utf8::encode_utf8;

verus! {

/// The form of a date and time in a document: year, month, day, hour,
/// minute and second in digits, a space, and the offset from UTC.
pub const FMT_DATETIME: &'static str = "%Y%m%d%H%M%S %z";

/// The same without the offset: the time is in UTC.
pub const FMT_DATETIME_UTC: &'static str = "%Y%m%d%H%M%S";

/// The same without the seconds and the offset.
pub const FMT_DATETIME_UTC_MINUTES: &'static str = "%Y%m%d%H%M";

/// What chrono's `DateTime::parse_from_str` reads from `value` under
/// `format`, in seconds since the epoch; `None` where it fails.
pub uninterp spec fn time_with_offset(value: Seq<char>, format: Seq<char>) -> Option<i64>;

/// What chrono's `NaiveDateTime::parse_from_str` reads from `value` under
/// `format`, taken as a time in UTC, in seconds since the epoch; `None`
/// where it fails.
pub uninterp spec fn time_without_offset(value: Seq<char>, format: Seq<char>) -> Option<i64>;

/// The text that chrono's `DateTime::format` gives for the time `seconds`
/// after the epoch in UTC under `format`; `None` where chrono has no such
/// time.
pub uninterp spec fn time_text(seconds: i64, format: Seq<char>) -> Option<Seq<char>>;

/// Calls chrono's `DateTime::parse_from_str`, which reads a date and time
/// with its offset, and takes the seconds since the epoch of what it gives.
/// The result is a function of the two texts alone.
#[verifier::external_body]
fn parse_with_offset(value: &str, format: &str) -> (r: Option<i64>)
    ensures
        r == time_with_offset(value@, format@),
{
    match chrono::DateTime::parse_from_str(value, format) {
        Ok(t) => Some(t.timestamp()),
        Err(_) => None,
    }
}

/// Calls chrono's `NaiveDateTime::parse_from_str`, which reads a date and
/// time without an offset, and takes the seconds since the epoch of that
/// time in UTC. The result is a function of the two texts alone.
#[verifier::external_body]
fn parse_without_offset(value: &str, format: &str) -> (r: Option<i64>)
    ensures
        r == time_without_offset(value@, format@),
{
    match chrono::NaiveDateTime::parse_from_str(value, format) {
        Ok(t) => Some(t.and_utc().timestamp()),
        Err(_) => None,
    }
}

/// Calls chrono's `DateTime::from_timestamp`, which gives the time in UTC
/// that lies `seconds` after the epoch or `None` where it has none, and
/// `DateTime::format` on it. The format is the one of documents, which
/// chrono can write. The result is a function of the arguments alone.
#[verifier::external_body]
fn format_seconds(seconds: i64, format: &str) -> (r: Option<String>)
    requires
        format@ == FMT_DATETIME@,
    ensures
        match r {
            Some(text) => time_text(seconds, format@) == Some(text@),
            None => time_text(seconds, format@).is_none(),
        },
{
    match chrono::DateTime::from_timestamp(seconds, 0) {
        Some(t) => Some(t.format(format).to_string()),
        None => None,
    }
}

/// The time that `value` stands for, in seconds since the epoch. A text of
/// more than 14 bytes is read with its offset, one of 14 bytes as a time in
/// UTC, one of 12 bytes as a time in UTC without seconds. Anything else, and
/// what cannot be read, gives 0. A time before the epoch comes out as the
/// 64 bits of its negative number.
pub open spec fn date_value(value: Seq<char>) -> u64 {
    let size = encode_utf8(value).len();
    let time = if size > 14 {
        time_with_offset(value, FMT_DATETIME@)
    } else if size == 14 {
        time_without_offset(value, FMT_DATETIME_UTC@)
    } else if size == 12 {
        time_without_offset(value, FMT_DATETIME_UTC_MINUTES@)
    } else {
        None
    };
    match time {
        Some(t) => t as u64,
        None => 0,
    }
}

/// The text of the time `seconds` in a document, in UTC. `seconds` is taken
/// as the 64 bits of a signed number.
pub open spec fn date_text(seconds: u64) -> Option<Seq<char>> {
    time_text(seconds as i64, FMT_DATETIME@)
}

/// Reads a date and time of a document.
pub fn parse_date(value: &str) -> (r: u64)
    ensures
        r == date_value(value@),
{
    let size = value.as_bytes().len();
    let time = if size > 14 {
        parse_with_offset(value, FMT_DATETIME)
    } else if size == 14 {
        parse_without_offset(value, FMT_DATETIME_UTC)
    } else if size == 12 {
        parse_without_offset(value, FMT_DATETIME_UTC_MINUTES)
    } else {
        None
    };
    match time {
        Some(t) => #[verifier::truncate]
        (t as u64),
        None => 0,
    }
}

/// Writes a time as a document holds it, in UTC; `None` where the time
/// lies outside what the calendar can hold.
pub fn format_date(seconds: u64) -> (r: Option<String>)
    ensures
        match r {
            Some(text) => date_text(seconds) == Some(text@),
            None => date_text(seconds).is_none(),
        },
{
    format_seconds(#[verifier::truncate] (seconds as i64), FMT_DATETIME)
}

} // verus!
