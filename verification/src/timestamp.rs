//! Rendering of Unix timestamps as ISO 8601 text.

use vstd::prelude::*;

verus! {

/// The first second that can be rendered: midnight before 1 January of
/// the year -262143, in the proleptic Gregorian calendar.
pub const MIN_TIMESTAMP: i64 = -8_334_601_228_800;

/// The last second that can be rendered: the last one of 31 December of
/// the year 262142.
pub const MAX_TIMESTAMP: i64 = 8_210_266_876_799;

/// What stands in place of a timestamp that cannot be rendered.
pub const INVALID_DATE: &'static str = "Invalid Date";

/// Whether the timestamp lies in the range of dates that can be rendered.
pub open spec fn representable(seconds: i64) -> bool {
    MIN_TIMESTAMP <= seconds <= MAX_TIMESTAMP
}

/// The RFC 3339 text of the UTC instant `seconds` after the Unix epoch, as
/// the `chrono` crate writes it: date, `T`, time of day, and the offset
/// `+00:00`.
pub uninterp spec fn rfc3339_text(seconds: i64) -> Seq<char>;

/// Calls `chrono::DateTime::from_timestamp` with no nanoseconds and, where
/// that gives an instant, `chrono::DateTime::to_rfc3339` on it.
///
/// Trusted, not proved: `chrono` accepts exactly the timestamps between
/// `MIN_TIMESTAMP` and `MAX_TIMESTAMP`, the years -262143 to 262142 that its
/// dates can hold, and the text it writes for an instant depends on the
/// timestamp alone.
#[verifier::external_body]
fn rfc3339_from_timestamp(seconds: i64) -> (text: Option<String>)
    ensures
        text is Some <==> representable(seconds),
        text matches Some(written) ==> written@ == rfc3339_text(seconds),
{
    match chrono::DateTime::from_timestamp(seconds, 0) {
        Some(instant) => Some(instant.to_rfc3339()),
        None => None,
    }
}

/// The text shown for a timestamp: its RFC 3339 form where it has one,
/// `Invalid Date` otherwise.
pub open spec fn first_seen_text(seconds: i64) -> Seq<char> {
    if representable(seconds) {
        rfc3339_text(seconds)
    } else {
        INVALID_DATE@
    }
}

/// Gives the rendered timestamp back, or `Invalid Date` where rendering
/// gave nothing.
pub fn text_or_invalid_date(rendered: Option<String>) -> (text: String)
    ensures
        text@ == match rendered {
            Some(written) => written@,
            None => INVALID_DATE@,
        },
{
    match rendered {
        Some(written) => written,
        None => INVALID_DATE.to_owned(),
    }
}

/// Renders a Unix timestamp in seconds as an ISO 8601 date and time in
/// UTC, or as `Invalid Date` where it is out of range.
pub fn format_first_seen(first_seen: i64) -> (text: String)
    ensures
        text@ == first_seen_text(first_seen),
{
    text_or_invalid_date(rfc3339_from_timestamp(first_seen))
}

} // verus!
