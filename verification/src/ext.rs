//! Most of the trusted boundary: the outside calls for time, calendar
//! formatting and Unicode case mapping and classification, each behind a
//! declared contract. The one other trusted item, the shell-log line
//! parser, stands beside its record type in the shell-log module.

use crate::ts_in_range;
use vstd::prelude::*;

verus! {

/// The lower-case mapping of a character sequence; the result depends on
/// the characters alone.
pub uninterp spec fn lower_of(s: Seq<char>) -> Seq<char>;

/// The upper-case mapping of a character sequence; the result depends on
/// the characters alone.
pub uninterp spec fn upper_of(s: Seq<char>) -> Seq<char>;

/// Whether a character has the Unicode `Alphabetic` property or is in a
/// numeric category.
pub uninterp spec fn unicode_alnum(c: char) -> bool;

/// The `year-month-day` label of a timestamp in milliseconds since the
/// Unix epoch, in UTC.
pub uninterp spec fn date_label(ts: i64) -> Seq<char>;

/// The milliseconds since the Unix epoch denoted by an RFC 3339 string,
/// or `None` where the string is not one.
pub uninterp spec fn rfc3339_millis(s: Seq<char>) -> Option<i64>;

/// Relies on `str::to_lowercase` of std: the lower-case equivalent of the
/// string, a function of its characters alone.
pub assume_specification[ str::to_lowercase ](s: &str) -> (r: String)
    ensures
        r@ == lower_of(s@),
;

/// Relies on `str::to_uppercase` of std: the upper-case equivalent of the
/// string, a function of its characters alone.
pub assume_specification[ str::to_uppercase ](s: &str) -> (r: String)
    ensures
        r@ == upper_of(s@),
;

/// Relies on `char::is_alphanumeric` of std: a fixed Unicode property of
/// the character.
pub assume_specification[ char::is_alphanumeric ](c: char) -> (r: bool)
    ensures
        r == unicode_alnum(c),
;

/// Relies on `std::time::SystemTime::now`: the current wall-clock time
/// in milliseconds since the Unix epoch. Nothing is promised of the
/// value; callers state what holds whatever came back. A clock set
/// before the epoch maps to the epoch rather than failing.
#[verifier::external_body]
pub(crate) fn now_millis() -> i64 {
    match std::time::SystemTime::now().duration_since(std::time::UNIX_EPOCH) {
        Ok(d) => d.as_millis() as i64,
        Err(_) => 0,
    }
}

/// Relies on chrono's `DateTime::from_timestamp_millis` and `format`:
/// the UTC calendar date of an in-range timestamp, as `%Y-%m-%d`. The
/// range bound keeps the conversion total.
#[verifier::external_body]
pub(crate) fn format_date(ts: i64) -> (r: String)
    requires
        ts_in_range(ts),
    ensures
        r@ == date_label(ts),
{
    let dt = chrono::DateTime::<chrono::Utc>::from_timestamp_millis(ts).unwrap();
    format!("{}", dt.format("%Y-%m-%d"))
}

/// Relies on chrono's `DateTime::parse_from_rfc3339` and
/// `timestamp_millis`: both are functions of the input string alone.
#[verifier::external_body]
pub(crate) fn parse_rfc3339_millis(s: &str) -> (r: Option<i64>)
    ensures
        r == rfc3339_millis(s@),
{
    match chrono::DateTime::parse_from_rfc3339(s) {
        Ok(dt) => Some(dt.timestamp_millis()),
        Err(_) => None,
    }
}

} // verus!
