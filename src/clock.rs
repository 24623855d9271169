//! UTC instants as milliseconds since the Unix epoch, with the calendar
//! facts that only chrono can supply.

use chrono::{DateTime, Utc};
use vstd::prelude::*;

verus! {

/// Whether chrono can represent this many milliseconds since the epoch as a
/// UTC instant.
pub uninterp spec fn millis_in_range(ms: int) -> bool;

/// The UTC calendar date `YYYY-MM-DD` of an instant, as chrono formats it.
pub uninterp spec fn utc_date_of(ms: int) -> Seq<char>;

/// Relies on `DateTime::from_timestamp_millis` (chrono), which returns `None`
/// exactly for instants out of its range.
#[verifier::external_body]
pub(crate) fn in_range(ms: i64) -> (r: bool)
    ensures
        r == millis_in_range(ms as int),
{
    DateTime::from_timestamp_millis(ms).is_some()
}

/// Relies on chrono's `format("%Y-%m-%d")` of `DateTime::from_timestamp_millis`,
/// with the epoch standing in for an instant out of range.
#[verifier::external_body]
pub(crate) fn utc_date(ms: i64) -> (r: String)
    ensures
        r@ == utc_date_of(ms as int),
{
    DateTime::from_timestamp_millis(ms).unwrap_or_default().format("%Y-%m-%d").to_string()
}

/// Relies on `Utc::now` (chrono): the current instant, as milliseconds.
#[verifier::external_body]
pub(crate) fn now_millis() -> (r: i64) {
    Utc::now().timestamp_millis()
}

} // verus!
