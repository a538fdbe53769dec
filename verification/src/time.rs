//! Parsing of RFC 3339 timestamps, through chrono.
use vstd::prelude::*;

verus! {

/// Epoch seconds denoted by an RFC 3339 timestamp string; `None` where the
/// string is not a valid RFC 3339 date-and-time. The value is a function of
/// the characters alone.
pub uninterp spec fn rfc3339_secs(s: Seq<char>) -> Option<int>;

/// Relies on chrono's `DateTime::parse_from_rfc3339` and
/// `DateTime::timestamp`: the parse depends on the input characters alone,
/// and every chrono datetime lies within about 262,000 years of the epoch,
/// so its timestamp stays below 10^13 seconds in magnitude.
#[verifier::external_body]
pub fn parse_rfc3339_secs(s: &str) -> (r: Option<i64>)
    ensures
        r matches Some(t) ==> rfc3339_secs(s@) == Some(t as int) && -10_000_000_000_000 < t
            < 10_000_000_000_000,
        r is None ==> rfc3339_secs(s@) is None,
{
    match chrono::DateTime::parse_from_rfc3339(s) {
        Ok(t) => Some(t.timestamp()),
        Err(_) => None,
    }
}

} // verus!
