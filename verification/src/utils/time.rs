//! Points in time and their text.

use vstd::prelude::*;

verus! {

//------------ Timestamp -----------------------------------------------------

/// A point in time: the seconds since the unix epoch and the nanoseconds
/// beyond them.
#[derive(Clone, Copy, Debug, PartialEq, Eq, Structural)]
pub struct Timestamp {
    pub secs: i64,
    pub nanos: u32,
}

/// Division rounded towards zero.
pub open spec fn trunc_div(n: int, d: int) -> int
    recommends
        d > 0,
{
    if n >= 0 {
        n / d
    } else {
        -((-n) / d)
    }
}

/// The whole milliseconds from the time `secs` and `nanos` to `now`,
/// rounded towards zero.
pub open spec fn millis_between(secs: i64, nanos: u32, now: Timestamp) -> int {
    trunc_div((now.secs - secs) * 1_000_000_000 + now.nanos - nanos, 1_000_000)
}

/// Returns the whole milliseconds from the time `secs` and `nanos` to
/// `now`, rounded towards zero.
pub fn millis_since(secs: i64, nanos: u32, now: Timestamp) -> (res: i128)
    ensures
        res == millis_between(secs, nanos, now),
{
    let d: i128 = (now.secs as i128 - secs as i128) * 1_000_000_000 + now.nanos as i128
        - nanos as i128;
    if d >= 0 {
        d / 1_000_000
    } else {
        -((-d) / 1_000_000)
    }
}

//------------ Text ----------------------------------------------------------

/// The text of a point in time as a `chrono::DateTime<Utc>` displays it,
/// if the time is within the range of such a value.
pub uninterp spec fn utc_text(secs: i64, nanos: u32) -> Option<Seq<char>>;

/// Returns the text of a point in time in UTC.
///
/// This calls `chrono::DateTime::from_timestamp` and displays the result.
/// The contract claims only that the text is a function of the time; it
/// is `None` where chrono has no value for the time.
#[verifier::external_body]
pub(crate) fn format_utc(t: Timestamp) -> (res: Option<String>)
    ensures
        match res {
            Some(text) => utc_text(t.secs, t.nanos) == Some(text@),
            None => utc_text(t.secs, t.nanos) is None,
        },
{
    match chrono::DateTime::from_timestamp(t.secs, t.nanos) {
        Some(time) => Some(time.to_string()),
        None => None,
    }
}

/// The text of a time given in whole seconds as chrono writes it in the
/// format of RFC 3339 with whole seconds and `Z` for UTC, if the time is
/// within chrono’s range.
pub uninterp spec fn rfc3339_text(secs: i64) -> Option<Seq<char>>;

/// Returns the text of a time in whole seconds in RFC 3339 format, such as
/// `2018-01-26T18:30:09Z`.
///
/// This calls `chrono::DateTime::from_timestamp` and
/// `DateTime::to_rfc3339_opts` with whole seconds and `Z`. The contract
/// claims only that the text is a function of the time; it is `None` where
/// chrono has no value for the time.
#[verifier::external_body]
pub(crate) fn format_rfc3339(secs: i64) -> (res: Option<String>)
    ensures
        match res {
            Some(text) => rfc3339_text(secs) == Some(text@),
            None => rfc3339_text(secs) is None,
        },
{
    match chrono::DateTime::from_timestamp(secs, 0) {
        Some(time) => Some(time.to_rfc3339_opts(chrono::SecondsFormat::Secs, true)),
        None => None,
    }
}

} // verus!
