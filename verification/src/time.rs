//! Calendar computations, delegated to the `chrono` crate behind
//! trusted wrappers. Each result is a pure function of the timestamp
//! or text handed in, named by an uninterpreted spec function.

use vstd::prelude::*;

verus! {

/// The timestamp a `YYYY-MM-DDTHH:MM:SS` text denotes, when it parses.
pub uninterp spec fn parsed_timestamp_of(s: Seq<char>) -> Option<int>;

/// Relies on chrono's `NaiveDateTime::parse_from_str` with the fixed
/// `%Y-%m-%dT%H:%M:%S` pattern, then `and_utc().timestamp()`: the
/// outcome depends on the characters of `s` alone.
#[verifier::external_body]
pub fn parse_event_time(s: &str) -> (r: Option<i64>)
    ensures
        match r {
            Some(t) => parsed_timestamp_of(s@) == Some(t as int),
            None => parsed_timestamp_of(s@) is None,
        },
{
    match chrono::NaiveDateTime::parse_from_str(s, "%Y-%m-%dT%H:%M:%S") {
        Ok(dt) => Some(dt.and_utc().timestamp()),
        Err(_) => None,
    }
}

/// The calendar-date line (`YYYY-MM-DD`) for a timestamp.
pub uninterp spec fn date_line_of(t: int) -> Seq<char>;

/// Relies on chrono's `DateTime::from_timestamp`, `date_naive` and
/// `NaiveDate`'s `Display`: the date line depends on `t` alone.
#[verifier::external_body]
pub fn format_date(t: u64) -> (r: String)
    ensures
        r@ == date_line_of(t as int),
{
    match chrono::DateTime::from_timestamp(t as i64, 0) {
        Some(dt) => dt.date_naive().to_string(),
        None => String::new(),
    }
}

/// The full timestamp line (`YYYY-MM-DD HH:MM:SS`) for a timestamp.
pub uninterp spec fn datetime_line_of(t: int) -> Seq<char>;

/// Relies on chrono's `DateTime::from_timestamp`, `naive_utc` and
/// `NaiveDateTime`'s `Display`: the line depends on `t` alone.
#[verifier::external_body]
pub fn format_datetime(t: u64) -> (r: String)
    ensures
        r@ == datetime_line_of(t as int),
{
    match chrono::DateTime::from_timestamp(t as i64, 0) {
        Some(dt) => dt.naive_utc().to_string(),
        None => String::new(),
    }
}

/// The calendar day a timestamp falls on, as days since the epoch:
/// the civil date changes exactly when this quotient does.
pub open spec fn day_index(t: int) -> int {
    t / 86400
}

/// The day a task's start instant falls on.
pub fn day_of(t: u64) -> (r: u64)
    ensures
        r as int == day_index(t as int),
{
    t / 86400
}

} // verus!
