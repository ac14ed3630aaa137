//! Instants as milliseconds since the Unix epoch, with chrono as the
//! authority on which instants a UTC date-time can hold.
use vstd::prelude::*;

verus! {

/// The years that chrono's dates cover.
pub open spec fn utc_year_in_range(year: int) -> bool {
    -262143 <= year <= 262142
}

/// The leap years of the proleptic Gregorian calendar up to `y`, counted
/// from a fixed origin: differences of this count are exact for any years.
pub open spec fn leap_years_through(y: int) -> int {
    y / 4 - y / 100 + y / 400
}

/// Days from 1 January 1970 to 1 January of `year`.
pub open spec fn days_before_year(year: int) -> int {
    365 * (year - 1970) + leap_years_through(year - 1) - leap_years_through(1969)
}

/// Milliseconds from the epoch to 1 January of `year`, 00:00:00 UTC.
pub open spec fn year_start_ms(year: int) -> int {
    days_before_year(year) * 86_400_000
}

/// Whether chrono can hold the UTC instant `ms` milliseconds after the epoch:
/// from the first instant of its first year to the last of its last year.
pub open spec fn utc_millis_in_range(ms: int) -> bool {
    year_start_ms(-262143) <= ms < year_start_ms(262143)
}

/// Relies on `chrono::DateTime::from_timestamp_millis`, which returns `None`
/// exactly for an out-of-range number of milliseconds, the range being that
/// of chrono's dates.
#[verifier::external_body]
pub(crate) fn millis_in_utc_range(ms: i64) -> (r: bool)
    ensures
        r == utc_millis_in_range(ms as int),
{
    chrono::DateTime::from_timestamp_millis(ms).is_some()
}

/// Relies on `chrono::TimeZone::with_ymd_and_hms` for `Utc`, which gives one
/// instant for 1 January of any year in chrono's range and none outside it,
/// and on `chrono::DateTime::timestamp_millis`.
#[verifier::external_body]
fn year_start_millis(year: i32) -> (r: Option<i64>)
    ensures
        r is Some <==> utc_year_in_range(year as int),
        r matches Some(ms) ==> ms as int == year_start_ms(year as int),
{
    chrono::TimeZone::with_ymd_and_hms(&chrono::Utc, year, 1, 1, 0, 0, 0).single().map(
        |t| t.timestamp_millis(),
    )
}

/// The first instant of `year` in UTC as a query cursor, or `None` where
/// chrono cannot form it or it falls before the epoch.
pub fn start_of_year_cursor(year: i32) -> (r: Option<u64>)
    ensures
        r is Some <==> (utc_year_in_range(year as int) && year_start_ms(year as int) >= 0),
        r matches Some(ms) ==> ms as int == year_start_ms(year as int),
{
    match year_start_millis(year) {
        Some(ms) => cursor_from_millis(ms),
        None => None,
    }
}

/// A signed instant as an unsigned query cursor: `None` before the epoch.
pub fn cursor_from_millis(ms: i64) -> (r: Option<u64>)
    ensures
        r is Some <==> ms >= 0,
        r matches Some(c) ==> c as int == ms as int,
{
    if ms >= 0 {
        Some(ms as u64)
    } else {
        None
    }
}

} // verus!
