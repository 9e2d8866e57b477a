use vstd::prelude::*;

use chrono::{Datelike, Timelike};

verus! {

/// Whether `y` is a leap year of the proleptic Gregorian calendar.
pub open spec fn is_leap_year(y: int) -> bool {
    y % 4 == 0 && (y % 100 != 0 || y % 400 == 0)
}

/// The number of days of month `mo` of year `y`.
pub open spec fn days_in_month(y: int, mo: int) -> int {
    if mo == 2 {
        if is_leap_year(y) {
            29
        } else {
            28
        }
    } else if mo == 4 || mo == 6 || mo == 9 || mo == 11 {
        30
    } else {
        31
    }
}

/// Whether the six fields name a real calendar date and time of day.
pub open spec fn valid_civil(y: u16, mo: u8, d: u8, h: u8, mi: u8, s: u8) -> bool {
    &&& 1 <= mo <= 12
    &&& 1 <= d <= days_in_month(y as int, mo as int)
    &&& h < 24
    &&& mi < 60
    &&& s < 60
}

/// The UTC calendar fields (year truncated to 16 bits, month, day, hour,
/// minute, second) of a count of seconds since the Unix epoch, or `None`
/// when the count lies outside the representable calendar.
pub uninterp spec fn civil_of(ts: int) -> Option<(u16, u8, u8, u8, u8, u8)>;

/// Relies on chrono's `DateTime::from_timestamp` (with zero nanoseconds)
/// and the `Datelike`/`Timelike` accessors of its UTC naive view: the
/// result is a function of the timestamp alone, and `None` comes only
/// from a timestamp outside the supported calendar range.
#[verifier::external_body]
pub fn timestamp_to_civil(ts: i64) -> (r: Option<(u16, u8, u8, u8, u8, u8)>)
    ensures
        r == civil_of(ts as int),
{
    match chrono::DateTime::from_timestamp(ts, 0) {
        None => None,
        Some(dt) => {
            let d = dt.naive_utc();
            Some((d.year() as u16, d.month() as u8, d.day() as u8, d.hour() as u8,
                d.minute() as u8, d.second() as u8))
        },
    }
}

/// The count of seconds since the Unix epoch of a UTC calendar date and
/// time of day.
pub uninterp spec fn unix_of(y: u16, mo: u8, d: u8, h: u8, mi: u8, s: u8) -> i64;

/// Relies on chrono's `NaiveDate::from_ymd_opt`, which is `None` exactly
/// for a day that does not exist (every 16-bit year lies inside its
/// range), `NaiveTime::from_hms_opt`, which is `None` exactly for an
/// hour, minute or second out of range, and `NaiveDateTime::and_utc`'s
/// timestamp, a function of the fields alone.
#[verifier::external_body]
pub fn civil_to_timestamp(y: u16, mo: u8, d: u8, h: u8, mi: u8, s: u8) -> (r: Option<i64>)
    ensures
        r is Some <==> valid_civil(y, mo, d, h, mi, s),
        r matches Some(t) ==> t == unix_of(y, mo, d, h, mi, s),
{
    let date = chrono::NaiveDate::from_ymd_opt(y as i32, mo as u32, d as u32)?;
    let time = chrono::NaiveTime::from_hms_opt(h as u32, mi as u32, s as u32)?;
    Some(chrono::NaiveDateTime::new(date, time).and_utc().timestamp())
}

} // verus!
