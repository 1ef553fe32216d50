//! UTC calendar days as midnight timestamps.
//!
//! The whole index speaks of days as seconds-since-epoch timestamps that are
//! exact multiples of 86 400. Conversion from a calendar date to such a
//! timestamp is delegated to chrono; everything downstream works on the
//! timestamps alone.

use vstd::prelude::*;

verus! {

/// Seconds in one UTC day.
pub const ONE_DAY: i64 = 86400;

/// A bound on any day timestamp chrono can produce: chrono's `NaiveDate`
/// spans years -262143..=262142, whose midnights lie well within
/// 9_000_000_000_000 seconds of the epoch. Keeping day timestamps inside
/// this bound lets day arithmetic stay far away from `i64` overflow.
pub const MAX_DAY_TS: i64 = 9_000_000_000_000;

/// A day timestamp: midnight UTC of some calendar day.
pub open spec fn is_day_ts(ts: i64) -> bool {
    &&& ts % 86400 == 0
    &&& -MAX_DAY_TS <= ts <= MAX_DAY_TS
}

/// A calendar date, as plain year/month/day numbers.
#[derive(Debug, Clone, Copy, PartialEq, Eq, Structural)]
pub struct DateYmd {
    pub year: i32,
    pub month: u32,
    pub day: u32,
}

/// The timestamp chrono assigns to midnight UTC of (year, month, day),
/// or `None` where the triple is not a real calendar date.
pub uninterp spec fn day_ts_of(year: i32, month: u32, day: u32) -> Option<i64>;

/// Relies on chrono's `NaiveDate::from_ymd_opt` and
/// `NaiveDateTime::and_utc().timestamp()`: the timestamp of midnight UTC of a
/// calendar date is a function of the date alone, is a multiple of 86 400
/// (a count of non-leap seconds since midnight UTC on the epoch), and is
/// bounded because chrono's dates span years -262143..=262142.
#[verifier::external_body]
fn ymd_to_day_ts(year: i32, month: u32, day: u32) -> (r: Option<i64>)
    ensures
        r == day_ts_of(year, month, day),
        r matches Some(ts) ==> is_day_ts(ts),
{
    let date = chrono::NaiveDate::from_ymd_opt(year, month, day)?;
    let midnight = date.and_hms_opt(0, 0, 0)?;
    Some(midnight.and_utc().timestamp())
}

/// The day timestamp of midnight UTC of a calendar date, or `None` where the
/// triple is not a real calendar date.
pub fn day_ts(year: i32, month: u32, day: u32) -> (r: Option<i64>)
    ensures
        r == day_ts_of(year, month, day),
        r matches Some(ts) ==> is_day_ts(ts),
{
    ymd_to_day_ts(year, month, day)
}

/// What the coarse per-level date filter of the snapshot crawler accepts:
/// the year is always compared, the month and day only at the directory
/// levels where they are known.
pub open spec fn spec_check_date(
    date: DateYmd,
    from: Option<DateYmd>,
    until: Option<DateYmd>,
    check_month: bool,
    check_day: bool,
) -> bool {
    let from_match = match from {
        Some(f) => {
            &&& date.year >= f.year
            &&& (check_month ==> date.month >= f.month)
            &&& (check_day ==> date.day >= f.day)
        },
        None => true,
    };
    let until_match = match until {
        Some(u) => {
            &&& date.year <= u.year
            &&& (check_month ==> date.month <= u.month)
            &&& (check_day ==> date.day <= u.day)
        },
        None => true,
    };
    from_match && until_match
}

/// Coarse date filter used while crawling year/month/day directory listings:
/// each component is compared independently against the bounds, so the filter
/// over-approximates the real date interval at the year and month levels.
pub fn check_date(
    date: DateYmd,
    from: Option<DateYmd>,
    until: Option<DateYmd>,
    check_month: bool,
    check_day: bool,
) -> (r: bool)
    ensures
        r == spec_check_date(date, from, until, check_month, check_day),
{
    let from_match = match from {
        Some(f) => {
            date.year >= f.year
                && (!check_month || date.month >= f.month)
                && (!check_day || date.day >= f.day)
        },
        None => true,
    };
    let until_match = match until {
        Some(u) => {
            date.year <= u.year
                && (!check_month || date.month <= u.month)
                && (!check_day || date.day <= u.day)
        },
        None => true,
    };
    from_match && until_match
}

} // verus!
