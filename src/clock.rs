//! Instants as milliseconds since the unix epoch, and the wall clock.

use crate::cmd::{Expiry, Time};
use vstd::prelude::*;

verus! {

/// The first instant chrono's `DateTime<Utc>` represents, in milliseconds:
/// January 1 of the year -262143, at midnight.
pub const MIN_INSTANT: i64 = -8_334_601_228_800_000;

/// The last instant chrono's `DateTime<Utc>` represents, in milliseconds:
/// the last millisecond of December 31 of the year 262142.
pub const MAX_INSTANT: i64 = 8_210_266_876_799_999;

/// Reads the wall clock, in milliseconds since the unix epoch.
///
/// Relies on chrono's `Utc::now` and `DateTime::timestamp_millis`. Nothing is
/// promised of the reading.
#[verifier::external_body]
pub fn now_millis() -> (r: i64) {
    chrono::Utc::now().timestamp_millis()
}

/// The instant `ms` when chrono's `DateTime<Utc>` can hold it.
///
/// Relies on chrono's `DateTime::from_timestamp_millis`: `None` exactly on
/// instants outside its calendar, which runs from `NaiveDate::MIN`
/// (-262143-01-01) to `NaiveDate::MAX` (262142-12-31), and otherwise an
/// instant that round-trips through `timestamp_millis`.
#[verifier::external_body]
fn representable(ms: i64) -> (r: Option<i64>)
    ensures
        r == if MIN_INSTANT <= ms <= MAX_INSTANT { Some(ms) } else { None::<i64> },
{
    chrono::DateTime::from_timestamp_millis(ms).map(|d| d.timestamp_millis())
}

/// A duration or timestamp in milliseconds.
pub open spec fn time_millis(t: Time) -> int {
    match t {
        Time::Seconds(s) => s * 1000,
        Time::Millis(m) => m as int,
    }
}

/// The absolute instant an expiry stands for when resolved at `now`.
pub open spec fn expiry_instant(e: Expiry, now: int) -> int {
    match e {
        Expiry::Time(t) => now + time_millis(t),
        Expiry::Unix(t) => time_millis(t),
    }
}

/// The time an expiry carries, in milliseconds.
pub open spec fn expiry_time(e: Expiry) -> Time {
    match e {
        Expiry::Time(t) => t,
        Expiry::Unix(t) => t,
    }
}

/// An expiry resolves when its time fits an `i64` in milliseconds and the
/// instant it falls at is one chrono represents.
pub open spec fn resolvable(e: Expiry, now: int) -> bool {
    &&& time_millis(expiry_time(e)) <= i64::MAX
    &&& MIN_INSTANT <= expiry_instant(e, now) <= MAX_INSTANT
}

fn millis_of(t: Time) -> (r: Option<i64>)
    ensures
        r matches Some(m) ==> m as int == time_millis(t),
        time_millis(t) <= i64::MAX ==> r is Some,
{
    match t {
        Time::Seconds(s) => if s <= (i64::MAX as u64) / 1000 {
            Some((s * 1000) as i64)
        } else {
            None
        },
        Time::Millis(m) => if m <= i64::MAX as u64 {
            Some(m as i64)
        } else {
            None
        },
    }
}

impl Expiry {
    /// The absolute instant, in milliseconds since the epoch, at which this
    /// expiry falls when resolved at `now`; `None` exactly when its time does
    /// not fit an `i64` in milliseconds or that instant is out of range.
    pub fn into_utc(self, now: i64) -> (r: Option<i64>)
        ensures
            r == if resolvable(self, now as int) {
                Some(expiry_instant(self, now as int) as i64)
            } else {
                None::<i64>
            },
    {
        match self {
            Expiry::Time(t) => match millis_of(t) {
                None => None,
                Some(delta) => match now.checked_add(delta) {
                    None => None,
                    Some(at) => representable(at),
                },
            },
            Expiry::Unix(t) => match millis_of(t) {
                None => None,
                Some(at) => representable(at),
            },
        }
    }
}

} // verus!
