//! Calendar facts of UTC timestamps, computed by `chrono`.
//!
//! A timestamp is a count of non-leap seconds since 1970-01-01T00:00:00Z and
//! a count of nanoseconds into the second; that count reaches past one
//! second only during a leap second, which `chrono` puts at the 59th second
//! of a minute.
use vstd::prelude::*;
use chrono::{DateTime, Datelike, Timelike};

verus! {

/// The earliest second that `chrono` represents: -262143-01-01T00:00:00Z.
pub const MIN_SECS: i64 = -8_334_601_228_800;

/// The latest second that `chrono` represents: +262142-12-31T23:59:59Z.
pub const MAX_SECS: i64 = 8_210_266_876_799;

/// Nanoseconds in a second.
pub const NANOS_PER_SEC: u32 = 1_000_000_000;

/// Whether `chrono` represents the instant: a second in its range and a
/// nanosecond count below one second, or below two seconds during a leap
/// second.
pub open spec fn valid_instant(secs: i64, nanos: u32) -> bool {
    &&& MIN_SECS <= secs <= MAX_SECS
    &&& (nanos < NANOS_PER_SEC || (nanos < 2 * NANOS_PER_SEC && secs % 60 == 59))
}

/// The hour of day of a timestamp.
pub open spec fn spec_hour(secs: i64) -> int {
    (secs % 86_400) / 3_600
}

/// The day of week of a timestamp, Monday being 0 (1970-01-01 was a
/// Thursday).
pub open spec fn spec_weekday(secs: i64) -> int {
    (secs / 86_400 + 3) % 7
}

/// Division rounded toward zero.
pub open spec fn trunc_div(a: int, b: int) -> int {
    if a >= 0 {
        a / b
    } else {
        -((-a) / b)
    }
}

/// The whole seconds, rounded down, and the remaining nanoseconds from the
/// instant `(es, en)` to the instant `(ls, ln)`, as `chrono` counts them:
/// whole days between the two dates, then the seconds between the two times
/// of day, where a leap second counts as one more second only when the other
/// time lies on the other side of it.
pub open spec fn spec_elapsed(ls: i64, ln: u32, es: i64, en: u32) -> (int, int) {
    let t1 = ls % 86_400;
    let t0 = es % 86_400;
    let days = ls / 86_400 - es / 86_400;
    let s = if t1 > t0 && en >= NANOS_PER_SEC {
        t1 - t0 + 1
    } else if t1 < t0 && ln >= NANOS_PER_SEC {
        t1 - t0 - 1
    } else {
        t1 - t0
    };
    let f = ln - en;
    (days * 86_400 + s + f / (NANOS_PER_SEC as int), f % (NANOS_PER_SEC as int))
}

/// The whole minutes from the instant `(es, en)` to the instant `(ls, ln)`,
/// rounded toward zero (negative when the first is later).
pub open spec fn spec_minutes_between(ls: i64, ln: u32, es: i64, en: u32) -> int {
    let secs = spec_elapsed(ls, ln, es, en).0;
    let frac = spec_elapsed(ls, ln, es, en).1;
    let whole = if secs < 0 && frac > 0 {
        secs + 1
    } else {
        secs
    };
    trunc_div(whole, 60)
}

/// Calls `DateTime::<Utc>::from_timestamp` and then `Timelike::hour`. The
/// contract claims that exactly the instants in `chrono`'s range give a
/// result, and that the hour is the count of whole hours since the start of
/// the UTC day.
#[verifier::external_body]
fn utc_hour(secs: i64, nanos: u32) -> (hour: Option<u32>)
    ensures
        hour is Some <==> valid_instant(secs, nanos),
        hour matches Some(h) ==> h == spec_hour(secs),
{
    match DateTime::from_timestamp(secs, nanos) {
        Some(dt) => Some(dt.hour()),
        None => None,
    }
}

/// Calls `DateTime::<Utc>::from_timestamp`, then `Datelike::weekday` and
/// `Weekday::num_days_from_monday`. The contract claims that exactly the
/// instants in `chrono`'s range give a result, and that it counts the days
/// since the last Monday of the proleptic Gregorian calendar in UTC.
#[verifier::external_body]
fn utc_weekday(secs: i64, nanos: u32) -> (day: Option<u32>)
    ensures
        day is Some <==> valid_instant(secs, nanos),
        day matches Some(d) ==> d == spec_weekday(secs),
{
    match DateTime::from_timestamp(secs, nanos) {
        Some(dt) => Some(dt.weekday().num_days_from_monday()),
        None => None,
    }
}

/// Calls `DateTime::<Utc>::from_timestamp` on both instants, then
/// `DateTime::signed_duration_since` and `TimeDelta::num_minutes`. The
/// contract claims that exactly two instants in `chrono`'s range give a
/// result, and that it is the difference in whole minutes rounded toward
/// zero, leap seconds counted as `chrono` counts them.
#[verifier::external_body]
fn utc_minutes_between(later_secs: i64, later_nanos: u32, earlier_secs: i64, earlier_nanos: u32) -> (minutes: Option<i64>)
    ensures
        minutes is Some <==> (valid_instant(later_secs, later_nanos) && valid_instant(earlier_secs, earlier_nanos)),
        minutes matches Some(m) ==> m == spec_minutes_between(later_secs, later_nanos, earlier_secs, earlier_nanos),
{
    match (DateTime::from_timestamp(later_secs, later_nanos), DateTime::from_timestamp(earlier_secs, earlier_nanos)) {
        (Some(later), Some(earlier)) => Some(later.signed_duration_since(earlier).num_minutes()),
        _ => None,
    }
}

/// An instant that `chrono` represents.
pub struct Timestamp {
    secs: i64,
    nanos: u32,
}

impl Timestamp {
    #[verifier::type_invariant]
    spec fn inv(self) -> bool {
        valid_instant(self.secs, self.nanos)
    }

    /// The seconds since the epoch.
    pub closed spec fn spec_secs(&self) -> i64 {
        self.secs
    }

    /// The nanoseconds into the second.
    pub closed spec fn spec_nanos(&self) -> u32 {
        self.nanos
    }

    /// The instant `secs` seconds and `nanos` nanoseconds after the epoch,
    /// when `chrono` represents it.
    pub fn new(secs: i64, nanos: u32) -> (t: Option<Self>)
        ensures
            t is Some <==> valid_instant(secs, nanos),
            t matches Some(t) ==> t.spec_secs() == secs && t.spec_nanos() == nanos,
    {
        let r: i64 = secs % 60;
        let second_of_minute: i64 = if r < 0 {
            r + 60
        } else {
            r
        };
        assert(second_of_minute == secs % 60);
        if MIN_SECS <= secs && secs <= MAX_SECS && (nanos < NANOS_PER_SEC || (nanos < 2 * NANOS_PER_SEC
            && second_of_minute == 59)) {
            Some(Timestamp { secs, nanos })
        } else {
            None
        }
    }

    /// The hour of day, from 0 to 23.
    pub fn hour_of_day(&self) -> (hour: u32)
        ensures
            hour == spec_hour(self.spec_secs()),
            hour < 24,
    {
        proof {
            use_type_invariant(self);
        }
        match utc_hour(self.secs, self.nanos) {
            Some(h) => h,
            None => 0,
        }
    }

    /// The day of week, from 0 for Monday to 6 for Sunday.
    pub fn day_of_week(&self) -> (day: u32)
        ensures
            day == spec_weekday(self.spec_secs()),
            day < 7,
    {
        proof {
            use_type_invariant(self);
        }
        match utc_weekday(self.secs, self.nanos) {
            Some(d) => d,
            None => 0,
        }
    }

    /// The whole minutes from `earlier` to this instant, rounded toward zero
    /// (negative when `earlier` is later).
    pub fn minutes_since(&self, earlier: &Timestamp) -> (minutes: i64)
        ensures
            minutes == spec_minutes_between(self.spec_secs(), self.spec_nanos(), earlier.spec_secs(), earlier.spec_nanos()),
            self.spec_secs() < earlier.spec_secs() || (self.spec_secs() == earlier.spec_secs() && self.spec_nanos()
                <= earlier.spec_nanos()) ==> minutes <= 0,
            self.spec_secs() >= earlier.spec_secs() + 86_400 && self.spec_nanos() >= earlier.spec_nanos() ==> minutes
                >= 1440,
    {
        proof {
            use_type_invariant(self);
            use_type_invariant(earlier);
        }
        match utc_minutes_between(self.secs, self.nanos, earlier.secs, earlier.nanos) {
            Some(m) => m,
            None => 0,
        }
    }
}

/// The minutes from the last transaction to a request, when there was a
/// last transaction.
pub fn minutes_since_last_tx(requested_at: &Timestamp, last_tx: Option<&Timestamp>) -> (minutes: Option<i64>)
    ensures
        last_tx is None ==> minutes is None,
        last_tx matches Some(t) ==> minutes matches Some(m) && m == spec_minutes_between(
            requested_at.spec_secs(),
            requested_at.spec_nanos(),
            t.spec_secs(),
            t.spec_nanos(),
        ),
{
    match last_tx {
        None => None,
        Some(tx) => Some(requested_at.minutes_since(tx)),
    }
}

} // verus!
