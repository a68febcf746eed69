//! Instants, the proleptic Gregorian calendar, period-aligned truncation,
//! and the trigger-window test.
//!
//! An instant is a count of non-leap seconds since 1970-01-01T00:00:00 UTC.

use vstd::prelude::*;
use vstd::arithmetic::div_mod::{lemma_fundamental_div_mod, lemma_fundamental_div_mod_converse};
use chrono::{Datelike, TimeZone, Timelike};
use crate::error::{FestiveError, FestiveResult};

verus! {

pub const SECS_PER_DAY: i64 = 86400;

/// Puzzles unlock at 05:00 UTC, i.e. at midnight UTC-05:00; truncation is
/// centred on that offset.
pub const UNLOCK_OFFSET_SECS: i64 = 18000;

/// The engine works on instants from the Unix epoch through
/// 9999-12-31T23:59:59 UTC, the last instant whose RFC 3339 form keeps a
/// four-digit year. This is narrower than the calendar crate's own range:
/// a completion instant outside it is treated as unrepresentable (a
/// conversion error at the feed), because every delivered instant must
/// round-trip through the RFC 3339 checkpoint record.
pub const TS_MAX: i64 = 253402300799;

/// Valid instant range for the engine.
pub open spec fn ts_in_range(t: int) -> bool {
    0 <= t <= TS_MAX as int
}

/// Days from 1970-01-01 to the civil date `y-m-d` in the proleptic
/// Gregorian calendar (negative for earlier dates).
pub open spec fn days_from_civil(y: int, m: int, d: int) -> int {
    let yy = if m <= 2 { y - 1 } else { y };
    let era = yy / 400;
    let yoe = yy - era * 400;
    let mp = (m + 9) % 12;
    let doy = (153 * mp + 2) / 5 + d - 1;
    let doe = yoe * 365 + yoe / 4 - yoe / 100 + doy;
    era * 146097 + doe - 719468
}

/// The instant a given day's puzzle unlocks: 05:00 UTC on `day` December
/// of `year`.
pub open spec fn unlock_instant(year: int, day: int) -> int {
    days_from_civil(year, 12, day) * (SECS_PER_DAY as int) + (UNLOCK_OFFSET_SECS as int)
}

/// Integer division truncated toward zero (for day counts), with `b > 0`.
pub open spec fn div_trunc(a: int, b: int) -> int
    recommends
        b > 0,
{
    if a >= 0 {
        a / b
    } else {
        -((-a) / b)
    }
}

/// A leap year of the proleptic Gregorian calendar.
pub open spec fn is_leap_year(y: int) -> bool {
    (y % 4 == 0 && y % 100 != 0) || y % 400 == 0
}

/// The days in a month of the proleptic Gregorian calendar.
pub open spec fn days_in_month(y: int, m: int) -> int
    recommends
        1 <= m <= 12,
{
    if m == 2 {
        if is_leap_year(y) {
            29
        } else {
            28
        }
    } else if m == 4 || m == 6 || m == 9 || m == 11 {
        30
    } else {
        31
    }
}

/// `t` lies in the half-open window `(prev, cur]`.
pub open spec fn in_window(prev: int, cur: int, t: int) -> bool {
    prev < t <= cur
}

/// Whether an instant falls in the window that has just elapsed.
///
/// An instant that occurred since the previous wakeup, up to and including
/// the current one, triggers work this iteration.
pub fn triggered(prev: i64, cur: i64, t: i64) -> (r: bool)
    ensures
        r == in_window(prev as int, cur as int, t as int),
{
    prev < t && t <= cur
}

/// `ts` truncated down to a multiple of `dur` seconds, with the day
/// boundary shifted to the unlock offset (midnight UTC-05:00).
pub open spec fn trunc_instant(ts: int, dur: int) -> int
    recommends
        dur > 0,
{
    let local = ts - UNLOCK_OFFSET_SECS as int;
    (local / dur) * dur + UNLOCK_OFFSET_SECS as int
}

/// Truncate an instant down to the nearest multiple of a duration, centred
/// on the unlock offset; a non-positive duration cannot be truncated to.
pub fn trunc_ts_core(ts: i64, dur: i64) -> (r: FestiveResult<i64>)
    requires
        ts_in_range(ts as int),
    ensures
        dur > 0 ==> r == Ok::<i64, FestiveError>(trunc_instant(ts as int, dur as int) as i64),
        dur <= 0 ==> r == Err::<i64, FestiveError>(FestiveError::Conv),
        r matches Ok(v) ==> v <= ts && ts < v + dur,
        r matches Ok(v) ==> v as int == trunc_instant(ts as int, dur as int),
{
    if dur <= 0 {
        return Err(FestiveError::Conv);
    }
    let local = ts - UNLOCK_OFFSET_SECS;
    // Euclidean remainder of `local` by `dur`, written over non-negative
    // operands only.
    let rem: i64 = if local >= 0 {
        local % dur
    } else {
        let m = (-local) % dur;
        if m == 0 {
            0
        } else {
            dur - m
        }
    };
    proof {
        let l = local as int;
        let d = dur as int;
        assert(rem as int == l - (l / d) * d && 0 <= rem < d) by {
            if l >= 0 {
                lemma_fundamental_div_mod(l, d);
            } else {
                lemma_fundamental_div_mod(-l, d);
                let m = (-l) % d;
                if m == 0 {
                    assert(l == (-((-l) / d)) * d + 0) by (nonlinear_arith)
                        requires
                            -l == d * ((-l) / d) + m,
                            m == 0,
                    ;
                    lemma_fundamental_div_mod_converse(l, d, -((-l) / d), 0);
                } else {
                    assert(l == (-(((-l) / d) + 1)) * d + (d - m)) by (nonlinear_arith)
                        requires
                            -l == d * ((-l) / d) + m,
                    ;
                    lemma_fundamental_div_mod_converse(l, d, -(((-l) / d) + 1), d - m);
                }
            }
        }
        // The truncated value `l - rem == (l / d) * d` stays in bounds: it is
        // non-negative when `l` is, exactly `-d` when `l` is a small negative
        // and `d` is large, and within a day and a week of zero otherwise.
        assert(l - rem >= i64::MIN as int) by {
            if l >= 0 {
                if l < d {
                    lemma_fundamental_div_mod_converse(l, d, 0, l);
                }
            } else {
                if d > (UNLOCK_OFFSET_SECS as int) {
                    lemma_fundamental_div_mod_converse(l, d, -1, l + d);
                }
            }
        }
    }
    Ok(local - rem + UNLOCK_OFFSET_SECS)
}

/// The instant a puzzle unlocks, from the calendar crate.
///
/// Relies on chrono's `TimeZone::with_ymd_and_hms` for `Utc` together with
/// `DateTime::timestamp`: the proleptic Gregorian calendar, with timestamps
/// counted in non-leap seconds since the Unix epoch, `None` exactly on
/// invalid or unrepresentable dates (chrono represents years -262143
/// through 262142, so December days 1 through 31 of those years always
/// construct, and every returned timestamp lies within nine trillion
/// seconds of the epoch).
#[verifier::external_body]
pub(crate) fn unlock_ts(year: i32, day: u32) -> (r: Option<i64>)
    ensures
        r matches Some(t) ==> t == unlock_instant(year as int, day as int),
        r matches Some(t) ==> -9_000_000_000_000 <= t <= 9_000_000_000_000,
        1 <= day <= 31 && -262143 <= year <= 262142 ==> r is Some,
        day < 1 || day > 31 || year < -262143 || year > 262142 ==> r is None,
{
    chrono::Utc.with_ymd_and_hms(year, 12, day, 5, 0, 0).single().map(|dt| dt.timestamp())
}

/// The civil date and clock time of an instant, in UTC.
///
/// Relies on chrono's `DateTime::from_timestamp` and the `Datelike` /
/// `Timelike` accessors: an instant `ts` maps to the unique proleptic
/// Gregorian date (a genuine calendar day of its month) whose day number
/// is `ts` divided (euclidean) by 86400, with the clock time given by the
/// remainder; every instant of the engine's range maps to a four-digit
/// year.
#[verifier::external_body]
pub(crate) fn civil_from_ts(ts: i64) -> (r: Option<(i32, u32, u32, u32, u32, u32)>)
    ensures
        r matches Some(c) ==> days_from_civil(c.0 as int, c.1 as int, c.2 as int) == (ts as int)
            / (SECS_PER_DAY as int),
        r matches Some(c) ==> (c.3 * 3600 + c.4 * 60 + c.5) as int == (ts as int) % (SECS_PER_DAY
            as int),
        r matches Some(c) ==> 1 <= c.1 <= 12 && 1 <= c.2 <= 31 && c.3 <= 23 && c.4 <= 59 && c.5
            <= 59,
        r matches Some(c) ==> c.2 as int <= days_in_month(c.0 as int, c.1 as int),
        ts_in_range(ts as int) ==> r is Some,
        r matches Some(c) ==> (ts_in_range(ts as int) ==> 1970 <= c.0 <= 9999),
{
    chrono::DateTime::from_timestamp(ts, 0).map(
        |dt| (dt.year(), dt.month(), dt.day(), dt.hour(), dt.minute(), dt.second()),
    )
}

/// Names the RFC 3339 rendering of an instant in UTC; the rendering is a
/// function of the instant alone.
pub uninterp spec fn rfc3339_utc(t: int) -> Seq<char>;

/// Names the instant an RFC 3339 string denotes, or nothing when it
/// denotes none; the reading is a function of the string alone.
pub uninterp spec fn rfc3339_parsed(s: Seq<char>) -> Option<i64>;

/// The RFC 3339 rendering of an instant.
///
/// Relies on chrono's `DateTime::to_rfc3339`.
#[verifier::external_body]
pub(crate) fn rfc3339_of_ts(ts: i64) -> (r: String)
    requires
        ts_in_range(ts as int),
    ensures
        r@ == rfc3339_utc(ts as int),
{
    chrono::DateTime::from_timestamp(ts, 0).map(|dt| dt.to_rfc3339()).unwrap_or_default()
}

/// The instant an RFC 3339 string denotes, if it denotes one.
///
/// Relies on chrono's `DateTime::parse_from_rfc3339` and
/// `DateTime::timestamp`: the reading is a function of the string alone
/// and carries the name `rfc3339_parsed`, and parsing the RFC 3339
/// rendering of an instant yields that instant back.
#[verifier::external_body]
pub(crate) fn parse_rfc3339_ts(s: &str) -> (r: Option<i64>)
    ensures
        r == rfc3339_parsed(s@),
        forall|t: int|
            0 <= t <= TS_MAX as int && s@ == #[trigger] rfc3339_utc(t) ==> r == Some(t as i64),
{
    chrono::DateTime::parse_from_rfc3339(s).ok().map(|dt| dt.timestamp())
}

} // verus!
