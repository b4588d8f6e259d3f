//! The local clock.
//!
//! The one thing the library cannot compute is the present moment in local
//! time with its UTC offset; that single reading comes from the `chrono`
//! crate through [`local_now_raw`]. Everything done with the reading —
//! rounding the offset to minutes, clamping the year into the name
//! grammar's range, converting to unix seconds — is verified.

use vstd::prelude::*;
use crate::codec::{to_unix, unix_of, BackupTime};

verus! {

/// The raw local time as the clock reports it: civil fields and the UTC
/// offset in seconds.
pub struct LocalNow {
    pub year: i32,
    pub month: u32,
    pub day: u32,
    pub hour: u32,
    pub minute: u32,
    pub second: u32,
    pub offset_seconds: i32,
}

/// Relies on `chrono::Local::now` and its `Datelike` and `Timelike`
/// accessors — `year`, `month` (1 to 12), `day` (1 to 31), `hour` (0 to
/// 23), `minute` and `second` (0 to 59) — and on
/// `FixedOffset::local_minus_utc`, whose magnitude stays under one day.
/// Only those documented field ranges are assumed; nothing is assumed about
/// which moment the clock reports.
#[verifier::external_body]
fn local_now_raw() -> (r: LocalNow)
    ensures
        1 <= r.month <= 12,
        1 <= r.day <= 31,
        r.hour <= 23,
        r.minute <= 59,
        r.second <= 59,
        -86399 <= r.offset_seconds <= 86399,
{
    let now = chrono::Local::now();
    LocalNow {
        year: chrono::Datelike::year(&now),
        month: chrono::Datelike::month(&now),
        day: chrono::Datelike::day(&now),
        hour: chrono::Timelike::hour(&now),
        minute: chrono::Timelike::minute(&now),
        second: chrono::Timelike::second(&now),
        offset_seconds: now.offset().local_minus_utc(),
    }
}

/// The present local time as a backup timestamp: the clock's fields, with
/// the offset rounded toward zero to whole minutes and the year clamped
/// into the four-digit range of the name grammar.
pub fn now_backup_time() -> (r: BackupTime)
    ensures
        r.wf(),
{
    let raw = local_now_raw();
    let year: u32 = if raw.year < 0 {
        0
    } else if raw.year > 9999 {
        9999
    } else {
        raw.year as u32
    };
    let offset_minutes: i32 = if raw.offset_seconds < 0 {
        0 - (((0 - raw.offset_seconds) as u32 / 60) as i32)
    } else {
        ((raw.offset_seconds as u32) / 60) as i32
    };
    BackupTime {
        year,
        month: raw.month,
        day: raw.day,
        hour: raw.hour,
        minute: raw.minute,
        second: raw.second,
        offset_minutes,
    }
}

/// The present moment as unix seconds, read from the local clock.
pub fn time_now() -> (r: i64)
    ensures
        exists|t: BackupTime| t.wf() && r == unix_of(t),
{
    let t = now_backup_time();
    let r = to_unix(&t);
    proof {
        assert(t.wf() && r == unix_of(t));
    }
    r
}

} // verus!
