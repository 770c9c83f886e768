//! The local wall clock, read through chrono. The two wrappers here are the
//! library's only trusted items: Verus believes their contracts, which state
//! no more than chrono documents, and everything built on them is verified
//! for every value they could return.

use chrono::{Datelike, Timelike};
use vstd::prelude::*;

use crate::date::{days_in_month, next_day, spec_next_day, Date};

verus! {

/// Relies on chrono::Local::now and the Datelike accessors: a NaiveDate is
/// always a real proleptic-Gregorian date, its month running from 1 to 12
/// and its day from 1 through the month's length. Nothing more is assumed:
/// what the clock says is out of the library's hands.
#[verifier::external_body]
fn now_date_raw() -> (r: (i32, u32, u32))
    ensures
        1 <= r.1 <= 12,
        1 <= r.2 <= days_in_month(r.0 as int, r.1 as int),
{
    let d = chrono::Local::now().date_naive();
    (d.year(), d.month(), d.day())
}

/// Relies on chrono::Local::now and the Timelike accessors: hours run from
/// 0 to 23 and minutes from 0 to 59.
#[verifier::external_body]
fn now_time_raw() -> (r: (u32, u32))
    ensures
        r.0 < 24,
        r.1 < 60,
{
    let t = chrono::Local::now().time();
    (t.hour(), t.minute())
}

/// One scheduling instant: the wall clock's hour and minute, and the two
/// calendar dates notifications resolve against.
pub struct Tick {
    pub hour: u8,
    pub minute: u8,
    pub today: Date,
    pub tomorrow: Date,
}

/// Lays out a tick from raw clock readings: exactly the years of the
/// library's four-digit calendar (keeping room for the day after) yield a
/// tick, and the tick is the readings themselves, with `tomorrow` the day
/// after `today`.
pub fn tick_from_raw(y: i32, mo: u32, d: u32, h: u32, mi: u32) -> (r: Option<Tick>)
    requires
        1 <= mo <= 12,
        1 <= d <= days_in_month(y as int, mo as int),
        h < 24,
        mi < 60,
    ensures
        r is Some <==> 1 <= y <= 9998,
        r matches Some(t) ==> t.today == (Date { year: y as u16, month: mo as u8, day: d as u8 })
            && t.hour == h as u8 && t.minute == mi as u8 && t.tomorrow == spec_next_day(t.today)
            && t.today.valid() && t.tomorrow.valid(),
{
    if y < 1 || y > 9998 {
        return None;
    }
    let today = Date { year: y as u16, month: mo as u8, day: d as u8 };
    let tomorrow = next_day(today);
    Some(Tick { hour: h as u8, minute: mi as u8, today, tomorrow })
}

/// Reads the clock and lays out a tick through `tick_from_raw`: `tomorrow`
/// really is the day after `today`. `None` only when the clock reports a
/// year outside the library's four-digit calendar.
pub fn current_tick() -> (r: Option<Tick>)
    ensures
        r matches Some(t) ==> t.hour < 24 && t.minute < 60 && t.today.valid() && t.tomorrow
            == spec_next_day(t.today) && t.tomorrow.valid(),
{
    let (y, mo, d) = now_date_raw();
    let (h, mi) = now_time_raw();
    tick_from_raw(y, mo, d, h, mi)
}

} // verus!
