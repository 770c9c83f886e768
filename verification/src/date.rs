//! Calendar dates in the proleptic Gregorian calendar, with validity,
//! ordering, and day arithmetic. Pickup events and the synchronizer's
//! "today" cutoff are expressed over this type.

use vstd::prelude::*;

verus! {

/// A calendar date. `valid()` ties the fields to the Gregorian calendar.
#[derive(Clone, Copy, PartialEq, Eq, Structural, Debug)]
pub struct Date {
    pub year: u16,
    pub month: u8,
    pub day: u8,
}

pub open spec fn is_leap_year(y: int) -> bool {
    (y % 4 == 0 && y % 100 != 0) || y % 400 == 0
}

pub open spec fn days_in_month(y: int, m: int) -> int {
    if m == 2 {
        if is_leap_year(y) {
            29
        } else {
            28
        }
    } else if m == 4 || m == 6 || m == 9 || m == 11 {
        30
    } else {
        31
    }
}

/// Days of year `y` that fall strictly before month `m`.
pub open spec fn month_prefix(y: int, m: int) -> int {
    let leap: int = if is_leap_year(y) {
        1
    } else {
        0
    };
    if m <= 1 {
        0
    } else if m == 2 {
        31
    } else if m == 3 {
        59 + leap
    } else if m == 4 {
        90 + leap
    } else if m == 5 {
        120 + leap
    } else if m == 6 {
        151 + leap
    } else if m == 7 {
        181 + leap
    } else if m == 8 {
        212 + leap
    } else if m == 9 {
        243 + leap
    } else if m == 10 {
        273 + leap
    } else if m == 11 {
        304 + leap
    } else {
        334 + leap
    }
}

/// Ordinal of the date within its year (January 1st is 1).
pub open spec fn day_of_year(d: Date) -> int {
    month_prefix(d.year as int, d.month as int) + d.day
}

impl Date {
    /// The fields form a real Gregorian calendar date with a four-digit year.
    pub open spec fn valid(self) -> bool {
        &&& 1 <= self.year <= 9999
        &&& 1 <= self.month <= 12
        &&& 1 <= self.day <= days_in_month(self.year as int, self.month as int)
    }

    /// Total order on dates: later dates get larger numbers.
    pub open spec fn num(self) -> int {
        self.year * 10000 + self.month * 100 + self.day
    }

    pub fn new(year: u16, month: u8, day: u8) -> (r: Option<Date>)
        ensures
            r matches Some(d) ==> d == (Date { year, month, day }) && d.valid(),
            r is None <==> !(Date { year, month, day }).valid(),
    {
        let d = Date { year, month, day };
        if 1 <= year && year <= 9999 && 1 <= month && month <= 12 && 1 <= day && day
            <= days_in_month_exec(year, month) {
            Some(d)
        } else {
            None
        }
    }

    /// `self` is on or after `other`.
    pub fn on_or_after(&self, other: &Date) -> (r: bool)
        requires
            self.valid(),
            other.valid(),
        ensures
            r == (self.num() >= other.num()),
    {
        if self.year != other.year {
            self.year > other.year
        } else if self.month != other.month {
            self.month > other.month
        } else {
            self.day >= other.day
        }
    }
}

pub fn days_in_month_exec(year: u16, month: u8) -> (r: u8)
    ensures
        r == days_in_month(year as int, month as int),
{
    if month == 2 {
        if (year % 4 == 0 && year % 100 != 0) || year % 400 == 0 {
            29
        } else {
            28
        }
    } else if month == 4 || month == 6 || month == 9 || month == 11 {
        30
    } else {
        31
    }
}

/// The date one day later.
pub open spec fn spec_next_day(d: Date) -> Date {
    if d.day < days_in_month(d.year as int, d.month as int) {
        Date { year: d.year, month: d.month, day: (d.day + 1) as u8 }
    } else if d.month < 12 {
        Date { year: d.year, month: (d.month + 1) as u8, day: 1 }
    } else {
        Date { year: (d.year + 1) as u16, month: 1, day: 1 }
    }
}

pub fn next_day(d: Date) -> (r: Date)
    requires
        d.valid(),
        !(d.year == 9999 && d.month == 12 && d.day == 31),
    ensures
        r == spec_next_day(d),
        r.valid(),
        r.num() > d.num(),
{
    if d.day < days_in_month_exec(d.year, d.month) {
        Date { year: d.year, month: d.month, day: d.day + 1 }
    } else if d.month < 12 {
        Date { year: d.year, month: d.month + 1, day: 1 }
    } else {
        Date { year: d.year + 1, month: 1, day: 1 }
    }
}

/// Stepping a day forward strictly increases the date's order number.
pub proof fn lemma_next_day_increases(d: Date)
    requires
        d.valid(),
    ensures
        spec_next_day(d).num() > d.num(),
{
}

/// `d` advanced by `n` days.
pub open spec fn spec_add_days(d: Date, n: nat) -> Date
    decreases n,
{
    if n == 0 {
        d
    } else {
        spec_add_days(spec_next_day(d), (n - 1) as nat)
    }
}

/// Stepping one day either stays within the year, advancing the ordinal by
/// one, or wraps from the year's last day (ordinal at least 365) to the
/// first day of the next year.
proof fn lemma_next_day_ordinal(d: Date)
    requires
        d.valid(),
    ensures
        spec_next_day(d).valid() || d.year == 9999,
        spec_next_day(d).year == d.year ==> day_of_year(spec_next_day(d)) == day_of_year(d) + 1,
        spec_next_day(d).year != d.year ==> spec_next_day(d).year == d.year + 1
            && day_of_year(spec_next_day(d)) == 1 && day_of_year(d) >= 365,
{
}

pub fn add_days(d: Date, n: u16) -> (r: Date)
    requires
        d.valid(),
        d.year <= 9997,
        n < 365,
    ensures
        r == spec_add_days(d, n as nat),
        r.valid(),
        r.num() >= d.num(),
{
    let mut cur = d;
    let mut i: u16 = 0;
    while i < n
        invariant
            i <= n,
            n < 365,
            d.valid(),
            d.year <= 9997,
            cur.valid(),
            cur == spec_add_days(d, i as nat),
            cur.num() >= d.num(),
            cur.year == d.year || (cur.year == d.year + 1 && day_of_year(cur) <= i),
        decreases n - i,
    {
        proof {
            lemma_add_days_succ(d, i as nat);
            lemma_next_day_ordinal(cur);
        }
        cur = next_day(cur);
        i = i + 1;
    }
    cur
}

proof fn lemma_add_days_succ(d: Date, i: nat)
    ensures
        spec_add_days(d, i + 1) == spec_next_day(spec_add_days(d, i)),
    decreases i,
{
    if i == 0 {
        assert(spec_add_days(d, 1) == spec_next_day(d)) by {
            reveal_with_fuel(spec_add_days, 2);
        }
    } else {
        lemma_add_days_succ(spec_next_day(d), (i - 1) as nat);
    }
}

} // verus!
