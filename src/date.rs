//! Calendar days, and the day key a day's log is kept under.

use crate::text::{decimal, push_char, push_decimal};
use chrono::{Datelike, NaiveDate};
use vstd::prelude::*;

verus! {

/// The earliest year the calendar covers.
pub const MIN_YEAR: i32 = -262143;

/// The latest year the calendar covers.
pub const MAX_YEAR: i32 = 262142;

/// Leap years of the proleptic Gregorian calendar.
pub open spec fn is_leap(y: int) -> bool {
    y % 4 == 0 && (y % 100 != 0 || y % 400 == 0)
}

/// The number of days of month `m` of year `y`.
pub open spec fn days_in_month(y: int, m: int) -> int {
    if m == 2 {
        if is_leap(y) {
            29
        } else {
            28
        }
    } else if m == 4 || m == 6 || m == 9 || m == 11 {
        30
    } else {
        31
    }
}

/// A day of the calendar's range.
pub open spec fn valid_date(y: int, m: int, d: int) -> bool {
    &&& MIN_YEAR <= y <= MAX_YEAR
    &&& 1 <= m <= 12
    &&& 1 <= d <= days_in_month(y, m)
}

/// The day before the day `y-m-d`.
pub open spec fn day_before(y: int, m: int, d: int) -> (int, int, int) {
    if d > 1 {
        (y, m, d - 1)
    } else if m > 1 {
        (y, m - 1, days_in_month(y, m - 1))
    } else {
        (y - 1, 12, 31)
    }
}

/// Relies on chrono's `NaiveDate::from_ymd_opt` and `NaiveDate::pred_opt`
/// (read back with `Datelike`): the calendar day before a day of its range
/// other than the first.
#[verifier::external_body]
fn chrono_day_before(year: i32, month: u32, day: u32) -> (r: (i32, u32, u32))
    requires
        valid_date(year as int, month as int, day as int),
        !(year == MIN_YEAR && month == 1 && day == 1),
    ensures
        (r.0 as int, r.1 as int, r.2 as int) == day_before(year as int, month as int, day as int),
{
    let p = NaiveDate::from_ymd_opt(year, month, day).unwrap().pred_opt().unwrap();
    (p.year(), p.month(), p.day())
}

/// The decimal form of a year, with a `-` before years below zero.
pub open spec fn year_text(y: int) -> Seq<char> {
    if y < 0 {
        seq!['-'] + decimal((-y) as nat)
    } else {
        decimal(y as nat)
    }
}

/// A month or day number in two digits at least.
pub open spec fn two_digits(n: nat) -> Seq<char> {
    if n < 10 {
        seq!['0'] + decimal(n)
    } else {
        decimal(n)
    }
}

/// A calendar day.
#[derive(Debug, Clone, Copy, PartialEq, Eq, Structural)]
pub struct Date {
    pub year: i32,
    pub month: u32,
    pub day: u32,
}

impl Date {
    /// The day is one of the calendar.
    pub open spec fn valid(&self) -> bool {
        valid_date(self.year as int, self.month as int, self.day as int)
    }

    /// The text `YYYY-MM-DD` that names this day's log.
    pub open spec fn key(&self) -> Seq<char> {
        year_text(self.year as int) + seq!['-'] + two_digits(self.month as nat) + seq!['-']
            + two_digits(self.day as nat)
    }

    /// The day `year-month-day`, if the calendar has it.
    pub fn new(year: i32, month: u32, day: u32) -> (r: Option<Date>)
        ensures
            r is Some <==> valid_date(year as int, month as int, day as int),
            r is Some ==> r->Some_0 == (Date { year, month, day }),
    {
        if year < MIN_YEAR || year > MAX_YEAR || month < 1 || month > 12 || day < 1 {
            return None;
        }
        let leap = year % 4 == 0 && (year % 100 != 0 || year % 400 == 0);
        let last: u32 = if month == 2 {
            if leap {
                29
            } else {
                28
            }
        } else if month == 4 || month == 6 || month == 9 || month == 11 {
            30
        } else {
            31
        };
        assert(leap == is_leap(year as int)) by {
            assert(year % 4 == 0 <==> (year as int) % 4 == 0);
        }
        if day > last {
            return None;
        }
        Some(Date { year, month, day })
    }

    /// The day before, unless this is the first day of the calendar.
    pub fn previous(&self) -> (r: Option<Date>)
        requires
            self.valid(),
        ensures
            (self.year == MIN_YEAR && self.month == 1 && self.day == 1) ==> r is None,
            r is Some ==> r->Some_0.valid(),
            !(self.year == MIN_YEAR && self.month == 1 && self.day == 1) ==> r is Some && (
            r->Some_0.year as int, r->Some_0.month as int, r->Some_0.day as int) == day_before(
                self.year as int,
                self.month as int,
                self.day as int,
            ),
    {
        if self.year == MIN_YEAR && self.month == 1 && self.day == 1 {
            return None;
        }
        let (year, month, day) = chrono_day_before(self.year, self.month, self.day);
        Some(Date { year, month, day })
    }

    /// The day key of this day: `YYYY-MM-DD`.
    pub fn date_key(&self) -> (r: String)
        requires
            self.valid(),
        ensures
            r@ == self.key(),
    {
        let mut s = String::new();
        if self.year < 0 {
            push_char(&mut s, '-');
            push_decimal(&mut s, (0i64 - self.year as i64) as u64);
        } else {
            push_decimal(&mut s, self.year as u64);
        }
        push_char(&mut s, '-');
        push_two_digits(&mut s, self.month);
        push_char(&mut s, '-');
        push_two_digits(&mut s, self.day);
        assert(s@ =~= self.key());
        s
    }
}

fn push_two_digits(s: &mut String, n: u32)
    ensures
        final(s)@ == old(s)@ + two_digits(n as nat),
{
    if n < 10 {
        push_char(s, '0');
    }
    push_decimal(s, n as u64);
    assert(s@ =~= old(s)@ + two_digits(n as nat));
}

} // verus!
