//! Calendar dates and UTC clock readings.
//!
//! Daily logs are keyed by date and their entries are time-stamped, so the
//! facade needs a calendar: validity of a `(year, month, day)` triple, the
//! previous day, and the fixed-width renderings `YYYY-MM-DD` and `HH:MM:SS`.
//! Only reading the clock itself is outside work, done by a trusted wrapper
//! around chrono; everything computed from the reading is verified.

use chrono::{Datelike, Timelike};
use vstd::prelude::*;

use crate::text::{dec_chars, digit_char, string_from_chars};
use vstd::string::StringExecFns;

verus! {

/// A proleptic Gregorian calendar date.
///
/// Well-formed dates (see [`Date::wf`]) keep the year within `1..=9999`, so
/// the `YYYY` rendering is always four digits.
#[derive(Clone, Copy, PartialEq, Eq, Structural, Debug)]
pub struct Date {
    pub year: i32,
    pub month: u8,
    pub day: u8,
}

/// The Gregorian leap-year rule.
pub open spec fn is_leap_year(y: int) -> bool {
    (y % 4 == 0 && y % 100 != 0) || y % 400 == 0
}

/// Days in a month of the Gregorian calendar.
pub open spec fn days_in_month(y: int, m: int) -> int {
    if m == 2 {
        if is_leap_year(y) {
            29
        } else {
            28
        }
    } else if m == 4 || m == 6 || m == 9 || m == 11 {
        30
    } else {
        31
    }
}

impl Date {
    /// A valid calendar date with a four-digit year.
    pub open spec fn wf(self) -> bool {
        &&& 1 <= self.year <= 9999
        &&& 1 <= self.month <= 12
        &&& 1 <= self.day <= days_in_month(self.year as int, self.month as int)
    }
}

fn is_leap_year_exec(y: i32) -> (r: bool)
    requires
        y >= 1,
    ensures
        r == is_leap_year(y as int),
{
    (y % 4 == 0 && y % 100 != 0) || y % 400 == 0
}

/// Days in a month, executable form.
pub fn days_in_month_exec(y: i32, m: u8) -> (r: u8)
    requires
        y >= 1,
        1 <= m <= 12,
    ensures
        r as int == days_in_month(y as int, m as int),
{
    if m == 2 {
        if is_leap_year_exec(y) {
            29
        } else {
            28
        }
    } else if m == 4 || m == 6 || m == 9 || m == 11 {
        30
    } else {
        31
    }
}

/// The day before `d` on the calendar.
pub open spec fn pred_date_spec(d: Date) -> Date {
    if d.day > 1 {
        Date { year: d.year, month: d.month, day: (d.day - 1) as u8 }
    } else if d.month > 1 {
        Date {
            year: d.year,
            month: (d.month - 1) as u8,
            day: days_in_month(d.year as int, d.month - 1) as u8,
        }
    } else {
        Date { year: (d.year - 1) as i32, month: 12, day: 31 }
    }
}

/// The previous day, or `None` at the calendar's lower edge.
pub fn pred_date(d: Date) -> (r: Option<Date>)
    requires
        d.wf(),
    ensures
        d.year == 1 && d.month == 1 && d.day == 1 ==> r is None,
        !(d.year == 1 && d.month == 1 && d.day == 1) ==> r == Some(pred_date_spec(d)) && (r
            matches Some(p) && p.wf()),
{
    if d.day > 1 {
        Some(Date { year: d.year, month: d.month, day: d.day - 1 })
    } else if d.month > 1 {
        let pm = d.month - 1;
        Some(Date { year: d.year, month: pm, day: days_in_month_exec(d.year, pm) })
    } else if d.year > 1 {
        Some(Date { year: d.year - 1, month: 12, day: 31 })
    } else {
        None
    }
}

// ---------------------------------------------------------------------------
// Fixed-width renderings
// ---------------------------------------------------------------------------

/// `n` zero-padded to two decimal digits, for `n` in `0..100`.
pub open spec fn pad2(n: int) -> Seq<char> {
    seq![digit_char(n / 10), digit_char(n % 10)]
}

/// `n` zero-padded to four decimal digits, for `n` in `0..10000`.
pub open spec fn pad4(n: int) -> Seq<char> {
    seq![
        digit_char(n / 1000),
        digit_char(n / 100 % 10),
        digit_char(n / 10 % 10),
        digit_char(n % 10),
    ]
}

/// The `YYYY-MM-DD` rendering of a date.
pub open spec fn date_code(d: Date) -> Seq<char> {
    pad4(d.year as int) + seq!['-'] + pad2(d.month as int) + seq!['-'] + pad2(d.day as int)
}

/// The storage path of the daily log for date `d`.
pub open spec fn daily_path_spec(d: Date) -> Seq<char> {
    "daily/"@ + date_code(d) + ".md"@
}

/// The `[HH:MM:SS] ` prefixed log line for an entry.
pub open spec fn log_line_spec(hour: int, minute: int, second: int, entry: Seq<char>) -> Seq<char> {
    seq!['['] + pad2(hour) + seq![':'] + pad2(minute) + seq![':'] + pad2(second) + seq![']', ' ']
        + entry
}

fn push_pad2(out: &mut Vec<char>, n: u8)
    requires
        n < 100,
    ensures
        final(out)@ == old(out)@ + pad2(n as int),
{
    let ghost before = out@;
    out.push(digit_of(n / 10));
    out.push(digit_of(n % 10));
    assert(out@ =~= before + pad2(n as int));
}

fn digit_of(d: u8) -> (r: char)
    requires
        d < 10,
    ensures
        r == digit_char(d as int),
{
    if d == 0 {
        '0'
    } else if d == 1 {
        '1'
    } else if d == 2 {
        '2'
    } else if d == 3 {
        '3'
    } else if d == 4 {
        '4'
    } else if d == 5 {
        '5'
    } else if d == 6 {
        '6'
    } else if d == 7 {
        '7'
    } else if d == 8 {
        '8'
    } else {
        '9'
    }
}

/// The `YYYY-MM-DD` rendering of a date, as a string.
pub fn date_code_exec(d: Date) -> (r: String)
    requires
        d.wf(),
    ensures
        r@ == date_code(d),
{
    let mut out: Vec<char> = Vec::new();
    let y = d.year as u16;
    out.push(digit_of((y / 1000) as u8));
    out.push(digit_of((y / 100 % 10) as u8));
    out.push(digit_of((y / 10 % 10) as u8));
    out.push(digit_of((y % 10) as u8));
    out.push('-');
    push_pad2(&mut out, d.month);
    out.push('-');
    push_pad2(&mut out, d.day);
    assert(out@ =~= date_code(d));
    string_from_chars(&out)
}

/// The `[HH:MM:SS] ` prefixed log line for an entry, as a string.
pub fn log_line_exec(hour: u8, minute: u8, second: u8, entry: &str) -> (r: String)
    requires
        hour < 100,
        minute < 100,
        second < 100,
    ensures
        r@ == log_line_spec(hour as int, minute as int, second as int, entry@),
{
    let mut v: Vec<char> = Vec::new();
    v.push('[');
    push_pad2(&mut v, hour);
    v.push(':');
    push_pad2(&mut v, minute);
    v.push(':');
    push_pad2(&mut v, second);
    v.push(']');
    v.push(' ');
    proof {
        assert(v@ =~= seq!['['] + pad2(hour as int) + seq![':'] + pad2(minute as int) + seq![':']
            + pad2(second as int) + seq![']', ' ']);
    }
    let mut s = string_from_chars(&v);
    s.append(entry);
    s
}

// ---------------------------------------------------------------------------
// The UTC clock
// ---------------------------------------------------------------------------

/// One reading of the UTC wall clock, split into plain calendar and time
/// fields.
pub struct ClockReading {
    pub year: i32,
    pub month: u8,
    pub day: u8,
    pub hour: u8,
    pub minute: u8,
    pub second: u8,
}

impl ClockReading {
    /// What every reading satisfies: a valid calendar date and in-range time
    /// fields.
    pub open spec fn wf(self) -> bool {
        &&& 1 <= self.month <= 12
        &&& 1 <= self.day <= days_in_month(self.year as int, self.month as int)
        &&& self.hour <= 23
        &&& self.minute <= 59
        &&& self.second <= 59
    }
}

/// Relies on chrono's `Utc::now`: the current UTC time is a valid calendar
/// date with month, day, hour, minute and second each in their documented
/// range.  Nothing else can be promised of a clock.
#[verifier::external_body]
pub fn utc_now_reading() -> (r: ClockReading)
    ensures
        r.wf(),
{
    let now = chrono::Utc::now();
    let d = now.date_naive();
    ClockReading {
        year: d.year(),
        month: d.month() as u8,
        day: d.day() as u8,
        hour: now.hour() as u8,
        minute: now.minute() as u8,
        second: now.second() as u8,
    }
}

/// Force a clock reading's date into the representable range `1..=9999`,
/// leaving any reading that is already in range unchanged.
pub fn clamp_date(year: i32, month: u8, day: u8) -> (r: Date)
    requires
        1 <= month <= 12,
        1 <= day,
        day as int <= days_in_month(year as int, month as int),
    ensures
        r.wf(),
        1 <= year <= 9999 ==> r == (Date { year, month, day }),
        r.month == month,
{
    let y = if year < 1 {
        1
    } else if year > 9999 {
        9999
    } else {
        year
    };
    let dim = days_in_month_exec(y, month);
    let dd = if day > dim {
        dim
    } else {
        day
    };
    Date { year: y, month, day: dd }
}

} // verus!
