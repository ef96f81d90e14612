//! Calendar dates and clock times of Unix timestamps, as the event log and
//! the correction records write them.

use vstd::prelude::*;

use crate::chars::{append_chars, decimal_padded, string_from_chars, u64_decimal_padded};

verus! {

/// Gregorian leap years.
pub open spec fn is_leap(y: int) -> bool {
    (y % 4 == 0 && y % 100 != 0) || y % 400 == 0
}

pub open spec fn year_len(y: int) -> int {
    if is_leap(y) {
        366
    } else {
        365
    }
}

/// Days of month `m` (1 to 12) of year `y`.
pub open spec fn month_len(y: int, m: int) -> int {
    if m == 2 {
        if is_leap(y) {
            29
        } else {
            28
        }
    } else if m == 4 || m == 6 || m == 9 || m == 11 {
        30
    } else {
        31
    }
}

/// Month and day (both from 1) of the day `r` (from 0) of year `y`, counting
/// from month `m`.
pub open spec fn month_day(y: int, m: int, r: int) -> (int, int)
    decreases 13 - m,
{
    if m >= 12 || r < month_len(y, m) || r < 0 {
        (m, r + 1)
    } else {
        month_day(y, m + 1, r - month_len(y, m))
    }
}

/// The date (year, month, day) of the `r`-th day (from 0) counted from
/// January 1st of year `y`.
pub open spec fn date_from(y: int, r: int) -> (int, int, int)
    decreases r,
{
    if r < year_len(y) || r < 0 {
        let (m, d) = month_day(y, 1, r);
        (y, m, d)
    } else {
        date_from(y + 1, r - year_len(y))
    }
}

/// The civil date of `days` days after 1970-01-01.
pub open spec fn civil_date(days: nat) -> (int, int, int) {
    date_from(1970, days as int)
}

proof fn lemma_month_day(y: int, m: int, r: int)
    requires
        1 <= m <= 12,
        0 <= r,
        r < year_len(y) - days_before(y, m),
    ensures
        ({
            let (mm, dd) = month_day(y, m, r);
            &&& m <= mm <= 12
            &&& 1 <= dd <= month_len(y, mm)
        }),
    decreases 13 - m,
{
    if m == 12 {
        lemma_days_before_12(y);
    }
    if m < 12 && r >= month_len(y, m) {
        lemma_month_day(y, m + 1, r - month_len(y, m));
    }
}

/// Days of year `y` before month `m`.
pub open spec fn days_before(y: int, m: int) -> int
    decreases m,
{
    if m <= 1 {
        0
    } else {
        days_before(y, m - 1) + month_len(y, m - 1)
    }
}

proof fn lemma_days_before_12(y: int)
    ensures
        days_before(y, 12) + month_len(y, 12) == year_len(y),
{
    reveal_with_fuel(days_before, 13);
}

/// Every day number gives a valid date: a month from 1 to 12 and a day within that month.
pub proof fn lemma_civil_date_valid(days: nat)
    ensures
        ({
            let (y, m, d) = civil_date(days);
            &&& y >= 1970
            &&& 1 <= m <= 12
            &&& 1 <= d <= month_len(y, m)
        }),
{
    lemma_date_from_valid(1970, days as int);
}

/// Days of the years from `from` up to, not including, `to`.
pub open spec fn years_days(from: int, to: int) -> int
    decreases to - from,
{
    if from >= to {
        0
    } else {
        year_len(from) + years_days(from + 1, to)
    }
}

/// The number of days from 1970-01-01 to the date `(y, m, d)`.
pub open spec fn days_since_epoch(y: int, m: int, d: int) -> int {
    years_days(1970, y) + days_before(y, m) + d - 1
}

proof fn lemma_month_day_count(y: int, m: int, r: int)
    requires
        1 <= m <= 12,
        0 <= r,
    ensures
        ({
            let (mm, dd) = month_day(y, m, r);
            days_before(y, mm) + dd - 1 == days_before(y, m) + r
        }),
    decreases 13 - m,
{
    if m < 12 && r >= month_len(y, m) {
        lemma_month_day_count(y, m + 1, r - month_len(y, m));
    }
}

proof fn lemma_date_from_count(y: int, r: int)
    requires
        0 <= r,
    ensures
        ({
            let (yy, m, d) = date_from(y, r);
            years_days(y, yy) + days_before(yy, m) + d - 1 == r
        }),
    decreases r,
{
    if r < year_len(y) {
        lemma_month_day_count(y, 1, r);
        assert(days_before(y, 1) == 0);
        assert(years_days(y, y) == 0);
    } else {
        lemma_date_from_count(y + 1, r - year_len(y));
        lemma_date_from_valid(y + 1, r - year_len(y));
    }
}

/// The date of a day number lies exactly that many days after 1970-01-01:
/// counting the days back from the date gives the number again.
pub proof fn lemma_civil_date_count(days: nat)
    ensures
        ({
            let (y, m, d) = civil_date(days);
            days_since_epoch(y, m, d) == days
        }),
{
    lemma_date_from_count(1970, days as int);
}

proof fn lemma_date_from_valid(y: int, r: int)
    requires
        0 <= r,
    ensures
        ({
            let (yy, m, d) = date_from(y, r);
            &&& yy >= y
            &&& 1 <= m <= 12
            &&& 1 <= d <= month_len(yy, m)
        }),
    decreases r,
{
    if r < year_len(y) {
        lemma_days_before_12(y);
        lemma_days_before_increasing(y, 1, 12);
        lemma_month_day(y, 1, r);
    } else {
        lemma_date_from_valid(y + 1, r - year_len(y));
    }
}

proof fn lemma_days_before_increasing(y: int, a: int, b: int)
    requires
        1 <= a <= b,
    ensures
        days_before(y, a) <= days_before(y, b),
    decreases b - a,
{
    if a < b {
        lemma_days_before_increasing(y, a, b - 1);
    }
}

fn year_len_exec(y: u64) -> (l: u64)
    ensures
        l == year_len(y as int),
{
    if is_leap_exec(y) {
        366
    } else {
        365
    }
}

fn is_leap_exec(y: u64) -> (b: bool)
    ensures
        b == is_leap(y as int),
{
    (y % 4 == 0 && y % 100 != 0) || y % 400 == 0
}

fn month_len_exec(y: u64, m: u64) -> (l: u64)
    ensures
        l == month_len(y as int, m as int),
{
    if m == 2 {
        if is_leap_exec(y) {
            29
        } else {
            28
        }
    } else if m == 4 || m == 6 || m == 9 || m == 11 {
        30
    } else {
        31
    }
}

/// The civil date (year, month, day) of `d` days after 1970-01-01.
pub fn days_to_date(d: u64) -> (r: (u64, u64, u64))
    ensures
        (r.0 as int, r.1 as int, r.2 as int) == civil_date(d as nat),
{
    let mut y: u64 = 1970;
    let mut r: u64 = d;
    while r >= year_len_exec(y)
        invariant
            1970 <= y,
            365 * (y - 1970) <= d - r,
            r <= d,
            date_from(y as int, r as int) == civil_date(d as nat),
        decreases r,
    {
        let dy: u64 = if is_leap_exec(y) {
            366
        } else {
            365
        };
        r = r - dy;
        y = y + 1;
    }
    let ghost r0 = r;
    let mut m: u64 = 1;
    loop
        invariant
            1 <= m <= 12,
            date_from(y as int, r0 as int) == civil_date(d as nat),
            r0 < year_len(y as int),
            month_day(y as int, m as int, r as int) == month_day(y as int, 1, r0 as int),
            r <= r0,
        ensures
            month_day(y as int, 1, r0 as int) == (m as int, r + 1),
            r <= r0,
        decreases 12 - m,
    {
        if m == 12 {
            break;
        }
        let days = month_len_exec(y, m);
        if r < days {
            break;
        }
        r = r - days;
        m = m + 1;
    }
    (y, m, r + 1)
}

/// `format!("{:04}-{:02}-{:02}T{:02}:{:02}:{:02}Z", ...)` of a Unix time in seconds.
pub open spec fn iso_spec(secs: nat) -> Seq<char> {
    let (y, mo, d) = civil_date(secs / 86400);
    let tod = secs % 86400;
    decimal_padded(y as nat, 4) + seq!['-'] + decimal_padded(mo as nat, 2) + seq!['-']
        + decimal_padded(d as nat, 2) + seq!['T'] + decimal_padded(tod / 3600, 2) + seq![':']
        + decimal_padded((tod % 3600) / 60, 2) + seq![':'] + decimal_padded(tod % 60, 2) + seq![
        'Z',
    ]
}

/// The UTC date and time of a Unix time in seconds, as `now_iso` writes it.
pub fn iso_utc(secs: u64) -> (r: String)
    ensures
        r@ == iso_spec(secs as nat),
{
    let days = secs / 86400;
    let tod = secs % 86400;
    let (y, mo, d) = days_to_date(days);
    let mut v = u64_decimal_padded(y, 4);
    v.push('-');
    append_chars(&mut v, u64_decimal_padded(mo, 2).as_slice());
    v.push('-');
    append_chars(&mut v, u64_decimal_padded(d, 2).as_slice());
    v.push('T');
    append_chars(&mut v, u64_decimal_padded(tod / 3600, 2).as_slice());
    v.push(':');
    append_chars(&mut v, u64_decimal_padded((tod % 3600) / 60, 2).as_slice());
    v.push(':');
    append_chars(&mut v, u64_decimal_padded(tod % 60, 2).as_slice());
    v.push('Z');
    proof {
        assert(v@ =~= iso_spec(secs as nat));
    }
    string_from_chars(v.as_slice())
}

/// `format!("{:02}:{:02}:{:02}.{:03}", ...)`: the time of day of a Unix time
/// in seconds, with milliseconds.
pub open spec fn time_of_day_spec(secs: nat, ms: nat) -> Seq<char> {
    let tod = secs % 86400;
    decimal_padded(tod / 3600, 2) + seq![':'] + decimal_padded((tod % 3600) / 60, 2) + seq![':']
        + decimal_padded(tod % 60, 2) + seq!['.'] + decimal_padded(ms, 3)
}

/// The log timestamp of `ts_now`.
pub fn time_of_day(secs: u64, ms: u32) -> (r: String)
    ensures
        r@ == time_of_day_spec(secs as nat, ms as nat),
{
    let tod = secs % 86400;
    let mut v = u64_decimal_padded(tod / 3600, 2);
    v.push(':');
    append_chars(&mut v, u64_decimal_padded((tod % 3600) / 60, 2).as_slice());
    v.push(':');
    append_chars(&mut v, u64_decimal_padded(tod % 60, 2).as_slice());
    v.push('.');
    append_chars(&mut v, u64_decimal_padded(ms as u64, 3).as_slice());
    proof {
        assert(v@ =~= time_of_day_spec(secs as nat, ms as nat));
    }
    string_from_chars(v.as_slice())
}

} // verus!
