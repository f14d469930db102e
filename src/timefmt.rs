//! Calendar arithmetic for the modification stamps that the scanner records.

use vstd::prelude::*;
use crate::text::push_char;

verus! {

/// Whether `y` is a leap year in the Gregorian calendar.
pub open spec fn leap_spec(y: int) -> bool {
    (y % 4 == 0 && y % 100 != 0) || y % 400 == 0
}

pub open spec fn year_len(y: int) -> int {
    if leap_spec(y) { 366 } else { 365 }
}

pub open spec fn month_len(y: int, m: int) -> int {
    if m == 2 {
        if leap_spec(y) { 29 } else { 28 }
    } else if m == 4 || m == 6 || m == 9 || m == 11 {
        30
    } else {
        31
    }
}

/// The year that holds day `d` counted from the first day of year `y`, and
/// the day's index within that year.
pub open spec fn year_and_day(d: int, y: int) -> (int, int)
    decreases d,
{
    if d < year_len(y) || d < 0 {
        (y, d)
    } else {
        year_and_day(d - year_len(y), y + 1)
    }
}

/// The month (from `m` on) that holds day `d` of year `y`, and the day's
/// index within that month. December takes whatever is left.
pub open spec fn month_and_day(d: int, y: int, m: int) -> (int, int)
    decreases 12 - m,
{
    if m >= 12 || d < month_len(y, m) {
        (m, d)
    } else {
        month_and_day(d - month_len(y, m), y, m + 1)
    }
}

pub open spec fn digit_char(d: int) -> char {
    if d == 0 { '0' } else if d == 1 { '1' } else if d == 2 { '2' } else if d == 3 { '3' }
    else if d == 4 { '4' } else if d == 5 { '5' } else if d == 6 { '6' } else if d == 7 { '7' }
    else if d == 8 { '8' } else { '9' }
}

/// The decimal digits of `n`, without leading zeros.
pub open spec fn decimal(n: nat) -> Seq<char>
    decreases n,
{
    if n < 10 {
        seq![digit_char(n as int)]
    } else {
        decimal(n / 10).push(digit_char((n % 10) as int))
    }
}

/// The decimal digits of `n`, left-padded with zeros to at least `w` characters.
pub open spec fn padded(n: nat, w: nat) -> Seq<char> {
    let d = decimal(n);
    if d.len() >= w {
        d
    } else {
        Seq::new((w - d.len()) as nat, |i: int| '0') + d
    }
}

/// `YYYY-MM-DDTHH:MM:SSZ` for a count of seconds since 1970-01-01 UTC.
pub open spec fn iso_spec(secs: nat) -> Seq<char> {
    let days = secs / 86400;
    let t = secs % 86400;
    let yd = year_and_day(days as int, 1970);
    let md = month_and_day(yd.1, yd.0, 1);
    padded(yd.0 as nat, 4) + seq!['-'] + padded(md.0 as nat, 2) + seq!['-'] + padded(
        (md.1 + 1) as nat,
        2,
    ) + seq!['T'] + padded((t / 3600) as nat, 2) + seq![':'] + padded(((t % 3600) / 60) as nat, 2)
        + seq![':'] + padded((t % 60) as nat, 2) + seq!['Z']
}

/// Whether `y` is a leap year.
pub fn is_leap(y: i64) -> (r: bool)
    ensures
        r == leap_spec(y as int),
{
    (y % 4 == 0 && y % 100 != 0) || y % 400 == 0
}

fn leap_u64(y: u64) -> (r: bool)
    ensures
        r == leap_spec(y as int),
{
    (y % 4 == 0 && y % 100 != 0) || y % 400 == 0
}

fn digit(d: u64) -> (c: char)
    requires
        d < 10,
    ensures
        c == digit_char(d as int),
{
    if d == 0 { '0' } else if d == 1 { '1' } else if d == 2 { '2' } else if d == 3 { '3' }
    else if d == 4 { '4' } else if d == 5 { '5' } else if d == 6 { '6' } else if d == 7 { '7' }
    else if d == 8 { '8' } else { '9' }
}

pub(crate) fn push_decimal(s: &mut String, n: u64)
    ensures
        final(s)@ == old(s)@ + decimal(n as nat),
    decreases n,
{
    if n >= 10 {
        push_decimal(s, n / 10);
    }
    push_char(s, digit(n % 10));
    assert(decimal(n as nat) == if n < 10 {
        seq![digit_char(n as int)]
    } else {
        decimal((n / 10) as nat).push(digit_char((n % 10) as int))
    });
}

fn decimal_len_capped(n: u64) -> (r: usize)
    ensures
        r as nat == if decimal(n as nat).len() < 5 { decimal(n as nat).len() } else { 5 },
    decreases n,
{
    if n < 10 {
        1
    } else {
        let r = decimal_len_capped(n / 10);
        if r >= 5 { 5 } else { r + 1 }
    }
}

fn push_padded(s: &mut String, n: u64, w: usize)
    requires
        w <= 4,
    ensures
        final(s)@ == old(s)@ + padded(n as nat, w as nat),
{
    let len = decimal_len_capped(n);
    let ghost start = s@;
    if len < w {
        let mut k: usize = 0;
        while k < w - len
            invariant
                len < w,
                s@ == start + Seq::new(k as nat, |i: int| '0'),
                k <= w - len,
            decreases w - len - k,
        {
            push_char(s, '0');
            k = k + 1;
            assert(s@ == start + Seq::new(k as nat, |i: int| '0'));
        }
    }
    let ghost mid = s@;
    push_decimal(s, n);
    assert(s@ == old(s)@ + padded(n as nat, w as nat));
}

/// Formats seconds since the Unix epoch as an ISO-8601 UTC stamp.
pub fn iso_lite(epoch_secs: u64) -> (r: String)
    ensures
        r@ == iso_spec(epoch_secs as nat),
{
    let days = epoch_secs / 86400;
    let time = epoch_secs % 86400;
    let h = time / 3600;
    let m = (time % 3600) / 60;
    let sec = time % 60;
    let mut y: u64 = 1970;
    let mut remaining: u64 = days;
    loop
        invariant
            1970 <= y <= 1970 + days - remaining,
            remaining <= days,
            days == epoch_secs / 86400,
            year_and_day(days as int, 1970) == year_and_day(remaining as int, y as int),
        ensures
            remaining < year_len(y as int),
            year_and_day(days as int, 1970) == year_and_day(remaining as int, y as int),
        decreases remaining,
    {
        let year_days: u64 = if leap_u64(y) { 366 } else { 365 };
        if remaining < year_days {
            break;
        }
        remaining = remaining - year_days;
        y = y + 1;
    }
    let yday: u64 = remaining;
    assert(year_and_day(yday as int, y as int) == (y as int, yday as int));
    let mut rem: u64 = yday;
    let mut mo: u64 = 1;
    loop
        invariant
            1 <= mo <= 12,
            rem <= yday,
            month_and_day(yday as int, y as int, 1) == month_and_day(rem as int, y as int, mo as int),
        ensures
            1 <= mo <= 12,
            mo >= 12 || rem < month_len(y as int, mo as int),
            month_and_day(yday as int, y as int, 1) == month_and_day(rem as int, y as int, mo as int),
        decreases 12 - mo,
    {
        let ml: u64 = if mo == 2 {
            if leap_u64(y) { 29 } else { 28 }
        } else if mo == 4 || mo == 6 || mo == 9 || mo == 11 {
            30
        } else {
            31
        };
        if mo >= 12 || rem < ml {
            break;
        }
        rem = rem - ml;
        mo = mo + 1;
    }
    assert(month_and_day(rem as int, y as int, mo as int) == (mo as int, rem as int));
    let mut out = String::new();
    push_padded(&mut out, y, 4);
    push_char(&mut out, '-');
    push_padded(&mut out, mo, 2);
    push_char(&mut out, '-');
    push_padded(&mut out, rem + 1, 2);
    push_char(&mut out, 'T');
    push_padded(&mut out, h, 2);
    push_char(&mut out, ':');
    push_padded(&mut out, m, 2);
    push_char(&mut out, ':');
    push_padded(&mut out, sec, 2);
    push_char(&mut out, 'Z');
    out
}

} // verus!
