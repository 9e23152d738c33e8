use vstd::prelude::*;

verus! {

/// Hours added to the clock's UTC time to get local time.
pub const UTC_OFFSET: i32 = 3;

/// Value of a packed binary-coded-decimal byte: low nibble plus ten times the high nibble.
pub open spec fn bcd_value(val: u8) -> int {
    (val % 16) as int + (val / 16) as int * 10
}

/// Decodes a BCD byte as read from the CMOS clock.
pub fn bcd_to_bin(val: u8) -> (r: u8)
    ensures
        r == bcd_value(val),
{
    assert((val & 0x0F) == val % 16) by (bit_vector);
    assert((val >> 4) == val / 16) by (bit_vector);
    (val & 0x0F) + ((val >> 4) * 10)
}

/// Gregorian leap year rule.
pub open spec fn leap(year: int) -> bool {
    (year % 4 == 0 && year % 100 != 0) || year % 400 == 0
}

/// Days in `month` of `year`; months outside 1..=12 count 30 days.
pub open spec fn month_days(month: int, year: int) -> int {
    if month == 2 {
        if leap(year) { 29 } else { 28 }
    } else if month == 4 || month == 6 || month == 9 || month == 11 {
        30
    } else if 1 <= month <= 12 {
        31
    } else {
        30
    }
}

/// Whether `year` is a leap year.
pub fn is_leap(year: i32) -> (r: bool)
    ensures
        r == leap(year as int),
{
    (year % 4 == 0 && year % 100 != 0) || year % 400 == 0
}

/// Number of days in `month` of `year`.
pub fn days_in_month(month: i32, year: i32) -> (r: i32)
    ensures
        r == month_days(month as int, year as int),
{
    match month {
        1 => 31,
        2 => if is_leap(year) { 29 } else { 28 },
        3 => 31,
        4 => 30,
        5 => 31,
        6 => 30,
        7 => 31,
        8 => 31,
        9 => 30,
        10 => 31,
        11 => 30,
        12 => 31,
        _ => 30,
    }
}

/// The date one day after `(d, mo, y)`: the day counts on until it passes the length of the
/// month, then the month (and after month 12 the year) moves on.
pub open spec fn next_day(d: int, mo: int, y: int) -> (int, int, int) {
    let d1 = d + 1;
    if d1 > month_days(mo, y) {
        if mo + 1 > 12 { (1, 1, y + 1) } else { (1, mo + 1, y) }
    } else {
        (d1, mo, y)
    }
}

/// Local time for a clock reading of `h` hours: while `h` is 24 or more, a day passes.
pub open spec fn roll_hours(h: int, d: int, mo: int, y: int) -> (int, int, int, int)
    decreases h,
{
    if h < 24 {
        (h, d, mo, y)
    } else {
        let n = next_day(d, mo, y);
        roll_hours(h - 24, n.0, n.1, n.2)
    }
}

/// The local time that a CMOS clock reading stands for: BCD fields are decoded unless bit 2
/// of status register B is set, the hour moves `UTC_OFFSET` ahead with the date following
/// it, the year counts from 2000 and is returned as its last two digits.
/// The result is (hour, minute, second, day, month, year).
pub open spec fn local_time_spec(raw: (u8, u8, u8, u8, u8, u8), status_b: u8) -> (u8, u8, u8, u8, u8, u8) {
    let bcd = (status_b / 4) % 2 == 0;
    let f = |v: u8| if bcd { bcd_value(v) } else { v as int };
    let r = roll_hours(f(raw.2) + 3, f(raw.3), f(raw.4), 2000 + f(raw.5));
    (r.0 as u8, f(raw.1) as u8, f(raw.0) as u8, r.1 as u8, r.2 as u8, (r.3 % 100) as u8)
}

/// Converts a raw clock reading (second, minute, hour, day, month, year registers) and
/// status register B into local (hour, minute, second, day, month, year).
pub fn local_time(raw: (u8, u8, u8, u8, u8, u8), status_b: u8) -> (r: (u8, u8, u8, u8, u8, u8))
    ensures
        r == local_time_spec(raw, status_b),
{
    let is_bcd = status_b & 0x04 == 0;
    assert(is_bcd == ((status_b / 4) % 2 == 0)) by (bit_vector)
        requires
            is_bcd == (status_b & 0x04 == 0),
    ;
    let (raw_sec, raw_min, raw_hour, raw_day, raw_month, raw_year) = raw;
    let (sec, min, hour, day, month, year) = if is_bcd {
        (
            bcd_to_bin(raw_sec),
            bcd_to_bin(raw_min),
            bcd_to_bin(raw_hour),
            bcd_to_bin(raw_day),
            bcd_to_bin(raw_month),
            bcd_to_bin(raw_year),
        )
    } else {
        (raw_sec, raw_min, raw_hour, raw_day, raw_month, raw_year)
    };
    let mut h: i32 = hour as i32 + UTC_OFFSET;
    let mut d: i32 = day as i32;
    let mut mo: i32 = month as i32;
    let mut y: i32 = 2000 + year as i32;
    let ghost target = roll_hours(h as int, d as int, mo as int, y as int);
    while h >= 24
        invariant
            0 <= h <= 258,
            0 <= d <= 256,
            0 <= mo <= 256,
            2000 <= y <= 2300 - h / 24,
            roll_hours(h as int, d as int, mo as int, y as int) == target,
        decreases h,
    {
        h -= 24;
        d += 1;
        if d > days_in_month(mo, y) {
            d = 1;
            mo += 1;
            if mo > 12 {
                mo = 1;
                y += 1;
            }
        }
    }
    (h as u8, min, sec, d as u8, mo as u8, (y % 100) as u8)
}

} // verus!
