//! Gregorian calendar arithmetic: leap years, the day on which each year
//! starts, and the cumulative month tables.
use vstd::prelude::*;

verus! {

/// Days from 0001-01-01 to 1970-01-01 in the proleptic Gregorian calendar.
pub const EPOCH_DAYS_CE: i64 = 719162;

/// Days in one 400-year Gregorian cycle.
pub const CYCLE_DAYS: i64 = 146097;

/// The proleptic Gregorian leap rule.
pub open spec fn leap_year(y: int) -> bool {
    (y % 4 == 0 && y % 100 != 0) || y % 400 == 0
}

pub open spec fn year_length(y: int) -> int {
    if leap_year(y) {
        366
    } else {
        365
    }
}

/// Days from 0001-01-01 to the first day of year `y` (negative before year 1).
pub open spec fn days_before_year_ce(y: int) -> int {
    let x = y - 1;
    365 * x + x / 4 - x / 100 + x / 400
}

/// Day ordinal (1970-01-01 is day 0) of the first day of year `y`.
pub open spec fn year_start(y: int) -> int {
    days_before_year_ce(y) - EPOCH_DAYS_CE
}

pub open spec fn days_in_month(leap: bool, m: int) -> int {
    if m == 2 {
        if leap {
            29
        } else {
            28
        }
    } else if m == 4 || m == 6 || m == 9 || m == 11 {
        30
    } else {
        31
    }
}

/// Cumulative days before the first day of month `m` (1 to 12); month 13
/// stands for the end of the year.
pub open spec fn days_before_month(leap: bool, m: int) -> int {
    let l: int = if leap {
        1
    } else {
        0
    };
    if m <= 1 {
        0
    } else if m == 2 {
        31
    } else if m == 3 {
        59 + l
    } else if m == 4 {
        90 + l
    } else if m == 5 {
        120 + l
    } else if m == 6 {
        151 + l
    } else if m == 7 {
        181 + l
    } else if m == 8 {
        212 + l
    } else if m == 9 {
        243 + l
    } else if m == 10 {
        273 + l
    } else if m == 11 {
        304 + l
    } else if m == 12 {
        334 + l
    } else {
        365 + l
    }
}

/// The cumulative table is the running sum of the month lengths.
pub proof fn lemma_month_table(leap: bool, m: int)
    requires
        1 <= m <= 12,
    ensures
        days_before_month(leap, m + 1) == days_before_month(leap, m) + days_in_month(leap, m),
        days_before_month(leap, 13) == if leap {
            366int
        } else {
            365int
        },
{
}

/// Consecutive years start `year_length` days apart.
pub proof fn lemma_year_step(y: int)
    ensures
        year_start(y + 1) == year_start(y) + year_length(y),
{
    let x = y - 1;
    assert(y / 4 - x / 4 == if y % 4 == 0 { 1int } else { 0int });
    assert(y / 100 - x / 100 == if y % 100 == 0 { 1int } else { 0int });
    assert(y / 400 - x / 400 == if y % 400 == 0 { 1int } else { 0int });
}

/// A day of the year lies in exactly one month.
pub proof fn lemma_month_unique(leap: bool, m1: int, m2: int, yd: int)
    requires
        1 <= m1 <= 12,
        1 <= m2 <= 12,
        days_before_month(leap, m1) <= yd < days_before_month(leap, m1 + 1),
        days_before_month(leap, m2) <= yd < days_before_month(leap, m2 + 1),
    ensures
        m1 == m2,
{
}

/// Later years start strictly later.
pub proof fn lemma_year_start_increasing(a: int, b: int)
    requires
        a < b,
    ensures
        year_start(a) < year_start(b),
    decreases b - a,
{
    lemma_year_step(a);
    if a + 1 < b {
        lemma_year_start_increasing(a + 1, b);
    }
}

/// A day lies in exactly one year.
pub proof fn lemma_year_unique(y1: int, y2: int, d: int)
    requires
        year_start(y1) <= d < year_start(y1 + 1),
        year_start(y2) <= d < year_start(y2 + 1),
    ensures
        y1 == y2,
{
    if y1 < y2 {
        lemma_year_start_increasing(y1, y2);
        if y1 + 1 < y2 {
            lemma_year_start_increasing(y1 + 1, y2);
        }
    } else if y2 < y1 {
        lemma_year_start_increasing(y2, y1);
        if y2 + 1 < y1 {
            lemma_year_start_increasing(y2 + 1, y1);
        }
    }
}

/// Resolving the first day of a year gives back that year at day 0: any
/// `(year, y_day)` that `count_year` may return for `year_start(y)` is `(y, 0)`.
pub proof fn lemma_count_year_inverse(y: int, year: int, y_day: int)
    requires
        year_start(year) <= year_start(y) < year_start(year + 1),
        y_day == year_start(y) - year_start(year),
    ensures
        year == y,
        y_day == 0,
{
    lemma_year_step(y);
    lemma_year_unique(year, y, year_start(y));
}

/// The start of a year is within a few days of its mean position in the
/// 400-year cycle.
pub proof fn lemma_year_start_bounds(y: int)
    ensures
        146097 * (y - 1) - 800 < 400 * days_before_year_ce(y) <= 146097 * (y - 1) + 400,
{
    let x = y - 1;
    assert(x - 4 < 4 * (x / 4) <= x);
    assert(x - 100 < 100 * (x / 100) <= x);
    assert(x - 400 < 400 * (x / 400) <= x);
}

/// A multiple of 400 years large enough to make any `i32` year positive, so
/// that divisions below work on non-negative values.
const YEAR_SHIFT: i64 = 4_000_000_000;

/// Gregorian leap rule on any year, including zero and negative years.
pub fn is_leap(year: i32) -> (r: bool)
    ensures
        r == leap_year(year as int),
{
    let x: i64 = year as i64 + YEAR_SHIFT;
    assert(x % 4 == (year as int) % 4);
    assert(x % 100 == (year as int) % 100);
    assert(x % 400 == (year as int) % 400);
    (x % 4 == 0 && x % 100 != 0) || x % 400 == 0
}

/// Day ordinal (1970-01-01 is day 0) of the first day of `year`.
pub fn count_year_rev(year: i32) -> (r: i64)
    ensures
        r == year_start(year as int),
{
    let x: i64 = year as i64 - 1;
    let s: i64 = x + YEAR_SHIFT;
    assert(s / 4 == x / 4 + YEAR_SHIFT / 4);
    assert(s / 100 == x / 100 + YEAR_SHIFT / 100);
    assert(s / 400 == x / 400 + YEAR_SHIFT / 400);
    365 * x + (s / 4 - YEAR_SHIFT / 4) - (s / 100 - YEAR_SHIFT / 100) + (s / 400 - YEAR_SHIFT / 400)
        - EPOCH_DAYS_CE
}

/// Finds the year that holds day ordinal `days`, and the 0-based day of that
/// year. An estimate from the length of the 400-year cycle is corrected by
/// at most a few steps.
pub fn count_year(days: i32) -> (r: (i32, i32))
    ensures
        year_start(r.0 as int) <= days < year_start(r.0 + 1),
        r.1 == days - year_start(r.0 as int),
        0 <= r.1 < year_length(r.0 as int),
{
    let z: i64 = days as i64 + EPOCH_DAYS_CE;
    let shifted: i64 = z + CYCLE_DAYS * 20_000;
    let mut y: i64 = (400 * shifted) / CYCLE_DAYS - 400 * 20_000 + 1;
    assert(-6_000_000 <= y <= 6_000_000);
    while count_year_rev(y as i32) > days as i64
        invariant
            -6_000_000 <= y <= 6_000_000,
            z == days + EPOCH_DAYS_CE,
        decreases y + 6_000_000,
    {
        proof {
            lemma_year_step(y - 1);
            lemma_year_start_bounds(y as int);
        }
        y = y - 1;
    }
    while count_year_rev((y + 1) as i32) <= days as i64
        invariant
            -6_000_000 <= y <= 6_000_000,
            year_start(y as int) <= days,
            z == days + EPOCH_DAYS_CE,
        decreases 6_000_000 - y,
    {
        proof {
            lemma_year_step(y as int);
            lemma_year_start_bounds(y + 2);
        }
        y = y + 1;
    }
    proof {
        lemma_year_step(y as int);
    }
    let start: i64 = count_year_rev(y as i32);
    (y as i32, (days as i64 - start) as i32)
}

/// The cumulative month table: days of the year before the first of `month`.
pub fn month_offset(leap: bool, month: i32) -> (r: i32)
    requires
        1 <= month <= 13,
    ensures
        r == days_before_month(leap, month as int),
{
    let l: i32 = if leap {
        1
    } else {
        0
    };
    match month {
        1 => 0,
        2 => 31,
        3 => 59 + l,
        4 => 90 + l,
        5 => 120 + l,
        6 => 151 + l,
        7 => 181 + l,
        8 => 212 + l,
        9 => 243 + l,
        10 => 273 + l,
        11 => 304 + l,
        12 => 334 + l,
        _ => 365 + l,
    }
}

/// Reverse lookup: the 0-based day of the year of (`month`, `day`). A day past
/// the end of its month runs on into the next one.
pub fn year_day(leap: bool, month: i32, day: i32) -> (r: i32)
    requires
        1 <= month <= 12,
        1 <= day <= 31,
    ensures
        r == days_before_month(leap, month as int) + day - 1,
{
    month_offset(leap, month) + day - 1
}

/// Splits a 0-based day of the year into a month and a 1-based day of month.
pub fn yday_to_mday(y_day: i32, leap: bool) -> (r: (i32, i32))
    requires
        0 <= y_day < days_before_month(leap, 13),
    ensures
        1 <= r.0 <= 12,
        days_before_month(leap, r.0 as int) <= y_day < days_before_month(leap, r.0 + 1),
        r.1 == y_day - days_before_month(leap, r.0 as int) + 1,
{
    let mut m: i32 = 1;
    while m < 12 && month_offset(leap, m + 1) <= y_day
        invariant
            1 <= m <= 12,
            days_before_month(leap, m as int) <= y_day,
            0 <= y_day < days_before_month(leap, 13),
        decreases 12 - m,
    {
        m = m + 1;
    }
    (m, y_day - month_offset(leap, m) + 1)
}

} // verus!
