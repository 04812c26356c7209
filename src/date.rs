//! A point in time, held as microseconds since 1970-01-01T00:00:00 together
//! with its civil calendar fields.
use vstd::prelude::*;
use crate::calendar::{
    count_year, count_year_rev, days_before_month, days_in_month, is_leap, leap_year,
    lemma_month_table, lemma_month_unique, lemma_year_start_bounds, lemma_year_step, lemma_year_unique, year_day,
    year_start, yday_to_mday,
};
use crate::duration::Duration;

verus! {

pub const HOUR_TO_MICROSEC: i64 = 1000 * 1000 * 60 * 60;

pub const DAY_TO_MICROSEC: i64 = 1000 * 1000 * 60 * 60 * 24;

/// The years whose every day can be written in `i64` microseconds.
pub const MIN_YEAR: i32 = -290_000;

/// The last of the years that `MIN_YEAR` opens.
pub const MAX_YEAR: i32 = 290_000;

/// Day ordinal of the calendar date (`y`, `m`, `d`); a day past the end of its
/// month runs on into the next one.
pub open spec fn ymd_days(y: int, m: int, d: int) -> int {
    year_start(y) + days_before_month(leap_year(y), m) + d - 1
}

/// Microseconds from the epoch to midnight of (`y`, `m`, `d`).
pub open spec fn ymd_micros(y: int, m: int, d: int) -> int {
    ymd_days(y, m, d) * DAY_TO_MICROSEC
}

/// A signed offset of `h` hours, `m` minutes and `s` seconds, in microseconds.
pub open spec fn hms_micros(h: int, m: int, s: int) -> int {
    (h * 3600 + m * 60 + s) * 1_000_000
}

/// `v` can be held in an `i64`.
pub open spec fn in_i64(v: int) -> bool {
    i64::MIN <= v <= i64::MAX
}

/// `month` and `m_day` start at 1, and so does the public `y_day`.
/// The fields are derived from the microsecond count; methods return new
/// values rather than change them.
#[derive(Copy, Clone, Debug)]
pub struct Date {
    /// Microseconds since 1970-01-01T00:00:00; the other fields follow from it.
    pub absolute_value: i64,
    pub year: i32,
    pub month: i32,
    pub m_day: i32,
    pub y_day: i32,
    /// 0 is Monday; 1970-01-01, a Thursday, is 3.
    pub w_day: i32,
    pub hour: i32,
    pub minute: i32,
    pub second: i32,
    /// microseconds
    pub sub_second: i32,
}

impl View for Date {
    type V = int;

    /// Microseconds since 1970-01-01T00:00:00.
    open spec fn view(&self) -> int {
        self.absolute_value as int
    }
}

/// Whole days and a time of day recombine, and split back into the same two.
pub proof fn lemma_day_split(days: int, t: int)
    requires
        0 <= t < DAY_TO_MICROSEC,
    ensures
        (days * DAY_TO_MICROSEC + t) / DAY_TO_MICROSEC as int == days,
        (days * DAY_TO_MICROSEC + t) % DAY_TO_MICROSEC as int == t,
{
    vstd::arithmetic::div_mod::lemma_fundamental_div_mod_converse(
        days * DAY_TO_MICROSEC + t,
        DAY_TO_MICROSEC as int,
        days,
        t,
    );
}

/// Two dates decomposed from the same instant agree in every field.
pub proof fn lemma_decomposition_unique(a: Date, b: Date, n: int)
    requires
        a.decomposes(n),
        b.decomposes(n),
    ensures
        a.year == b.year,
        a.month == b.month,
        a.m_day == b.m_day,
        a.y_day == b.y_day,
        a.w_day == b.w_day,
        a.hour == b.hour,
        a.minute == b.minute,
        a.second == b.second,
        a.sub_second == b.sub_second,
{
    let days = n / DAY_TO_MICROSEC as int;
    lemma_year_unique(a.year as int, b.year as int, days);
    lemma_month_unique(
        leap_year(a.year as int),
        a.month as int,
        b.month as int,
        days - year_start(a.year as int),
    );
}

/// A valid calendar date comes back out of its own midnight unchanged: the
/// same year, month and day, at 00:00:00.
pub proof fn lemma_ymd_round_trip(y: int, m: int, d: int, r: Date)
    requires
        1 <= m <= 12,
        1 <= d <= days_in_month(leap_year(y), m),
        r.decomposes(ymd_micros(y, m, d)),
    ensures
        r.year == y,
        r.month == m,
        r.m_day == d,
        r.y_day == days_before_month(leap_year(y), m) + d,
        r.hour == 0,
        r.minute == 0,
        r.second == 0,
        r.sub_second == 0,
{
    let days = ymd_days(y, m, d);
    lemma_day_split(days, 0);
    lemma_month_table(leap_year(y), m);
    lemma_month_table(leap_year(y), 12);
    lemma_year_step(y);
    lemma_year_unique(r.year as int, y, days);
    lemma_month_unique(leap_year(y), r.month as int, m, days - year_start(y));
}

/// Setting a time of day on a calendar date's midnight gives exactly that
/// date and time; adding the same hours, minutes and seconds to the midnight
/// gives the same instant; resetting the time returns to the midnight.
/// `base`, `set`, `added` and `reset` are any values that `from_ymd(y, mo, d)`,
/// `base.set_hms(h, mi, s)`, `base.add_hms(h, mi, s)` and `set.reset_hms()`
/// may return.
pub proof fn lemma_set_reset_symmetry(
    y: int,
    mo: int,
    d: int,
    h: int,
    mi: int,
    s: int,
    base: Date,
    set: Date,
    added: Date,
    reset: Date,
)
    requires
        1 <= mo <= 12,
        1 <= d <= days_in_month(leap_year(y), mo),
        0 <= h < 24,
        0 <= mi < 60,
        0 <= s < 60,
        base.wf(),
        base@ == ymd_micros(y, mo, d),
        set.wf(),
        set@ == ymd_micros(base.year as int, base.month as int, base.m_day as int) + hms_micros(h, mi, s),
        added@ == base@ + hms_micros(h, mi, s),
        reset@ == ymd_micros(set.year as int, set.month as int, set.m_day as int),
    ensures
        set.year == y,
        set.month == mo,
        set.m_day == d,
        set.hour == h,
        set.minute == mi,
        set.second == s,
        added@ == set@,
        reset@ == base@,
{
    lemma_ymd_round_trip(y, mo, d, base);
    lemma_hms_fields(h, mi, s);
    let days = ymd_days(y, mo, d);
    lemma_day_split(days, hms_micros(h, mi, s));
    lemma_month_table(leap_year(y), mo);
    lemma_month_table(leap_year(y), 12);
    lemma_year_step(y);
    lemma_year_unique(set.year as int, y, days);
    lemma_month_unique(leap_year(y), set.month as int, mo, days - year_start(y));
}

/// Every day of the years `MIN_YEAR` to `MAX_YEAR` is a whole day within
/// the `i64` range of microseconds.
pub proof fn lemma_year_range_fits(y: int, m: int, d: int)
    requires
        MIN_YEAR <= y <= MAX_YEAR,
        1 <= m <= 12,
        1 <= d <= 31,
    ensures
        -106_700_000 <= ymd_days(y, m, d) <= 106_700_000,
        in_i64(ymd_days(y, m, d) * DAY_TO_MICROSEC),
        in_i64((ymd_days(y, m, d) + 1) * DAY_TO_MICROSEC),
{
    lemma_year_start_bounds(y);
    let k = ymd_days(y, m, d);
    assert(-106_700_000 <= k <= 106_700_000);
    assert(-106_700_000 * DAY_TO_MICROSEC <= k * DAY_TO_MICROSEC <= 106_700_000 * DAY_TO_MICROSEC)
        by (nonlinear_arith)
        requires
            -106_700_000 <= k <= 106_700_000,
            DAY_TO_MICROSEC == 86_400_000_000,
    ;
}

/// A number of weeks whose microseconds fit in `i64` has days that fit too.
proof fn lemma_week_fits(n: int)
    requires
        in_i64(n * 7 * DAY_TO_MICROSEC),
    ensures
        in_i64(n * 7),
{
    assert(in_i64(n * 7)) by (nonlinear_arith)
        requires
            in_i64(n * 7 * DAY_TO_MICROSEC),
            DAY_TO_MICROSEC == 86_400_000_000,
    ;
}

/// Moving an instant by whole days moves its day ordinal, and so its
/// weekday, by as many days.
pub proof fn lemma_shift_days(n: int, k: int)
    ensures
        (n + k * DAY_TO_MICROSEC) / DAY_TO_MICROSEC as int == n / DAY_TO_MICROSEC as int + k,
        (n + k * DAY_TO_MICROSEC) % DAY_TO_MICROSEC as int == n % DAY_TO_MICROSEC as int,
        ((n + k * DAY_TO_MICROSEC) / DAY_TO_MICROSEC as int + 3) % 7 == ((n / DAY_TO_MICROSEC as int + 3) % 7 + k) % 7,
{
    let q = n / DAY_TO_MICROSEC as int;
    let t = n % DAY_TO_MICROSEC as int;
    vstd::arithmetic::div_mod::lemma_fundamental_div_mod(n, DAY_TO_MICROSEC as int);
    assert(n + k * DAY_TO_MICROSEC == (q + k) * DAY_TO_MICROSEC + t) by (nonlinear_arith)
        requires
            n == DAY_TO_MICROSEC * q + t,
    ;
    lemma_day_split(q + k, t);
    vstd::arithmetic::div_mod::lemma_add_mod_noop(q + 3, k, 7);
    vstd::arithmetic::div_mod::lemma_add_mod_noop((q + 3) % 7, k, 7);
}

/// A time of day given in range splits back into the same hour, minute and
/// second.
pub proof fn lemma_hms_fields(h: int, m: int, s: int)
    requires
        0 <= h < 24,
        0 <= m < 60,
        0 <= s < 60,
    ensures
        0 <= hms_micros(h, m, s) < DAY_TO_MICROSEC,
        hms_micros(h, m, s) / HOUR_TO_MICROSEC as int == h,
        hms_micros(h, m, s) / 60_000_000 % 60 == m,
        hms_micros(h, m, s) / 1_000_000 % 60 == s,
        hms_micros(h, m, s) % 1_000_000 == 0,
{
    let t = hms_micros(h, m, s);
    vstd::arithmetic::div_mod::lemma_fundamental_div_mod_converse(t, 3_600_000_000, h, (m * 60 + s) * 1_000_000);
    vstd::arithmetic::div_mod::lemma_fundamental_div_mod_converse(t, 60_000_000, h * 60 + m, s * 1_000_000);
    vstd::arithmetic::div_mod::lemma_fundamental_div_mod_converse(h * 60 + m, 60, h, m);
    vstd::arithmetic::div_mod::lemma_fundamental_div_mod_converse(t, 1_000_000, h * 3600 + m * 60 + s, 0);
    vstd::arithmetic::div_mod::lemma_fundamental_div_mod_converse(h * 3600 + m * 60 + s, 60, h * 60 + m, s);
}

pub open spec fn cmp_micros(a: int, b: int) -> core::cmp::Ordering {
    if a < b {
        core::cmp::Ordering::Less
    } else if a == b {
        core::cmp::Ordering::Equal
    } else {
        core::cmp::Ordering::Greater
    }
}

/// Whole days, rounded down, and the non-negative rest of the day.
fn split_days(n: i64) -> (r: (i64, i64))
    ensures
        r.0 == n as int / DAY_TO_MICROSEC as int,
        r.1 == n as int % DAY_TO_MICROSEC as int,
        -106_751_992 <= r.0 <= 106_751_991,
{
    assert(DAY_TO_MICROSEC == 86_400_000_000);
    let mut days: i64 = n / DAY_TO_MICROSEC;
    let mut sub_day: i64 = n % DAY_TO_MICROSEC;
    if sub_day < 0 {
        sub_day = sub_day + DAY_TO_MICROSEC;
        days = days - 1;
    }
    (days, sub_day)
}

/// Weekday of day ordinal `days`, counted so that 1970-01-01 is 0.
fn weekday(days: i64) -> (r: i32)
    requires
        -106_751_992 <= days <= 106_751_991,
    ensures
        r == (days + 3) % 7,
{
    let w: i64 = (days + 3) % 7;
    if w < 0 {
        (w + 7) as i32
    } else {
        w as i32
    }
}

/// Hours, minutes, seconds and microseconds of a time of day.
fn split_time(t: i64) -> (r: (i32, i32, i32, i32))
    requires
        0 <= t < DAY_TO_MICROSEC,
    ensures
        r.0 == t as int / HOUR_TO_MICROSEC as int,
        r.1 == t / 60_000_000 % 60,
        r.2 == t / 1_000_000 % 60,
        r.3 == t % 1_000_000,
{
    assert(DAY_TO_MICROSEC == 86_400_000_000 && HOUR_TO_MICROSEC == 3_600_000_000);
    ((t / HOUR_TO_MICROSEC) as i32, (t / 60_000_000 % 60) as i32, (t / 1_000_000 % 60) as i32, (
    t % 1_000_000) as i32)
}

impl Date {
    /// The fields are the calendar decomposition of `n` microseconds since the
    /// epoch: whole days (rounded down) give year, month, days and weekday,
    /// and the rest of the day gives the time of day.
    pub open spec fn decomposes(self, n: int) -> bool {
        let days = n / DAY_TO_MICROSEC as int;
        let t = n % DAY_TO_MICROSEC as int;
        let leap = leap_year(self.year as int);
        let yd = days - year_start(self.year as int);
        &&& year_start(self.year as int) <= days < year_start(self.year + 1)
        &&& 1 <= self.month <= 12
        &&& days_before_month(leap, self.month as int) <= yd < days_before_month(leap, self.month + 1)
        &&& self.m_day == yd - days_before_month(leap, self.month as int) + 1
        &&& self.y_day == yd + 1
        &&& self.w_day == (days + 3) % 7
        &&& self.hour == t / HOUR_TO_MICROSEC as int
        &&& self.minute == t / 60_000_000 % 60
        &&& self.second == t / 1_000_000 % 60
        &&& self.sub_second == t % 1_000_000
    }

    /// The fields agree with the microsecond count.
    pub open spec fn wf(self) -> bool {
        self.decomposes(self@)
    }

    /// microseconds since 1970/01/01
    pub fn from_i64(n: i64) -> (r: Date)
        ensures
            r@ == n,
            r.wf(),
    {
        let (days, sub_day) = split_days(n);
        let w_day = weekday(days);
        let (year, y_day) = count_year(days as i32);
        let leap = is_leap(year);
        proof {
            lemma_month_table(leap, 12);
        }
        let (month, m_day) = yday_to_mday(y_day, leap);
        let (hour, minute, second, sub_second) = split_time(sub_day);
        Date {
            absolute_value: n,
            year,
            month,
            m_day,
            y_day: y_day + 1,
            w_day,
            hour,
            minute,
            second,
            sub_second,
        }
    }

    /// microseconds since 1970/01/01
    pub fn to_i64(&self) -> (r: i64)
        ensures
            r == self@,
    {
        self.absolute_value
    }

    pub fn add_hours(&self, n: i64) -> (r: Date)
        requires
            in_i64(n * HOUR_TO_MICROSEC),
            in_i64(self@ + n * HOUR_TO_MICROSEC),
        ensures
            r.wf(),
            r@ == self@ + n * HOUR_TO_MICROSEC,
    {
        Date::from_i64(self.absolute_value + n * HOUR_TO_MICROSEC)
    }

    /// Moves by whole days; the weekday moves with them.
    pub fn add_days(&self, n: i64) -> (r: Date)
        requires
            in_i64(n * DAY_TO_MICROSEC),
            in_i64(self@ + n * DAY_TO_MICROSEC),
        ensures
            r.wf(),
            r@ == self@ + n * DAY_TO_MICROSEC,
            self.wf() ==> r.w_day == (self.w_day + n) % 7,
    {
        let r = Date::from_i64(self.absolute_value + n * DAY_TO_MICROSEC);
        proof {
            lemma_shift_days(self@, n as int);
        }
        r
    }

    /// Moves by whole weeks; the weekday stays.
    pub fn add_weeks(&self, n: i64) -> (r: Date)
        requires
            in_i64(n * 7 * DAY_TO_MICROSEC),
            in_i64(self@ + n * 7 * DAY_TO_MICROSEC),
        ensures
            r.wf(),
            r@ == self@ + n * 7 * DAY_TO_MICROSEC,
            self.wf() ==> r.w_day == self.w_day,
    {
        proof {
            lemma_week_fits(n as int);
        }
        let r = Date::from_i64(self.absolute_value + n * 7 * DAY_TO_MICROSEC);
        proof {
            lemma_shift_days(self@, n * 7);
        }
        r
    }

    /// Adds a signed offset of hours, minutes and seconds; none of them needs
    /// to lie in its usual range.
    pub fn add_hms(&self, h: i32, m: i32, s: i32) -> (r: Date)
        requires
            in_i64(self@ + hms_micros(h as int, m as int, s as int)),
        ensures
            r.wf(),
            r@ == self@ + hms_micros(h as int, m as int, s as int),
    {
        Date::from_i64(self.absolute_value + (h as i64 * 3600 + m as i64 * 60 + s as i64) * 1_000_000)
    }

    /// The same calendar day at `h`:`m`:`s`.
    pub fn set_hms(&self, h: i32, m: i32, s: i32) -> (r: Date)
        requires
            self.wf(),
            0 <= h < 24,
            0 <= m < 60,
            0 <= s < 60,
            MIN_YEAR <= self.year <= MAX_YEAR,
        ensures
            r.wf(),
            r@ == ymd_micros(self.year as int, self.month as int, self.m_day as int) + hms_micros(
                h as int,
                m as int,
                s as int,
            ),
            r.year == self.year,
            r.month == self.month,
            r.m_day == self.m_day,
            r.y_day == self.y_day,
            r.w_day == self.w_day,
            r.hour == h,
            r.minute == m,
            r.second == s,
            r.sub_second == 0,
    {
        let leap = is_leap(self.year);
        proof {
            lemma_year_start_bounds(self.year as int);
            lemma_year_start_bounds(self.year + 1);
            lemma_year_step(self.year as int);
            lemma_month_table(leap, 12);
        }
        let days: i64 = count_year_rev(self.year) + year_day(leap, self.month, self.m_day) as i64;
        let offset: i64 = (h as i64 * 3600 + m as i64 * 60 + s as i64) * 1_000_000;
        proof {
            lemma_year_range_fits(self.year as int, self.month as int, self.m_day as int);
            lemma_hms_fields(h as int, m as int, s as int);
            assert(offset == hms_micros(h as int, m as int, s as int));
            assert(DAY_TO_MICROSEC == 86_400_000_000);
        }
        let r = Date::from_i64(days * DAY_TO_MICROSEC + offset);
        proof {
            lemma_hms_fields(h as int, m as int, s as int);
            lemma_day_split(days as int, offset as int);
            lemma_year_unique(r.year as int, self.year as int, days as int);
            lemma_month_unique(
                leap,
                r.month as int,
                self.month as int,
                days - year_start(self.year as int),
            );
        }
        r
    }

    /// Midnight of the same calendar day.
    pub fn reset_hms(&self) -> (r: Date)
        requires
            self.wf(),
            MIN_YEAR <= self.year <= MAX_YEAR,
        ensures
            r.wf(),
            r@ == ymd_micros(self.year as int, self.month as int, self.m_day as int),
            r.year == self.year,
            r.month == self.month,
            r.m_day == self.m_day,
            r.hour == 0,
            r.minute == 0,
            r.second == 0,
            r.sub_second == 0,
    {
        proof {
            lemma_month_table(leap_year(self.year as int), self.month as int);
        }
        Date::from_ymd(self.year, self.month, self.m_day)
    }

    /// Midnight of (`year`, `month`, `day`). A day past the end of its month
    /// is not refused: it runs on into the next month.
    pub fn from_ymd(year: i32, month: i32, day: i32) -> (r: Date)
        requires
            1 <= month <= 12,
            1 <= day <= 31,
            MIN_YEAR <= year <= MAX_YEAR,
        ensures
            r.wf(),
            r@ == ymd_micros(year as int, month as int, day as int),
            day <= days_in_month(leap_year(year as int), month as int) ==> {
                &&& r.year == year
                &&& r.month == month
                &&& r.m_day == day
                &&& r.hour == 0
                &&& r.minute == 0
                &&& r.second == 0
                &&& r.sub_second == 0
            },
            month == 2 && day == 29 && !leap_year(year as int) ==> r.month == 3 && r.m_day == 1,
    {
        let leap = is_leap(year);
        proof {
            lemma_year_start_bounds(year as int);
            lemma_year_start_bounds(year + 1);
        }
        let days: i64 = count_year_rev(year) + year_day(leap, month, day) as i64;
        proof {
            lemma_year_range_fits(year as int, month as int, day as int);
        }
        let r = Date::from_i64(days * DAY_TO_MICROSEC);
        proof {
            if day <= days_in_month(leap, month as int) {
                lemma_ymd_round_trip(year as int, month as int, day as int, r);
            }
            if month == 2 && day == 29 && !leap {
                lemma_ymd_round_trip(year as int, 3, 1, r);
            }
        }
        r
    }

    /// `self - other`, which may be negative.
    pub fn duration_since(&self, other: &Date) -> (r: Duration)
        requires
            in_i64(self@ - other@),
        ensures
            r@ == self@ - other@,
    {
        Duration::from_micros(self.absolute_value - other.absolute_value)
    }
}


/// Dates are equal when they stand for the same instant.
impl PartialEq for Date {
    fn eq(&self, other: &Self) -> (r: bool)
        ensures
            r == (self@ == other@),
    {
        self.absolute_value == other.absolute_value
    }
}

impl vstd::std_specs::cmp::PartialEqSpecImpl for Date {
    open spec fn obeys_eq_spec() -> bool {
        true
    }

    open spec fn eq_spec(&self, other: &Date) -> bool {
        self@ == other@
    }
}

/// Dates are ordered by the instant alone.
impl PartialOrd for Date {
    fn partial_cmp(&self, other: &Self) -> (r: Option<core::cmp::Ordering>)
        ensures
            r == Some(cmp_micros(self@, other@)),
    {
        if self.absolute_value < other.absolute_value {
            Some(core::cmp::Ordering::Less)
        } else if self.absolute_value == other.absolute_value {
            Some(core::cmp::Ordering::Equal)
        } else {
            Some(core::cmp::Ordering::Greater)
        }
    }
}

impl vstd::std_specs::cmp::PartialOrdSpecImpl for Date {
    open spec fn obeys_partial_cmp_spec() -> bool {
        true
    }

    open spec fn partial_cmp_spec(&self, other: &Date) -> Option<core::cmp::Ordering> {
        Some(cmp_micros(self@, other@))
    }
}

/// The epoch, 1970-01-01T00:00:00.
impl Default for Date {
    fn default() -> (r: Self)
        ensures
            r@ == 0,
            r.wf(),
    {
        Date::from_i64(0)
    }
}

} // verus!
