//! A signed span of time in microseconds, with views in coarser units.
use vstd::prelude::*;
use crate::date::{DAY_TO_MICROSEC, HOUR_TO_MICROSEC};

verus! {

/// Quotient rounded toward zero, as Rust's integer division does.
pub open spec fn trunc_div(a: int, b: int) -> int {
    if a >= 0 {
        a / b
    } else {
        -((-a) / b)
    }
}

/// Remainder that goes with `trunc_div`: it keeps the sign of `a`.
pub open spec fn trunc_rem(a: int, b: int) -> int {
    a - b * trunc_div(a, b)
}

/// Signed count of microseconds.
pub struct Duration {
    value: i64,
}

impl View for Duration {
    type V = int;

    closed spec fn view(&self) -> int {
        self.value as int
    }
}

impl Duration {
    pub fn from_micros(value: i64) -> (r: Self)
        ensures
            r@ == value,
    {
        Duration { value }
    }

    pub fn into_micros(&self) -> (r: i64)
        ensures
            r == self@,
    {
        self.value
    }

    pub fn into_millis(&self) -> (r: i64)
        ensures
            r == trunc_div(self@, 1000),
    {
        self.value / 1000
    }

    pub fn into_secs(&self) -> (r: i64)
        ensures
            r == trunc_div(self@, 1_000_000),
    {
        self.value / 1_000_000
    }

    /// Microseconds left over after whole seconds; same sign as the duration.
    pub fn subsecs(&self) -> (r: i64)
        ensures
            r == trunc_rem(self@, 1_000_000),
    {
        self.value % 1_000_000
    }

    pub fn into_minutes(&self) -> (r: i64)
        ensures
            r == trunc_div(self@, 60_000_000),
    {
        self.value / 60_000_000
    }

    pub fn into_hours(&self) -> (r: i64)
        ensures
            r == trunc_div(self@, HOUR_TO_MICROSEC as int),
    {
        self.value / HOUR_TO_MICROSEC
    }

    pub fn into_days(&self) -> (r: i64)
        ensures
            r == trunc_div(self@, DAY_TO_MICROSEC as int),
    {
        self.value / DAY_TO_MICROSEC
    }

    /// Microseconds left over after whole days; same sign as the duration.
    pub fn subday_micros(&self) -> (r: i64)
        ensures
            r == trunc_rem(self@, DAY_TO_MICROSEC as int),
    {
        assert(DAY_TO_MICROSEC == 86_400_000_000);
        self.value % DAY_TO_MICROSEC
    }

    /// The magnitude of the duration. `i64::MIN` has no positive counterpart.
    pub fn abs(&self) -> (r: Self)
        requires
            self@ > i64::MIN,
        ensures
            r@ == if self@ < 0 {
                -self@
            } else {
                self@
            },
    {
        if self.value < 0 {
            Duration::from_micros(-self.value)
        } else {
            Duration::from_micros(self.value)
        }
    }
}

/// Whole units and the remainder recombine to the original count, and the
/// remainder is smaller than one unit and has the sign of the count.
pub proof fn lemma_unit_split(v: int, unit: int)
    requires
        unit > 0,
    ensures
        trunc_div(v, unit) * unit + trunc_rem(v, unit) == v,
        v >= 0 ==> 0 <= trunc_rem(v, unit) < unit,
        v < 0 ==> -unit < trunc_rem(v, unit) <= 0,
{
    if v >= 0 {
        vstd::arithmetic::div_mod::lemma_fundamental_div_mod(v, unit);
        vstd::arithmetic::div_mod::lemma_mod_bound(v, unit);
    } else {
        vstd::arithmetic::div_mod::lemma_fundamental_div_mod(-v, unit);
        vstd::arithmetic::div_mod::lemma_mod_bound(-v, unit);
        let q = (-v) / unit;
        assert(unit * (-q) == -(unit * q)) by (nonlinear_arith);
        assert(trunc_rem(v, unit) == -((-v) % unit));
    }
    assert(trunc_div(v, unit) * unit == unit * trunc_div(v, unit)) by (nonlinear_arith);
}

/// Seconds and sub-second microseconds recombine to the duration, and days
/// and sub-day microseconds do too, each remainder keeping the sign.
pub proof fn lemma_duration_units(d: Duration)
    ensures
        trunc_div(d@, 1_000_000) * 1_000_000 + trunc_rem(d@, 1_000_000) == d@,
        d@ >= 0 ==> 0 <= trunc_rem(d@, 1_000_000) < 1_000_000,
        d@ < 0 ==> -1_000_000 < trunc_rem(d@, 1_000_000) <= 0,
        trunc_div(d@, DAY_TO_MICROSEC as int) * DAY_TO_MICROSEC + trunc_rem(d@, DAY_TO_MICROSEC as int) == d@,
        d@ >= 0 ==> 0 <= trunc_rem(d@, DAY_TO_MICROSEC as int) < DAY_TO_MICROSEC,
        d@ < 0 ==> -DAY_TO_MICROSEC < trunc_rem(d@, DAY_TO_MICROSEC as int) <= 0,
{
    lemma_unit_split(d@, 1_000_000);
    lemma_unit_split(d@, DAY_TO_MICROSEC as int);
}

} // verus!
