//! Conversion between microseconds since 1970-01-01T00:00:00 and the civil
//! (proleptic Gregorian) calendar, with date arithmetic and durations.
use vstd::prelude::*;

pub mod calendar;
pub mod date;
pub mod duration;

pub use calendar::{count_year, count_year_rev, is_leap, yday_to_mday};
pub use date::{Date, DAY_TO_MICROSEC, HOUR_TO_MICROSEC, MAX_YEAR, MIN_YEAR};
pub use duration::Duration;

verus! {

} // verus!
