use civil_date::{Date, DAY_TO_MICROSEC, HOUR_TO_MICROSEC};

#[test]
fn ymd_conversion() {
    for y in 1800..2200 {
        for m in 1..13 {
            for d in 1..29 {
                let date = Date::from_ymd(y, m, d);
                assert_eq!(y, date.year);
                assert_eq!(m, date.month);
                assert_eq!(d, date.m_day);
            }
        }
    }
}

#[test]
fn from_ymd_test() {
    let dates = vec![
        (1970, 1, 1, 0, 0, 0),
        (1800, 1, 1, 0, 0, 0),
        (1800, 12, 25, 0, 0, 0),
        (1800, 12, 25, 2, 4, 5),
        (1900, 1, 1, 16, 30, 23),
        (2020, 3, 2, 14, 0, 0),
        (2021, 9, 9, 8, 30, 0),
        (99999, 12, 31, 23, 59, 59),
    ];

    for (y, mo, d, h, mi, s) in dates.into_iter() {
        let date_1 = Date::from_ymd(y, mo, d);
        let date_2 = date_1.set_hms(h, mi, s);

        assert_eq!(date_2.year, y);
        assert_eq!(date_2.month, mo);
        assert_eq!(date_2.m_day, d);
        assert_eq!(date_2.hour, h);
        assert_eq!(date_2.minute, mi);
        assert_eq!(date_2.second, s);
        assert_eq!(date_1.add_hms(h, mi, s), date_2);
        assert_eq!(date_2.reset_hms(), date_1);
    }
}

#[test]
fn comparison_test() {
    assert!(Date::from_ymd(1999, 1, 20) < Date::from_ymd(2020, 3, 2));
}

#[test]
fn weekday_test() {
    let today = Date::from_ymd(2023, 2, 5);
    assert_eq!(today.w_day, 6);

    for w in -20000..20000 {
        let another_week = today.add_weeks(w);

        assert_eq!(another_week.w_day, 6);
    }

    assert_eq!(Date::from_ymd(2020, 3, 2).w_day, 0);
    assert_eq!(Date::from_ymd(2022, 3, 31).w_day, 3);
    assert_eq!(Date::from_ymd(2020, 2, 29).w_day, 5);
}

#[test]
fn epoch_fields() {
    let d = Date::from_i64(0);
    assert_eq!((d.year, d.month, d.m_day, d.y_day, d.w_day), (1970, 1, 1, 1, 3));
    assert_eq!((d.hour, d.minute, d.second, d.sub_second), (0, 0, 0, 0));
    assert_eq!(Date::default(), d);
    assert_eq!(Date::default().to_i64(), 0);
}

#[test]
fn one_microsecond_before_epoch() {
    let d = Date::from_i64(-1);
    assert_eq!((d.year, d.month, d.m_day, d.y_day, d.w_day), (1969, 12, 31, 365, 2));
    assert_eq!((d.hour, d.minute, d.second, d.sub_second), (23, 59, 59, 999_999));
    assert_eq!(d.to_i64(), -1);
}

#[test]
fn negative_days_keep_weekday_cycle() {
    let epoch = Date::from_i64(0);
    let mut prev = epoch;
    for _ in 0..3000 {
        let next = prev.add_days(-1);
        assert_eq!(next.w_day, (prev.w_day + 6) % 7);
        assert!(next.w_day >= 0 && next.w_day < 7);
        prev = next;
    }
    let mut d = epoch;
    for _ in 0..500 {
        d = d.add_days(-7);
        assert_eq!(d.w_day, 3);
    }
    assert_eq!(Date::from_ymd(1969, 12, 31).w_day, 2);
    assert_eq!(Date::from_ymd(1969, 12, 25).w_day, 3);
    assert_eq!(Date::from_ymd(1900, 1, 1).w_day, 0);
}

#[test]
fn time_fields_of_an_instant() {
    let n = Date::from_ymd(2021, 9, 9).to_i64() + 8 * HOUR_TO_MICROSEC + 30 * 60_000_000 + 15_000_123;
    let d = Date::from_i64(n);
    assert_eq!((d.year, d.month, d.m_day, d.y_day), (2021, 9, 9, 252));
    assert_eq!((d.hour, d.minute, d.second, d.sub_second), (8, 30, 15, 123));
}

#[test]
fn known_absolute_values() {
    assert_eq!(Date::from_ymd(2000, 1, 1).to_i64(), 10957 * DAY_TO_MICROSEC);
    assert_eq!(Date::from_ymd(1969, 1, 1).to_i64(), -365 * DAY_TO_MICROSEC);
    assert_eq!(Date::from_ymd(1, 1, 1).to_i64(), -719162 * DAY_TO_MICROSEC);
}

#[test]
fn leap_day_only_in_leap_years() {
    let d = Date::from_ymd(2024, 2, 29);
    assert_eq!((d.year, d.month, d.m_day, d.y_day), (2024, 2, 29, 60));
    let d = Date::from_ymd(2000, 2, 29);
    assert_eq!((d.month, d.m_day), (2, 29));
    let d = Date::from_ymd(2023, 2, 29);
    assert_eq!((d.year, d.month, d.m_day), (2023, 3, 1));
    let d = Date::from_ymd(1900, 2, 29);
    assert_eq!((d.year, d.month, d.m_day), (1900, 3, 1));
    assert_eq!(Date::from_ymd(2024, 12, 31).y_day, 366);
    assert_eq!(Date::from_ymd(2023, 12, 31).y_day, 365);
}

#[test]
fn day_past_month_end_runs_on() {
    let d = Date::from_ymd(2021, 4, 31);
    assert_eq!((d.year, d.month, d.m_day), (2021, 5, 1));
    let d = Date::from_ymd(2021, 12, 31);
    assert_eq!((d.year, d.month, d.m_day), (2021, 12, 31));
}

#[test]
fn round_trip_wide_years() {
    for y in [1, 2, 99, 100, 400, 1582, 9999, 10000, 50000, 99999] {
        for m in 1..13 {
            for d in [1, 15, 28] {
                let date = Date::from_ymd(y, m, d);
                assert_eq!((date.year, date.month, date.m_day), (y, m, d));
            }
        }
    }
    let d = Date::from_ymd(-44, 3, 15);
    assert_eq!((d.year, d.month, d.m_day), (-44, 3, 15));
}

#[test]
fn add_hours_and_days() {
    let d = Date::from_ymd(2020, 2, 28).add_hours(25);
    assert_eq!((d.month, d.m_day, d.hour), (2, 29, 1));
    let d = Date::from_ymd(2020, 3, 1).add_days(-1);
    assert_eq!((d.month, d.m_day), (2, 29));
    let d = Date::from_ymd(2020, 1, 1).add_weeks(-1);
    assert_eq!((d.year, d.month, d.m_day), (2019, 12, 25));
    let d = Date::from_ymd(2020, 1, 1).add_hms(-1, 0, 0);
    assert_eq!((d.year, d.month, d.m_day, d.hour), (2019, 12, 31, 23));
    let d = Date::from_ymd(2020, 1, 1).add_hms(0, 90, 61);
    assert_eq!((d.hour, d.minute, d.second), (1, 31, 1));
}

#[test]
fn extreme_instants_decompose() {
    let lo = Date::from_i64(i64::MIN);
    let hi = Date::from_i64(i64::MAX);
    assert!(lo < hi);
    assert!(lo.year < -290_000 && hi.year > 290_000);
    assert!(lo.month >= 1 && lo.month <= 12 && hi.w_day >= 0 && hi.w_day < 7);
}

#[test]
fn duration_since_is_signed() {
    let a = Date::from_ymd(2020, 3, 2);
    let b = Date::from_ymd(2020, 3, 1).set_hms(12, 0, 0);
    assert_eq!(a.duration_since(&b).into_hours(), 12);
    assert_eq!(b.duration_since(&a).into_micros(), -12 * HOUR_TO_MICROSEC);
    assert!(a != b);
    assert!(b < a && a > b);
}
