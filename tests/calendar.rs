use civil_date::{count_year, count_year_rev, is_leap, yday_to_mday};

#[test]
fn leap_years() {
    assert!(is_leap(2000));
    assert!(!is_leap(1900));
    assert!(is_leap(2024));
    assert!(!is_leap(2023));
    assert!(is_leap(0));
    assert!(is_leap(-4));
    assert!(!is_leap(-100));
    assert!(is_leap(-400));
}

#[test]
fn year_starts() {
    assert_eq!(count_year_rev(1970), 0);
    assert_eq!(count_year_rev(1971), 365);
    assert_eq!(count_year_rev(2000), 10957);
    assert_eq!(count_year_rev(1969), -365);
    assert_eq!(count_year_rev(1), -719162);
}

#[test]
fn year_of_day() {
    assert_eq!(count_year(0), (1970, 0));
    assert_eq!(count_year(-1), (1969, 364));
    assert_eq!(count_year(10957), (2000, 0));
    assert_eq!(count_year(10957 + 365), (2000, 365));
    assert_eq!(count_year(-719162), (1, 0));
    for y in [-5000, -1, 0, 1, 1600, 1969, 1970, 2100, 99999, 1_000_000] {
        let start = count_year_rev(y) as i32;
        assert_eq!(count_year(start), (y, 0));
        assert_eq!(count_year(start - 1).0, y - 1);
    }
}

#[test]
fn month_of_year_day() {
    assert_eq!(yday_to_mday(0, false), (1, 1));
    assert_eq!(yday_to_mday(31, false), (2, 1));
    assert_eq!(yday_to_mday(59, false), (3, 1));
    assert_eq!(yday_to_mday(59, true), (2, 29));
    assert_eq!(yday_to_mday(364, false), (12, 31));
    assert_eq!(yday_to_mday(365, true), (12, 31));
}
