use price::civil_from_days;

#[test]
fn epoch_day_is_first_of_january_1970() {
    assert_eq!(civil_from_days(0), (1970, 1, 1));
}

#[test]
fn day_before_epoch_is_last_of_1969() {
    assert_eq!(civil_from_days(-1), (1969, 12, 31));
}

#[test]
fn millennium_and_leap_days() {
    assert_eq!(civil_from_days(10_957), (2000, 1, 1));
    assert_eq!(civil_from_days(19_782), (2024, 2, 29));
    assert_eq!(civil_from_days(19_783), (2024, 3, 1));
    // 1900 and 2100 are not leap years, 2000 is.
    assert_eq!(civil_from_days(-25_508), (1900, 3, 1));
    assert_eq!(civil_from_days(-25_509), (1900, 2, 28));
    assert_eq!(civil_from_days(11_016), (2000, 2, 29));
    assert_eq!(civil_from_days(47_541), (2100, 3, 1));
    assert_eq!(civil_from_days(47_540), (2100, 2, 28));
}

#[test]
fn year_zero_and_before() {
    assert_eq!(civil_from_days(-719_468), (0, 3, 1));
    assert_eq!(civil_from_days(-719_469), (0, 2, 29));
    assert_eq!(civil_from_days(-719_528), (0, 1, 1));
    assert_eq!(civil_from_days(-719_529), (-1, 12, 31));
}

fn days_in_month(year: i64, month: u32) -> u32 {
    match month {
        2 if year % 4 == 0 && (year % 100 != 0 || year % 400 == 0) => 29,
        2 => 28,
        4 | 6 | 9 | 11 => 30,
        _ => 31,
    }
}

#[test]
fn consecutive_days_are_consecutive_dates() {
    let mut prev = civil_from_days(-800_000);
    for days in -799_999..800_000 {
        let (y, m, d) = civil_from_days(days);
        let (py, pm, pd) = prev;
        let expected = if pd < days_in_month(py, pm) {
            (py, pm, pd + 1)
        } else if pm < 12 {
            (py, pm + 1, 1)
        } else {
            (py + 1, 1, 1)
        };
        assert_eq!((y, m, d), expected, "days: {days}");
        prev = (y, m, d);
    }
}

#[test]
fn extreme_day_counts_give_valid_dates() {
    for days in [i64::MIN, i64::MIN / 86_400 - 1, i64::MAX / 86_400, i64::MAX - 719_468] {
        let (y, m, d) = civil_from_days(days);
        assert!((1..=12).contains(&m));
        assert!(d >= 1 && d <= days_in_month(y, m));
    }
}
