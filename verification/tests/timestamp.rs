use price::format_timestamp;

#[test]
fn formats_year_zero_and_negative_years() {
    assert_eq!(format_timestamp(-719_528 * 86_400), "01-Jan-0000 00:00");
    assert_eq!(format_timestamp(-719_529 * 86_400 + 3_600), "31-Dec--001 01:00");
}

#[test]
fn formats_years_past_9999_without_truncation() {
    // 10000-01-01
    assert_eq!(format_timestamp(253_402_300_800), "01-Jan-10000 00:00");
}

#[test]
fn formats_the_extremes_of_i64() {
    let low = format_timestamp(i64::MIN);
    let high = format_timestamp(i64::MAX);
    assert!(low.len() <= 26 && high.len() <= 26);
    assert!(low.is_ascii() && high.is_ascii());
    assert!(high.ends_with(" 15:30"), "{high}");
}

#[test]
fn shape_is_fixed_for_four_digit_years() {
    for epoch in (0..4_000_000_000i64).step_by(97_531_111) {
        let s = format_timestamp(epoch);
        let b = s.as_bytes();
        assert_eq!(s.len(), 17);
        assert_eq!((b[2], b[6], b[11], b[14]), (b'-', b'-', b' ', b':'));
    }
}
