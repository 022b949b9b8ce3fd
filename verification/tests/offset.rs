use price::{parse_utc_offset, OffsetError};

#[test]
fn unicode_whitespace_around_the_offset_is_trimmed() {
    assert_eq!(parse_utc_offset("\u{3000}UTC-6\u{2003}\t"), Ok(-21_600));
    assert_eq!(parse_utc_offset("\u{a0}+5:30\n"), Ok(19_800));
}

#[test]
fn mixed_case_prefix() {
    assert_eq!(parse_utc_offset("uTc+05:30"), Ok(19_800));
    assert_eq!(parse_utc_offset("Utc"), Ok(0));
}

#[test]
fn largest_offsets() {
    assert_eq!(parse_utc_offset("+14:59"), Ok(53_940));
    assert_eq!(parse_utc_offset("UTC-14:59"), Ok(-53_940));
    assert_eq!(parse_utc_offset("UTC+15:00"), Err(OffsetError));
}

#[test]
fn leading_zeros_and_single_minute_digits() {
    assert_eq!(parse_utc_offset("+000000000000000000000005"), Ok(18_000));
    assert_eq!(parse_utc_offset("-0"), Ok(0));
    assert_eq!(parse_utc_offset("+5:3"), Ok(18_180));
    assert_eq!(parse_utc_offset("+5:07"), Ok(18_420));
}

#[test]
fn opposite_signs_give_opposite_offsets() {
    for digits in ["0", "6", "5:30", "14:59", "15", "1:60", "x"] {
        let plus = parse_utc_offset(&format!("+{digits}"));
        let minus = parse_utc_offset(&format!("-{digits}"));
        assert_eq!(minus, plus.map(|v| -v), "{digits}");
    }
}

#[test]
fn more_malformed_offsets() {
    for bad in [
        "UTC+",
        "UTC:",
        "UTC-6:",
        "UTC- 6",
        "UTC -6",
        "UTC-99999999999",
        "UTC+1:2:3",
        "UTC+:30",
        "ÜTC-6",
        "UTC+٣",
        "utcutc+1",
    ] {
        assert_eq!(parse_utc_offset(bad), Err(OffsetError), "spec: {bad:?}");
    }
}

#[test]
fn texts_that_split_a_character_at_byte_three_are_errors() {
    for bad in ["ab€", "a€", "  x\u{e9}+1 ", "UT\u{e9}+1"] {
        assert_eq!(parse_utc_offset(bad), Err(OffsetError), "spec: {bad:?}");
    }
}
