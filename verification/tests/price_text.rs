use price::format_whole_dollars;

#[test]
fn groups_thousands() {
    assert_eq!(format_whole_dollars(false, "67432"), "$67,432");
    assert_eq!(format_whole_dollars(false, "81280"), "$81,280");
    assert_eq!(format_whole_dollars(false, "999"), "$999");
    assert_eq!(format_whole_dollars(false, "42"), "$42");
    assert_eq!(format_whole_dollars(false, "1000000"), "$1,000,000");
    assert_eq!(format_whole_dollars(false, "12345679"), "$12,345,679");
    assert_eq!(format_whole_dollars(false, "1234"), "$1,234");
    assert_eq!(format_whole_dollars(false, "0"), "$0");
}

#[test]
fn negative_amounts_carry_the_sign_after_the_dollar() {
    assert_eq!(format_whole_dollars(true, "5"), "$-5");
    assert_eq!(format_whole_dollars(true, "1234567"), "$-1,234,567");
}

#[test]
fn non_digit_texts_are_grouped_by_bytes() {
    assert_eq!(format_whole_dollars(false, ""), "$");
    assert_eq!(format_whole_dollars(false, "NaN"), "$NaN");
    assert_eq!(format_whole_dollars(false, "inf"), "$inf");
    assert_eq!(format_whole_dollars(false, "é1234"), "$é12,34");
}

#[test]
fn separators_are_the_only_additions() {
    for n in [1u64, 12, 123, 1_234, 12_345, 123_456, 1_234_567, u64::MAX] {
        let digits = n.to_string();
        let text = format_whole_dollars(false, &digits);
        assert_eq!(text.replace(',', ""), format!("${digits}"));
        assert_eq!(text.len(), 1 + digits.len() + (digits.len() - 1) / 3);
    }
}
