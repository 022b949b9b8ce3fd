use price::{OffsetError, ParseError};

#[test]
fn error_messages() {
    assert_eq!(ParseError.to_string(), "missing or malformed price data");
    assert_eq!(
        OffsetError.to_string(),
        "invalid UTC offset (expected forms: UTC, UTC-6, UTC+5:30, -6, +05:30)"
    );
}
