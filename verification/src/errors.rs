//! Error values of the library.
use vstd::prelude::*;

verus! {

/// The response body could not be parsed into a price.
#[derive(Debug, Clone, Copy, PartialEq, Eq)]
pub struct ParseError;

/// The configured UTC offset string could not be parsed.
#[derive(Debug, Clone, Copy, PartialEq, Eq)]
pub struct OffsetError;

impl ParseError {
    /// The message that describes this error.
    pub fn to_string(&self) -> (s: String)
        ensures
            s@ == "missing or malformed price data"@,
    {
        String::from_str("missing or malformed price data")
    }
}

impl OffsetError {
    /// The message that describes this error.
    pub fn to_string(&self) -> (s: String)
        ensures
            s@ == "invalid UTC offset (expected forms: UTC, UTC-6, UTC+5:30, -6, +05:30)"@,
    {
        String::from_str("invalid UTC offset (expected forms: UTC, UTC-6, UTC+5:30, -6, +05:30)")
    }
}

} // verus!
