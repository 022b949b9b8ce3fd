//! Price ticker logic: the displayed price text, `dd-MMM-yyyy HH:mm`
//! timestamps in a configured UTC offset, and the decisions of the ticker
//! screen (what each state shows, where, and when the panel is refreshed).
use vstd::prelude::*;

pub mod calendar;
pub mod decimal;
pub mod errors;
pub mod layout;
pub mod offset;
pub mod price_text;
pub mod text;
pub mod ticker;
pub mod timestamp;

pub use calendar::civil_from_days;
pub use errors::{OffsetError, ParseError};
pub use offset::parse_utc_offset;
pub use price_text::format_whole_dollars;
pub use timestamp::format_timestamp;

verus! {

} // verus!
