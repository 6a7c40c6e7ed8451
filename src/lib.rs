//! Parsing of the HTTP `Range` request header (byte ranges only) and the
//! byte offsets that each requested range covers in a resource.
//!
//! - `checkers`: the character classes that header grammars use.
//! - `range`: `RangeSpec`, its bounds against a resource length, the `Range`
//!   collection, and the `Accept-Ranges` / `Content-Range` header values.
//! - `parse`: the `Range` grammar as spec functions, the parser proved to
//!   follow it, and the laws it obeys.

pub mod checkers;
pub mod parse;
pub mod range;

pub use checkers::{is_digit, is_valid_token, is_whitespace};
pub use parse::{parse_range, ParseError, ParseErrorKind};
pub use range::{AcceptRanges, ContentRange, IntoCollection, Range, RangeSpec};
