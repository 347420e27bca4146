use vstd::prelude::*;

mod digits;
mod error;
mod format;
mod format_custom;
mod laws;
mod builder;
mod parse;
mod parse_constant;
mod parse_exact;
mod text;
mod time_span;

pub use error::TimeSpanError;
pub use builder::TimeSpanBuilder;
pub use parse_exact::TimeSpanStyles;
pub use time_span::TimeSpan;

verus! {
}
