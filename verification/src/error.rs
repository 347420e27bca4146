use vstd::prelude::*;

verus! {

/// Ways in which building, combining, parsing or formatting a `TimeSpan` can fail.
#[derive(Debug, Clone, Copy, PartialEq, Eq, Structural)]
pub enum TimeSpanError {
    /// The result falls outside the range a `TimeSpan` can represent.
    Overflow,
    /// A floating-point argument was NaN.
    NotANumber,
    /// A text or a format string did not have the required shape.
    InvalidFormat,
    /// A destination buffer was too short for the formatted text.
    InsufficientBuffer,
}

/// The description of each error.
pub open spec fn error_message(e: TimeSpanError) -> Seq<char> {
    match e {
        TimeSpanError::Overflow => "TimeSpan overflowed its representable range"@,
        TimeSpanError::NotANumber => "value must not be NaN"@,
        TimeSpanError::InvalidFormat => "invalid TimeSpan format"@,
        TimeSpanError::InsufficientBuffer => "destination buffer is too small"@,
    }
}

impl TimeSpanError {
    /// A short human-readable description of the error.
    pub fn message(&self) -> (r: &'static str)
        ensures
            r@ == error_message(*self),
    {
        match self {
            TimeSpanError::Overflow => "TimeSpan overflowed its representable range",
            TimeSpanError::NotANumber => "value must not be NaN",
            TimeSpanError::InvalidFormat => "invalid TimeSpan format",
            TimeSpanError::InsufficientBuffer => "destination buffer is too small",
        }
    }

    /// The description of the error as an owned string.
    pub fn to_string(&self) -> (r: String)
        ensures
            r@ == error_message(*self),
    {
        self.message().to_owned()
    }
}

} // verus!
