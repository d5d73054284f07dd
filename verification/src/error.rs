//! The faults of an input.

use vstd::prelude::*;

verus! {

/// Why an input was turned down.
#[derive(Clone, Copy, Debug, PartialEq, Eq, Structural)]
pub enum InvalidInput {
    /// A character that is neither a bit nor a separator.
    Symbol,
    /// No generator holds a coefficient.
    NoGenerators,
    /// The input sequence holds no bit.
    EmptyInput,
    /// The received sequence is not as long as the transmitted one.
    LengthMismatch,
}

impl InvalidInput {
    /// The message for the user.
    pub fn message(&self) -> (text: &'static str)
        ensures
            text@ == (match *self {
                InvalidInput::Symbol => "Invalid input, must be 0 or 1"@,
                InvalidInput::NoGenerators => "No generators"@,
                InvalidInput::EmptyInput => "No input bits"@,
                InvalidInput::LengthMismatch => "Transmitted and received bits have different lengths"@,
            }),
    {
        match self {
            InvalidInput::Symbol => "Invalid input, must be 0 or 1",
            InvalidInput::NoGenerators => "No generators",
            InvalidInput::EmptyInput => "No input bits",
            InvalidInput::LengthMismatch => "Transmitted and received bits have different lengths",
        }
    }
}

} // verus!
