//! The ways in which a conversion can fail.

use vstd::prelude::*;

verus! {

/// Why a text could not be converted.
#[derive(Clone, Copy, Debug, PartialEq, Eq, Structural)]
pub enum ConvertError {
    /// The text is not written in the notation that was asked for.
    Format,
    /// A number in the text, or one computed from it, is too large.
    Overflow,
    /// The denominator of a fraction is zero.
    DivideByZero,
}

/// The outcome of a conversion with the text that it gave in place of the
/// string.
pub open spec fn text_of(r: Result<String, ConvertError>) -> Result<Seq<char>, ConvertError> {
    match r {
        Ok(s) => Ok(s@),
        Err(e) => Err(e),
    }
}

impl ConvertError {
    /// A sentence for the user.
    pub fn message(&self) -> (text: &'static str)
        ensures
            text@ == match *self {
                ConvertError::Format => "Error: Invalid format."@,
                ConvertError::Overflow => "Error: Number too large."@,
                ConvertError::DivideByZero => "Error: Divide by zero."@,
            },
    {
        match self {
            ConvertError::Format => "Error: Invalid format.",
            ConvertError::Overflow => "Error: Number too large.",
            ConvertError::DivideByZero => "Error: Divide by zero.",
        }
    }
}

} // verus!
