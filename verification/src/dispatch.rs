//! One line of input: a fraction where it holds a slash, else a decimal.

use vstd::prelude::*;
use vstd::string::*;
use crate::decimal::{
    decimal_conversion, decimal_literal, decimal_to_fraction, lemma_literal_is_ascii,
};
use crate::error::{text_of, ConvertError};
use crate::fraction::{
    fraction_conversion, fraction_literal, fraction_to_decimal, lemma_fraction_is_ascii,
};
use crate::notation::char_at;

verus! {

/// What `convert_line` gives for the line `t`: a line with a slash in it is
/// read as a fraction and written as a decimal; any other line is read as a
/// decimal and written as a fraction.
pub open spec fn line_conversion(t: Seq<char>) -> Result<Seq<char>, ConvertError> {
    if t.contains('/') {
        fraction_conversion(t)
    } else {
        decimal_conversion(t)
    }
}

/// Whether a slash stands in `line`.
fn has_slash(line: &str) -> (found: bool)
    requires
        line.is_ascii(),
    ensures
        found == line@.contains('/'),
{
    let len = line.unicode_len();
    let mut i: usize = 0;
    while i < len
        invariant
            line.is_ascii(),
            len == line@.len(),
            i <= len,
            forall|j: int| 0 <= j < i ==> line@[j] != '/',
        decreases len - i,
    {
        if char_at(line, i) == '/' {
            return true;
        }
        i += 1;
    }
    false
}

/// Converts one line of input to the other notation.
pub fn convert_line(line: &str) -> (r: Result<String, ConvertError>)
    ensures
        text_of(r) == line_conversion(line@),
{
    if !line.is_ascii() {
        proof {
            if decimal_literal(line@) is Some {
                lemma_literal_is_ascii(line@);
            }
            if fraction_literal(line@) is Some {
                lemma_fraction_is_ascii(line@);
            }
        }
        return Err(ConvertError::Format);
    }
    if has_slash(line) {
        fraction_to_decimal(line)
    } else {
        decimal_to_fraction(line)
    }
}

} // verus!
