//! Exact conversion between two ways of writing a number: as a decimal, whose
//! last digits may repeat without end, and as a fraction in lowest terms.
//!
//! A decimal is written `[sign] digits [. digits] [~ digits]`; the digits
//! behind `~` are the repeating block, so `0.1~6` is one sixth and `0.~9` is
//! one. A fraction is written `numerator/denominator`, each with an optional
//! sign.
//!
//! From decimal to fraction the numbers of the text are held in 64 bits and
//! the result in 128: a text whose digits in front of the repeating block,
//! read as one number, or whose denominator before reduction is above
//! `2^63 - 1` is refused as too large. From fraction to decimal, numerator
//! and denominator are 32-bit integers, and the digits come from long
//! division, so they are exact however many there are.

pub mod arith;
pub mod cycle;
pub mod decimal;
pub mod dispatch;
pub mod error;
pub mod fraction;
pub mod laws;
pub mod notation;
pub mod rational;

pub use crate::cycle::find_cyclic;
pub use crate::decimal::{decimal_to_fraction, parse_decimal};
pub use crate::dispatch::convert_line;
pub use crate::error::ConvertError;
pub use crate::fraction::{format_decimal, fraction_to_decimal};
pub use crate::rational::Rational;
