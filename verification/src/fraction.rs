//! Fractions as text, `numerator/denominator`, and their decimal expansion.

use vstd::prelude::*;
use vstd::string::*;
use vstd::utf8::is_ascii_chars;
use crate::cycle::{
    cycle_of, digit_at, find_cyclic, lemma_division_step, lemma_remainder_range, magnitude,
    magnitude_of, remainder_at, terminates,
};
use crate::decimal::{digits_end, lemma_digits_end, number_of, scan_digits, scan_sign, sign_len};
use crate::error::{text_of, ConvertError};
use crate::notation::{char_at, digit_char, digits_value, is_digit, nat_text, push_digit, push_nat};

verus! {

/// Reads a signed integer that starts at `from`: an optional sign and one
/// digit or more. Gives the integer and the position behind it.
pub open spec fn signed_number(t: Seq<char>, from: int) -> Option<(int, int)> {
    let a = from + sign_len(t, from);
    let b = digits_end(t, a);
    if b > a {
        let v = digits_value(t.subrange(a, b));
        Some((if a > from && t[from] == '-' { -v } else { v }, b))
    } else {
        None
    }
}

/// Reads `t` as a fraction: a signed integer, a slash, a signed integer, and
/// nothing else. `None` where `t` is not written so.
pub open spec fn fraction_literal(t: Seq<char>) -> Option<(int, int)> {
    match signed_number(t, 0) {
        Some((num, b)) => if b < t.len() && t[b] == '/' {
            match signed_number(t, b + 1) {
                Some((den, e)) => if e == t.len() {
                    Some((num, den))
                } else {
                    None
                },
                None => None,
            }
        } else {
            None
        },
        None => None,
    }
}

/// `v` is a 32-bit integer.
pub open spec fn fits_i32(v: int) -> bool {
    i32::MIN <= v <= i32::MAX
}

/// The value `num / den` is below zero.
pub open spec fn is_negative(num: int, den: int) -> bool {
    (num < 0 && den > 0) || (num > 0 && den < 0)
}

/// The position of the first remainder of `n / d` that is zero: the number
/// of fractional digits of a finite expansion.
pub open spec fn expansion_len(n: int, d: int) -> nat {
    choose|k: nat| is_expansion_len(n, d, k)
}

/// The remainder at `k` is the first that is zero.
pub open spec fn is_expansion_len(n: int, d: int, k: nat) -> bool {
    remainder_at(n, d, k) == 0 && forall|j: nat| j < k ==> remainder_at(n, d, j) != 0
}

/// The `count` fractional digits of `n / d` from position `from` on.
pub open spec fn digits_text(n: int, d: int, from: nat, count: nat) -> Seq<char> {
    Seq::new(count, |i: int| digit_char(digit_at(n, d, (from + i) as nat)))
}

/// The decimal text of `num / den`: a minus sign where the value is below
/// zero, the integer part, and the fractional digits behind a point. A
/// finite expansion is written out, without a point where there is no
/// fractional digit. Of an expansion without end the digits in front of the
/// repeating block are written once, the block three times, and three dots
/// close the text.
pub open spec fn decimal_text(num: int, den: int) -> Seq<char> {
    let n = magnitude(num);
    let d = magnitude(den);
    let sign = if is_negative(num, den) {
        seq!['-']
    } else {
        Seq::<char>::empty()
    };
    let head = sign + nat_text(n / d);
    match cycle_of(n, d) {
        Some((start, length)) => {
            let block = digits_text(n, d, start, length);
            head + seq!['.'] + digits_text(n, d, 0, start) + block + block + block + seq![
                '.',
                '.',
                '.',
            ]
        },
        None => {
            let m = expansion_len(n, d);
            if m == 0 {
                head
            } else {
                head + seq!['.'] + digits_text(n, d, 0, m)
            }
        },
    }
}

/// Only one remainder is the first that is zero.
pub proof fn lemma_expansion_len(n: int, d: int, k: nat)
    requires
        is_expansion_len(n, d, k),
    ensures
        expansion_len(n, d) == k,
{
    let m = expansion_len(n, d);
    assert(is_expansion_len(n, d, m));
    if m < k {
        assert(remainder_at(n, d, m) != 0);
    } else if k < m {
        assert(remainder_at(n, d, k) != 0);
    }
}

/// Appends `count` fractional digits of `n / d`, from position `from` on,
/// and gives the remainder behind them.
fn push_digits(
    out: &mut String,
    n: u64,
    d: u64,
    remainder: u64,
    from: usize,
    count: usize,
) -> (next: u64)
    requires
        0 < d <= 0x8000_0000,
        remainder == remainder_at(n as int, d as int, from as nat),
        from + count <= usize::MAX,
    ensures
        final(out)@ == old(out)@ + digits_text(n as int, d as int, from as nat, count as nat),
        next == remainder_at(n as int, d as int, (from + count) as nat),
{
    let mut r = remainder;
    let mut i: usize = 0;
    assert(out@ =~= old(out)@ + digits_text(n as int, d as int, from as nat, 0));
    while i < count
        invariant
            0 < d <= 0x8000_0000,
            i <= count,
            from + count <= usize::MAX,
            r == remainder_at(n as int, d as int, (from + i) as nat),
            out@ == old(out)@ + digits_text(n as int, d as int, from as nat, i as nat),
        decreases count - i,
    {
        proof {
            lemma_division_step(n as int, d as int, (from + i) as nat);
            lemma_remainder_range(n as int, d as int, (from + i) as nat);
        }
        push_digit(out, r * 10 / d);
        r = r * 10 % d;
        i += 1;
        assert(out@ =~= old(out)@ + digits_text(n as int, d as int, from as nat, i as nat));
    }
    r
}

/// Appends the fractional digits of a finite expansion of `n / d`.
fn push_finite_digits(out: &mut String, n: u64, d: u64)
    requires
        0 < d <= 0x8000_0000,
        terminates(n as int, d as int),
    ensures
        final(out)@ == old(out)@ + digits_text(
            n as int,
            d as int,
            0,
            expansion_len(n as int, d as int),
        ),
{
    let mut r = n % d;
    let ghost mut k: nat = 0;
    let ghost end = choose|k: nat| remainder_at(n as int, d as int, k) == 0;
    assert(out@ =~= old(out)@ + digits_text(n as int, d as int, 0, 0));
    while r != 0
        invariant
            0 < d <= 0x8000_0000,
            r == remainder_at(n as int, d as int, k),
            remainder_at(n as int, d as int, end) == 0,
            forall|j: nat| j < k ==> remainder_at(n as int, d as int, j) != 0,
            k <= end,
            out@ == old(out)@ + digits_text(n as int, d as int, 0, k),
        decreases end - k,
    {
        proof {
            lemma_division_step(n as int, d as int, k);
            lemma_remainder_range(n as int, d as int, k);
        }
        push_digit(out, r * 10 / d);
        r = r * 10 % d;
        proof {
            k = k + 1;
            if end < k {
                assert(remainder_at(n as int, d as int, end) != 0);
            }
        }
        assert(out@ =~= old(out)@ + digits_text(n as int, d as int, 0, k));
    }
    proof {
        lemma_expansion_len(n as int, d as int, k);
    }
}

/// Writes `numerator / denominator` in decimal digits: a finite expansion in
/// full, one without end up to the third turn of its repeating block, with
/// three dots behind it.
pub fn format_decimal(numerator: i32, denominator: i32) -> (text: String)
    requires
        denominator != 0,
    ensures
        text@ == decimal_text(numerator as int, denominator as int),
{
    let cycle = find_cyclic(numerator, denominator);
    let n = magnitude_of(numerator);
    let d = magnitude_of(denominator);
    let mut out = String::new();
    proof {
        reveal_strlit("-");
        reveal_strlit(".");
        reveal_strlit("...");
    }
    if (numerator < 0 && denominator > 0) || (numerator > 0 && denominator < 0) {
        out.append("-");
    }
    push_nat(&mut out, n / d);
    let ghost head = out@;
    match cycle {
        Some((start, length)) => {
            out.append(".");
            let r = push_digits(&mut out, n, d, n % d, 0, start);
            push_digits(&mut out, n, d, r, start, length);
            push_digits(&mut out, n, d, r, start, length);
            push_digits(&mut out, n, d, r, start, length);
            out.append("...");
            proof {
                let block = digits_text(n as int, d as int, start as nat, length as nat);
                assert("-"@ =~= seq!['-']);
                assert("."@ =~= seq!['.']);
                assert("..."@ =~= seq!['.', '.', '.']);
                assert(out@ =~= head + seq!['.'] + digits_text(n as int, d as int, 0, start as nat)
                    + block + block + block + seq!['.', '.', '.']);
            }
        },
        None => {
            if n % d != 0 {
                out.append(".");
                push_finite_digits(&mut out, n, d);
                proof {
                    let k = choose|k: nat| remainder_at(n as int, d as int, k) == 0;
                    lemma_first_zero_exists(n as int, d as int, k);
                    assert("."@ =~= seq!['.']);
                }
            } else {
                proof {
                    lemma_expansion_len(n as int, d as int, 0);
                }
            }
        },
    }
    out
}

/// Where a remainder is zero, one is the first that is zero.
pub proof fn lemma_first_zero_exists(n: int, d: int, k: nat)
    requires
        remainder_at(n, d, k) == 0,
    ensures
        is_expansion_len(n, d, expansion_len(n, d)),
        expansion_len(n, d) <= k,
    decreases k,
{
    if exists|j: nat| j < k && remainder_at(n, d, j) == 0 {
        let j = choose|j: nat| j < k && remainder_at(n, d, j) == 0;
        lemma_first_zero_exists(n, d, j);
    } else {
        assert(is_expansion_len(n, d, k));
        lemma_expansion_len(n, d, k);
    }
}

/// A text that is a fraction holds no character beyond ASCII.
pub proof fn lemma_fraction_is_ascii(t: Seq<char>)
    requires
        fraction_literal(t) is Some,
    ensures
        is_ascii_chars(t),
{
    let a = sign_len(t, 0);
    let b = digits_end(t, a);
    lemma_digits_end(t, a);
    let c = b + 1 + sign_len(t, b + 1);
    let e = digits_end(t, c);
    lemma_digits_end(t, c);
    assert forall|i: int| 0 <= i < t.len() implies '\0' <= #[trigger] t[i] <= '\u{7f}' by {
        if i < a {
        } else if i < b {
            assert(is_digit(t[i]));
        } else if i < c {
        } else {
            assert(is_digit(t[i]));
        }
    }
}

/// The integer that the digits from `from` up to `to` denote, negated where
/// `negative` is set, or `None` where it is no 32-bit integer.
fn signed_value(text: &str, negative: bool, from: usize, to: usize) -> (r: Option<i32>)
    requires
        text.is_ascii(),
        from <= to <= text@.len(),
        forall|i: int| from <= i < to ==> is_digit(#[trigger] text@[i]),
    ensures
        match r {
            Some(v) => v == (if negative {
                -digits_value(text@.subrange(from as int, to as int))
            } else {
                digits_value(text@.subrange(from as int, to as int))
            }),
            None => !fits_i32(
                if negative {
                    -digits_value(text@.subrange(from as int, to as int))
                } else {
                    digits_value(text@.subrange(from as int, to as int))
                },
            ),
        },
{
    match number_of(text, from, to) {
        Some(v) => {
            if negative {
                if v <= 0x8000_0000 {
                    Some((-(v as i64)) as i32)
                } else {
                    None
                }
            } else {
                if v <= 0x7fff_ffff {
                    Some(v as i32)
                } else {
                    None
                }
            }
        },
        None => None,
    }
}

/// Reads a fraction: its numerator and its denominator.
///
/// Fails with `Format` where the text is not a fraction, and with
/// `Overflow` where it is one and its numerator or denominator is no 32-bit
/// integer.
pub fn parse_fraction(text: &str) -> (r: Result<(i32, i32), ConvertError>)
    ensures
        match r {
            Ok((num, den)) => fraction_literal(text@) == Some((num as int, den as int)),
            Err(ConvertError::Format) => fraction_literal(text@) is None,
            Err(ConvertError::Overflow) => fraction_literal(text@) matches Some((num, den)) && !(
            fits_i32(num) && fits_i32(den)),
            Err(ConvertError::DivideByZero) => false,
        },
{
    if !text.is_ascii() {
        proof {
            if fraction_literal(text@) is Some {
                lemma_fraction_is_ascii(text@);
            }
        }
        return Err(ConvertError::Format);
    }
    let len = text.unicode_len();
    let a = scan_sign(text, len, 0);
    let b = scan_digits(text, len, a);
    if !(b > a && b < len && char_at(text, b) == '/') {
        return Err(ConvertError::Format);
    }
    let c = b + 1 + scan_sign(text, len, b + 1);
    let e = scan_digits(text, len, c);
    if !(e > c && e == len) {
        return Err(ConvertError::Format);
    }
    let num = signed_value(text, a == 1 && char_at(text, 0) == '-', a, b);
    let den = signed_value(text, c > b + 1 && char_at(text, b + 1) == '-', c, e);
    match (num, den) {
        (Some(n), Some(d)) => Ok((n, d)),
        _ => Err(ConvertError::Overflow),
    }
}

/// What `fraction_to_decimal` gives for the text `t`: the decimal text of
/// the fraction; `Format` where `t` is no fraction, `Overflow` where its
/// numerator or denominator is no 32-bit integer, and `DivideByZero` where
/// the denominator is zero.
pub open spec fn fraction_conversion(t: Seq<char>) -> Result<Seq<char>, ConvertError> {
    match fraction_literal(t) {
        None => Err(ConvertError::Format),
        Some((num, den)) => if !(fits_i32(num) && fits_i32(den)) {
            Err(ConvertError::Overflow)
        } else if den == 0 {
            Err(ConvertError::DivideByZero)
        } else {
            Ok(decimal_text(num, den))
        },
    }
}

/// Converts a fraction, written as `numerator/denominator`, to its decimal
/// text.
pub fn fraction_to_decimal(text: &str) -> (r: Result<String, ConvertError>)
    ensures
        text_of(r) == fraction_conversion(text@),
{
    match parse_fraction(text) {
        Ok((num, den)) => {
            if den == 0 {
                Err(ConvertError::DivideByZero)
            } else {
                Ok(format_decimal(num, den))
            }
        },
        Err(e) => Err(e),
    }
}

} // verus!
