//! Decimal digits as text.

use vstd::prelude::*;
use vstd::string::*;

verus! {

/// `c` is one of the ten decimal digits.
pub open spec fn is_digit(c: char) -> bool {
    '0' <= c && c <= '9'
}

/// Every character of `s` is a decimal digit.
pub open spec fn all_digits(s: Seq<char>) -> bool {
    forall|i: int| 0 <= i < s.len() ==> is_digit(#[trigger] s[i])
}

/// The number that a digit stands for.
pub open spec fn digit_value(c: char) -> int {
    c as u32 as int - 48
}

/// The digit that stands for a number below ten.
pub open spec fn digit_char(v: int) -> char {
    if v == 0 {
        '0'
    } else if v == 1 {
        '1'
    } else if v == 2 {
        '2'
    } else if v == 3 {
        '3'
    } else if v == 4 {
        '4'
    } else if v == 5 {
        '5'
    } else if v == 6 {
        '6'
    } else if v == 7 {
        '7'
    } else if v == 8 {
        '8'
    } else {
        '9'
    }
}

/// The number that a string of digits denotes; leading zeros are of no
/// account, and the empty string denotes zero.
pub open spec fn digits_value(s: Seq<char>) -> int
    decreases s.len(),
{
    if s.len() == 0 {
        0
    } else {
        10 * digits_value(s.drop_last()) + digit_value(s.last())
    }
}

/// A natural number in decimal digits, without leading zeros.
pub open spec fn nat_text(v: int) -> Seq<char>
    decreases v,
{
    if v < 10 {
        seq![digit_char(v)]
    } else {
        nat_text(v / 10).push(digit_char(v % 10))
    }
}

/// An integer in decimal digits, with a minus sign in front if it is
/// negative.
pub open spec fn int_text(v: int) -> Seq<char> {
    if v < 0 {
        seq!['-'] + nat_text(-v)
    } else {
        nat_text(v)
    }
}

/// A digit and its number stand for each other.
pub proof fn lemma_digit_char(v: int)
    requires
        0 <= v <= 9,
    ensures
        is_digit(digit_char(v)),
        digit_value(digit_char(v)) == v,
{
}

/// The text of a number is made of digits, is not empty, and denotes the
/// number.
pub proof fn lemma_nat_text(v: int)
    requires
        v >= 0,
    ensures
        nat_text(v).len() >= 1,
        all_digits(nat_text(v)),
        digits_value(nat_text(v)) == v,
    decreases v,
{
    if v < 10 {
        lemma_digit_char(v);
        let s = nat_text(v);
        assert(s.drop_last() =~= Seq::<char>::empty());
        assert(digits_value(s.drop_last()) == 0);
    } else {
        lemma_nat_text(v / 10);
        lemma_digit_char(v % 10);
        let s = nat_text(v);
        assert(s.drop_last() =~= nat_text(v / 10));
        assert(s.last() == digit_char(v % 10));
    }
}

/// The one-character text of a digit.
fn digit_str(v: u64) -> (s: &'static str)
    requires
        v <= 9,
    ensures
        s@ == seq![digit_char(v as int)],
{
    proof {
        reveal_strlit("0");
        reveal_strlit("1");
        reveal_strlit("2");
        reveal_strlit("3");
        reveal_strlit("4");
        reveal_strlit("5");
        reveal_strlit("6");
        reveal_strlit("7");
        reveal_strlit("8");
        reveal_strlit("9");
    }
    let s = if v == 0 {
        "0"
    } else if v == 1 {
        "1"
    } else if v == 2 {
        "2"
    } else if v == 3 {
        "3"
    } else if v == 4 {
        "4"
    } else if v == 5 {
        "5"
    } else if v == 6 {
        "6"
    } else if v == 7 {
        "7"
    } else if v == 8 {
        "8"
    } else {
        "9"
    };
    assert(s@ =~= seq![digit_char(v as int)]);
    s
}

/// Appends one digit to `out`.
pub(crate) fn push_digit(out: &mut String, v: u64)
    requires
        v <= 9,
    ensures
        final(out)@ == old(out)@.push(digit_char(v as int)),
{
    out.append(digit_str(v));
    assert(out@ =~= old(out)@.push(digit_char(v as int)));
}

/// Appends the decimal text of `v` to `out`.
pub(crate) fn push_nat(out: &mut String, v: u64)
    ensures
        final(out)@ == old(out)@ + nat_text(v as int),
    decreases v,
{
    if v >= 10 {
        push_nat(out, v / 10);
    }
    push_digit(out, v % 10);
    assert(out@ =~= old(out)@ + nat_text(v as int));
}

/// The character at position `i` of a text without characters beyond ASCII.
pub(crate) fn char_at(text: &str, i: usize) -> (c: char)
    requires
        text.is_ascii(),
        i < text@.len(),
    ensures
        c == text@[i as int],
{
    let b = text.get_ascii(i);
    b as char
}

} // verus!
