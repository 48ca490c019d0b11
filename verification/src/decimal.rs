//! Decimal literals: `[sign] digits [. digits] [~ digits]`, where the digits
//! behind `~` repeat without end.

use vstd::prelude::*;
use vstd::string::*;
use vstd::utf8::is_ascii_chars;
use vstd::arithmetic::power::{pow, lemma_pow_increases, lemma_pow_positive};
use crate::arith::{lemma_lowest_terms, lemma_lowest_terms_are_least, lowest_terms, same_value};
use crate::error::{text_of, ConvertError};
use crate::notation::{all_digits, char_at, digits_value, is_digit};
use crate::rational::{fraction_text, sum_fits, Rational};

verus! {

/// A run of digits as a number: what it denotes and how many digits it has,
/// so that leading zeros are not lost.
pub struct Digits {
    pub value: int,
    pub count: nat,
}

/// What a decimal literal says.
pub struct Literal {
    /// The literal starts with a minus sign.
    pub negative: bool,
    /// The digits before the point.
    pub integer: int,
    /// The digits behind the point that do not repeat, if there are any.
    pub fraction: Option<Digits>,
    /// The digits that repeat, if there are any.
    pub repeating: Option<Digits>,
}

/// One where a sign stands at position `from` of `t`, else zero.
pub open spec fn sign_len(t: Seq<char>, from: int) -> int {
    if 0 <= from < t.len() && (t[from] == '-' || t[from] == '+') {
        1
    } else {
        0
    }
}

/// The position behind the longest run of digits that starts at `from`.
pub open spec fn digits_end(t: Seq<char>, from: int) -> int
    decreases t.len() - from,
{
    if 0 <= from < t.len() && is_digit(t[from]) {
        digits_end(t, from + 1)
    } else {
        from
    }
}

/// The digits of `t` from `from` up to `to` as a number, if there are any.
pub open spec fn run_of(t: Seq<char>, from: int, to: int) -> Option<Digits> {
    if to > from {
        Some(Digits { value: digits_value(t.subrange(from, to)), count: (to - from) as nat })
    } else {
        None
    }
}

/// Reads `t` as a decimal literal: an optional sign, one digit or more, then
/// optionally a point and digits, then optionally `~` and one digit or more,
/// and nothing else. `None` where `t` is not written so.
pub open spec fn decimal_literal(t: Seq<char>) -> Option<Literal> {
    let a = sign_len(t, 0);
    let b = digits_end(t, a);
    let c = if b < t.len() && t[b] == '.' {
        b + 1
    } else {
        b
    };
    let e = digits_end(t, c);
    let f = if e < t.len() && t[e] == '~' {
        e + 1
    } else {
        e
    };
    let g = digits_end(t, f);
    if b > a && g == t.len() && (f > e ==> g > f) {
        Some(
            Literal {
                negative: a == 1 && t[0] == '-',
                integer: digits_value(t.subrange(a, b)),
                fraction: run_of(t, c, e),
                repeating: run_of(t, f, g),
            },
        )
    } else {
        None
    }
}

/// The largest number that the conversion to a fraction works with.
pub const LIMIT: u64 = 0x7fff_ffff_ffff_ffff;

/// A run of digits held in machine integers.
#[derive(Clone, Copy, Debug, PartialEq, Eq)]
pub struct DigitRun {
    /// The number that the digits denote.
    pub value: u64,
    /// How many digits there are.
    pub count: usize,
}

impl View for DigitRun {
    type V = Digits;

    open spec fn view(&self) -> Digits {
        Digits { value: self.value as int, count: self.count as nat }
    }
}

/// The view of a run that may be absent.
pub open spec fn run_view(run: Option<DigitRun>) -> Option<Digits> {
    match run {
        Some(r) => Some(r@),
        None => None,
    }
}

/// A decimal literal that was read from a text.
#[derive(Clone, Copy, Debug, PartialEq, Eq)]
pub struct DecimalLiteral {
    negative: bool,
    integer: u64,
    fraction: Option<DigitRun>,
    repeating: Option<DigitRun>,
}

impl View for DecimalLiteral {
    type V = Literal;

    closed spec fn view(&self) -> Literal {
        Literal {
            negative: self.negative,
            integer: self.integer as int,
            fraction: run_view(self.fraction),
            repeating: run_view(self.repeating),
        }
    }
}

impl Literal {
    /// The counts are those of digits that are there, and each value has no
    /// more digits than its count.
    pub open spec fn wf(self) -> bool {
        &&& self.integer >= 0
        &&& (self.fraction matches Some(r) ==> r.count >= 1 && 0 <= r.value < pow(10, r.count))
        &&& (self.repeating matches Some(r) ==> r.count >= 1 && 0 <= r.value < pow(10, r.count))
    }

    /// Ten to the number of digits that stand behind the point and do not
    /// repeat.
    pub open spec fn scale(self) -> int {
        match self.fraction {
            Some(r) => pow(10, r.count),
            None => 1,
        }
    }

    /// The digits in front of the repeating block, read as one number: with
    /// `scale` as its denominator it is the part that does not repeat.
    pub open spec fn shifted(self) -> int {
        match self.fraction {
            Some(r) => self.integer * pow(10, r.count) + r.value,
            None => self.integer,
        }
    }

    /// The absolute value as a fraction, not reduced. With `i` the integer
    /// part, `d` the `p` digits that do not repeat and `c` the `q` digits
    /// that do, it is `i + d / 10^p + c / ((10^q - 1) * 10^p)`.
    pub open spec fn magnitude(self) -> (int, int) {
        match self.repeating {
            None => (self.shifted(), self.scale()),
            Some(r) => (
                self.shifted() * (pow(10, r.count) - 1) + r.value,
                (pow(10, r.count) - 1) * self.scale(),
            ),
        }
    }

    /// The value as a fraction, not reduced: the magnitude, negated where
    /// the literal starts with a minus sign.
    pub open spec fn value(self) -> (int, int) {
        let m = self.magnitude();
        (
            if self.negative {
                -m.0
            } else {
                m.0
            },
            m.1,
        )
    }

    /// The conversion stays within its limits: the part that does not
    /// repeat, as one number, and the denominator of the value fit in 63
    /// bits.
    pub open spec fn convertible(self) -> bool {
        self.shifted() <= LIMIT && self.magnitude().1 <= LIMIT
    }

    /// Every number of the literal fits in 64 bits.
    pub open spec fn representable(self) -> bool {
        &&& self.integer <= u64::MAX
        &&& (self.fraction matches Some(r) ==> r.value <= u64::MAX)
        &&& (self.repeating matches Some(r) ==> r.value <= u64::MAX)
    }
}

/// The digits from a position up to `digits_end` are digits, and the run
/// ends within the text.
pub proof fn lemma_digits_end(t: Seq<char>, from: int)
    requires
        0 <= from <= t.len(),
    ensures
        from <= digits_end(t, from) <= t.len(),
        forall|i: int| from <= i < digits_end(t, from) ==> is_digit(#[trigger] t[i]),
        digits_end(t, from) < t.len() ==> !is_digit(t[digits_end(t, from)]),
    decreases t.len() - from,
{
    if from < t.len() && is_digit(t[from]) {
        lemma_digits_end(t, from + 1);
    }
}

/// Digits from `from` up to `to`, with no digit behind them, are the run
/// that starts at `from`.
pub proof fn lemma_digits_end_of_run(t: Seq<char>, from: int, to: int)
    requires
        0 <= from <= to <= t.len(),
        forall|i: int| from <= i < to ==> is_digit(#[trigger] t[i]),
        to < t.len() ==> !is_digit(t[to]),
    ensures
        digits_end(t, from) == to,
    decreases to - from,
{
    if from < to {
        assert(is_digit(t[from]));
        lemma_digits_end_of_run(t, from + 1, to);
    }
}

/// A text that is a decimal literal holds no character beyond ASCII.
pub proof fn lemma_literal_is_ascii(t: Seq<char>)
    requires
        decimal_literal(t) is Some,
    ensures
        is_ascii_chars(t),
{
    let a = sign_len(t, 0);
    let b = digits_end(t, a);
    lemma_digits_end(t, a);
    let c = if b < t.len() && t[b] == '.' {
        b + 1
    } else {
        b
    };
    let e = digits_end(t, c);
    lemma_digits_end(t, c);
    let f = if e < t.len() && t[e] == '~' {
        e + 1
    } else {
        e
    };
    lemma_digits_end(t, f);
    assert forall|i: int| 0 <= i < t.len() implies '\0' <= #[trigger] t[i] <= '\u{7f}' by {
        if i < a {
        } else if i < b {
            assert(is_digit(t[i]));
        } else if i < c {
        } else if i < e {
            assert(is_digit(t[i]));
        } else if i < f {
        } else {
            assert(is_digit(t[i]));
        }
    }
}

/// The number that digits denote is not negative.
pub proof fn lemma_digits_value_bounds(s: Seq<char>)
    requires
        all_digits(s),
    ensures
        0 <= digits_value(s),
    decreases s.len(),
{
    if s.len() > 0 {
        assert(is_digit(s.last()));
        lemma_digits_value_bounds(s.drop_last());
    }
}

/// Digits denote no less than any of their prefixes.
pub proof fn lemma_digits_value_prefix(s: Seq<char>, j: int)
    requires
        all_digits(s),
        0 <= j <= s.len(),
    ensures
        digits_value(s.subrange(0, j)) <= digits_value(s),
    decreases s.len(),
{
    if j == s.len() {
        assert(s.subrange(0, j) =~= s);
    } else {
        assert(is_digit(s.last()));
        lemma_digits_value_prefix(s.drop_last(), j);
        lemma_digits_value_bounds(s.drop_last());
        assert(s.drop_last().subrange(0, j) =~= s.subrange(0, j));
    }
}

/// Whether `c` is a decimal digit.
fn is_digit_char(c: char) -> (b: bool)
    ensures
        b == is_digit(c),
{
    '0' <= c && c <= '9'
}

/// The position behind the run of digits that starts at `from`.
pub(crate) fn scan_digits(text: &str, len: usize, from: usize) -> (end: usize)
    requires
        text.is_ascii(),
        len == text@.len(),
        from <= len,
    ensures
        end == digits_end(text@, from as int),
        from <= end <= len,
        forall|i: int| from <= i < end ==> is_digit(#[trigger] text@[i]),
{
    let mut i = from;
    while i < len && is_digit_char(char_at(text, i))
        invariant
            text.is_ascii(),
            len == text@.len(),
            from <= i <= len,
            digits_end(text@, from as int) == digits_end(text@, i as int),
            forall|j: int| from <= j < i ==> is_digit(#[trigger] text@[j]),
        decreases len - i,
    {
        i += 1;
    }
    i
}

/// The length of the sign at `from`: one or zero.
pub(crate) fn scan_sign(text: &str, len: usize, from: usize) -> (n: usize)
    requires
        text.is_ascii(),
        len == text@.len(),
        from <= len,
    ensures
        n == sign_len(text@, from as int),
{
    if from < len {
        let c = char_at(text, from);
        if c == '-' || c == '+' {
            return 1;
        }
    }
    0
}

/// The number that the digits from `from` up to `to` denote, or `None`
/// where it does not fit in 64 bits.
pub(crate) fn number_of(text: &str, from: usize, to: usize) -> (v: Option<u64>)
    requires
        text.is_ascii(),
        from <= to <= text@.len(),
        forall|i: int| from <= i < to ==> is_digit(#[trigger] text@[i]),
    ensures
        match v {
            Some(x) => x == digits_value(text@.subrange(from as int, to as int)),
            None => digits_value(text@.subrange(from as int, to as int)) > u64::MAX,
        },
{
    let mut v: u64 = 0;
    let mut i = from;
    assert(text@.subrange(from as int, from as int) =~= Seq::<char>::empty());
    while i < to
        invariant
            text.is_ascii(),
            from <= i <= to <= text@.len(),
            forall|j: int| from <= j < to ==> is_digit(#[trigger] text@[j]),
            v == digits_value(text@.subrange(from as int, i as int)),
        decreases to - i,
    {
        let c = char_at(text, i);
        let digit: u64 = (c as u32 - 48) as u64;
        let ghost longer = text@.subrange(from as int, i + 1);
        let ghost whole = text@.subrange(from as int, to as int);
        proof {
            assert(is_digit(text@[i as int]));
            assert(longer.drop_last() =~= text@.subrange(from as int, i as int));
            assert(longer.last() == c);
            assert(digits_value(longer) == 10 * v + digit);
            assert(whole.subrange(0, i + 1 - from) =~= longer);
            lemma_digits_value_prefix(whole, i + 1 - from);
        }
        let tenfold = match v.checked_mul(10) {
            Some(x) => x,
            None => { return None; },
        };
        v = match tenfold.checked_add(digit) {
            Some(x) => x,
            None => { return None; },
        };
        i += 1;
    }
    Some(v)
}

/// Digits denote a number below ten to their count.
pub proof fn lemma_digits_value_below_power(s: Seq<char>)
    requires
        all_digits(s),
    ensures
        0 <= digits_value(s) < pow(10, s.len()),
    decreases s.len(),
{
    reveal(pow);
    if s.len() > 0 {
        assert(is_digit(s.last()));
        lemma_digits_value_below_power(s.drop_last());
    }
}

/// The digits from `from` up to `to` as a run; the outer `None` where their
/// number does not fit in 64 bits.
fn read_run(text: &str, from: usize, to: usize) -> (r: Option<Option<DigitRun>>)
    requires
        text.is_ascii(),
        from <= to <= text@.len(),
        forall|i: int| from <= i < to ==> is_digit(#[trigger] text@[i]),
    ensures
        match r {
            Some(run) => run_view(run) == run_of(text@, from as int, to as int) && (
            run matches Some(d) ==> d.count >= 1 && d.value < pow(10, d.count as nat)),
            None => run_of(text@, from as int, to as int) matches Some(d) && d.value > u64::MAX,
        },
{
    if to > from {
        proof {
            lemma_digits_value_below_power(text@.subrange(from as int, to as int));
        }
        match number_of(text, from, to) {
            Some(value) => Some(Some(DigitRun { value, count: to - from })),
            None => None,
        }
    } else {
        Some(None)
    }
}

/// Reads a decimal literal.
///
/// Fails with `Format` where the text is not a decimal literal, and with
/// `Overflow` where it is one and a run of its digits denotes a number of
/// more than 64 bits.
pub fn parse_literal(text: &str) -> (r: Result<DecimalLiteral, ConvertError>)
    ensures
        match r {
            Ok(lit) => decimal_literal(text@) == Some(lit@) && lit@.wf(),
            Err(ConvertError::Format) => decimal_literal(text@) is None,
            Err(ConvertError::Overflow) => decimal_literal(text@) matches Some(s)
                && !s.representable(),
            Err(ConvertError::DivideByZero) => false,
        },
{
    if !text.is_ascii() {
        proof {
            if decimal_literal(text@) is Some {
                lemma_literal_is_ascii(text@);
            }
        }
        return Err(ConvertError::Format);
    }
    let len = text.unicode_len();
    let a = scan_sign(text, len, 0);
    let b = scan_digits(text, len, a);
    let c = if b < len && char_at(text, b) == '.' {
        b + 1
    } else {
        b
    };
    let e = scan_digits(text, len, c);
    let f = if e < len && char_at(text, e) == '~' {
        e + 1
    } else {
        e
    };
    let g = scan_digits(text, len, f);
    if !(b > a && g == len && (f == e || g > f)) {
        return Err(ConvertError::Format);
    }
    let negative = a == 1 && char_at(text, 0) == '-';
    let integer = match number_of(text, a, b) {
        Some(v) => v,
        None => { return Err(ConvertError::Overflow); },
    };
    let fraction = match read_run(text, c, e) {
        Some(run) => run,
        None => { return Err(ConvertError::Overflow); },
    };
    let repeating = match read_run(text, f, g) {
        Some(run) => run,
        None => { return Err(ConvertError::Overflow); },
    };
    proof {
        lemma_digits_value_bounds(text@.subrange(a as int, b as int));
    }
    Ok(DecimalLiteral { negative, integer, fraction, repeating })
}

/// Ten to the power `e`, or `None` where it is above `LIMIT`.
fn power_of_ten(e: usize) -> (r: Option<u64>)
    ensures
        match r {
            Some(v) => v == pow(10, e as nat) && v <= LIMIT,
            None => pow(10, e as nat) > LIMIT,
        },
{
    let mut v: u64 = 1;
    let mut i: usize = 0;
    proof {
        reveal(pow);
    }
    while i < e
        invariant
            i <= e,
            v == pow(10, i as nat),
            v <= LIMIT,
        decreases e - i,
    {
        proof {
            reveal(pow);
            assert(pow(10, (i + 1) as nat) == 10 * pow(10, i as nat));
            lemma_pow_increases(10, (i + 1) as nat, e as nat);
        }
        if v > LIMIT / 10 {
            return None;
        }
        v = v * 10;
        i += 1;
    }
    Some(v)
}

/// A power of ten above one is not one more than `LIMIT`.
proof fn lemma_power_of_ten_skips_limit(e: nat)
    requires
        e >= 1,
    ensures
        pow(10, e) != LIMIT + 1,
        pow(10, e) >= 10,
{
    reveal(pow);
    lemma_pow_positive(10, (e - 1) as nat);
    assert(pow(10, e) == 10 * pow(10, (e - 1) as nat));
}

/// The sum of two fractions takes the value of the literal: with `a` the
/// part that does not repeat and `b` the repeating part, what has the value
/// of `a + b` has the value `(top * nines + c) / (nines * scale)`.
proof fn lemma_sum_value(
    rn: int,
    rd: int,
    an: int,
    ad: int,
    bn: int,
    bd: int,
    top: int,
    scale: int,
    c: int,
    nines: int,
)
    requires
        ad > 0,
        bd > 0,
        same_value(rn, rd, an * bd + ad * bn, ad * bd),
        same_value(an, ad, top, scale),
        same_value(bn, bd, c, nines * scale),
    ensures
        same_value(rn, rd, top * nines + c, nines * scale),
{
    let x = an * bd + ad * bn;
    let y = ad * bd;
    let d = nines * scale;
    let t = top * nines + c;
    assert(an * bd * d == top * ad * bd * nines) by (nonlinear_arith)
        requires
            an * scale == top * ad,
            d == nines * scale,
    ;
    assert(ad * bn * d == ad * c * bd) by (nonlinear_arith)
        requires
            bn * d == c * bd,
    ;
    assert(x * d == an * bd * d + ad * bn * d) by (nonlinear_arith)
        requires
            x == an * bd + ad * bn,
    ;
    assert(t * y == top * ad * bd * nines + ad * c * bd) by (nonlinear_arith)
        requires
            y == ad * bd,
            t == top * nines + c,
    ;
    assert(x * d == t * y);
    assert((rn * d) * y == (t * rd) * y) by (nonlinear_arith)
        requires
            rn * y == x * rd,
            x * d == t * y,
    ;
    assert(y > 0) by (nonlinear_arith)
        requires
            y == ad * bd,
            ad > 0,
            bd > 0,
    ;
    assert(rn * d == t * rd) by (nonlinear_arith)
        requires
            (rn * d) * y == (t * rd) * y,
            y > 0,
    ;
}

impl DecimalLiteral {
    /// The literal starts with a minus sign.
    pub fn is_negative(&self) -> (b: bool)
        ensures
            b == self@.negative,
    {
        self.negative
    }

    /// The number before the point.
    pub fn integer(&self) -> (v: u64)
        ensures
            v == self@.integer,
    {
        self.integer
    }

    /// The digits behind the point that do not repeat.
    pub fn fraction(&self) -> (run: Option<DigitRun>)
        ensures
            run_view(run) == self@.fraction,
    {
        self.fraction
    }

    /// The digits that repeat.
    pub fn repeating(&self) -> (run: Option<DigitRun>)
        ensures
            run_view(run) == self@.repeating,
    {
        self.repeating
    }

    /// The value of the literal as a fraction in lowest terms.
    ///
    /// Fails with `Overflow` where the literal is not `convertible`.
    pub fn to_rational(&self) -> (r: Result<Rational, ConvertError>)
        requires
            self@.wf(),
        ensures
            match r {
                Ok(q) => self@.convertible() && q.wf() && q@ == lowest_terms(
                    self@.value().0,
                    self@.value().1,
                ),
                Err(ConvertError::Overflow) => !self@.convertible(),
                Err(_) => false,
            },
    {
        let ghost lit = self@;
        let scale: u64 = match self.fraction {
            Some(run) => match power_of_ten(run.count) {
                Some(v) => v,
                None => {
                    proof {
                        lemma_scale_within_denominator(lit);
                    }
                    return Err(ConvertError::Overflow);
                },
            },
            None => 1,
        };
        let digits: u64 = match self.fraction {
            Some(run) => run.value,
            None => 0,
        };
        assert(lit.shifted() == self.integer * scale + digits) by (nonlinear_arith)
            requires
                lit.shifted() == (if lit.fraction is Some {
                    self.integer * scale + digits
                } else {
                    self.integer as int
                }),
                lit.fraction is None ==> scale == 1 && digits == 0,
        ;
        let top: u64 = match self.integer.checked_mul(scale) {
            Some(product) => match product.checked_add(digits) {
                Some(v) => v,
                None => { return Err(ConvertError::Overflow); },
            },
            None => {
                return Err(ConvertError::Overflow);
            },
        };
        if top > LIMIT {
            return Err(ConvertError::Overflow);
        }
        let magnitude = match self.repeating {
            None => Rational::new(top as i64, scale as i64),
            Some(run) => {
                proof {
                    lemma_power_of_ten_skips_limit(run.count as nat);
                    lemma_scale_within_denominator(lit);
                }
                let nines: u64 = match power_of_ten(run.count) {
                    Some(v) => v - 1,
                    None => {
                        assert(!lit.convertible()) by (nonlinear_arith)
                            requires
                                lit.magnitude().1 == (pow(10, run.count as nat) - 1) * scale,
                                pow(10, run.count as nat) > LIMIT + 1,
                                scale >= 1,
                                lit.convertible() ==> lit.magnitude().1 <= LIMIT,
                        ;
                        return Err(ConvertError::Overflow);
                    },
                };
                let bottom: u64 = match nines.checked_mul(scale) {
                    Some(v) => v,
                    None => { return Err(ConvertError::Overflow); },
                };
                if bottom > LIMIT {
                    return Err(ConvertError::Overflow);
                }
                assert(run.value <= bottom) by (nonlinear_arith)
                    requires
                        run.value <= nines,
                        bottom == nines * scale,
                        scale >= 1,
                ;
                let a = Rational::new(top as i64, scale as i64);
                let b = Rational::new(run.value as i64, bottom as i64);
                proof {
                    lemma_lowest_terms_are_least(a@.0, a@.1, top as int, scale as int);
                    lemma_lowest_terms_are_least(b@.0, b@.1, run.value as int, bottom as int);
                    lemma_products_fit(a@.0, a@.1, b@.0, b@.1);
                }
                let sum = a.sum(b);
                proof {
                    lemma_sum_value(
                        sum@.0,
                        sum@.1,
                        a@.0,
                        a@.1,
                        b@.0,
                        b@.1,
                        top as int,
                        scale as int,
                        run.value as int,
                        nines as int,
                    );
                }
                sum
            },
        };
        assert(same_value(magnitude@.0, magnitude@.1, lit.magnitude().0, lit.magnitude().1));
        proof {
            lemma_scale_within_denominator(lit);
        }
        if self.negative {
            let negated = magnitude.neg();
            assert(same_value(negated@.0, negated@.1, -lit.magnitude().0, lit.magnitude().1))
                by (nonlinear_arith)
                requires
                    negated@.0 == -magnitude@.0,
                    negated@.1 == magnitude@.1,
                    magnitude@.0 * lit.magnitude().1 == lit.magnitude().0 * magnitude@.1,
            ;
            proof {
                lemma_lowest_terms(negated@.0, negated@.1, lit.value().0, lit.value().1);
            }
            Ok(negated)
        } else {
            proof {
                lemma_lowest_terms(magnitude@.0, magnitude@.1, lit.value().0, lit.value().1);
            }
            Ok(magnitude)
        }
    }
}

/// The denominator of a literal's value is no smaller than its scale.
proof fn lemma_scale_within_denominator(lit: Literal)
    requires
        lit.wf(),
    ensures
        lit.scale() >= 1,
        lit.magnitude().1 >= lit.scale(),
{
    if let Some(r) = lit.fraction {
        lemma_pow_positive(10, r.count);
    }
    if let Some(r) = lit.repeating {
        lemma_power_of_ten_skips_limit(r.count);
        let n = pow(10, r.count) - 1;
        let s = lit.scale();
        assert(n * s >= s) by (nonlinear_arith)
            requires
                n >= 1,
                s >= 1,
        ;
    }
}

/// Numbers of at most 63 bits can be multiplied crosswise and added within
/// 128 bits.
proof fn lemma_products_fit(an: int, ad: int, bn: int, bd: int)
    requires
        -LIMIT <= an <= LIMIT,
        0 <= ad <= LIMIT,
        -LIMIT <= bn <= LIMIT,
        0 <= bd <= LIMIT,
    ensures
        sum_fits((an, ad), (bn, bd)),
{
    let m = LIMIT as int;
    assert(-m * m <= an * bd <= m * m) by (nonlinear_arith)
        requires
            -m <= an <= m,
            0 <= bd <= m,
    ;
    assert(-m * m <= ad * bn <= m * m) by (nonlinear_arith)
        requires
            -m <= bn <= m,
            0 <= ad <= m,
    ;
    assert(0 <= ad * bd <= m * m) by (nonlinear_arith)
        requires
            0 <= ad <= m,
            0 <= bd <= m,
    ;
    assert(m * m == 0x3fff_ffff_ffff_ffff_0000_0000_0000_0001) by (nonlinear_arith)
        requires
            m == 0x7fff_ffff_ffff_ffff,
    ;
}

/// Converts a decimal literal to the fraction in lowest terms that it
/// denotes.
///
/// Fails with `Format` where the text is not a decimal literal, and with
/// `Overflow` where it is one and is not `convertible`.
pub fn parse_decimal(text: &str) -> (r: Result<Rational, ConvertError>)
    ensures
        match r {
            Ok(q) => decimal_literal(text@) matches Some(lit) && lit.convertible() && q.wf() && q@
                == lowest_terms(lit.value().0, lit.value().1),
            Err(ConvertError::Format) => decimal_literal(text@) is None,
            Err(ConvertError::Overflow) => decimal_literal(text@) matches Some(lit)
                && !lit.convertible(),
            Err(ConvertError::DivideByZero) => false,
        },
{
    match parse_literal(text) {
        Ok(literal) => literal.to_rational(),
        Err(ConvertError::Overflow) => {
            proof {
                lemma_convertible_is_representable(text@);
            }
            Err(ConvertError::Overflow)
        },
        Err(e) => Err(e),
    }
}

/// What `decimal_to_fraction` gives for the text `t`: the fraction in
/// lowest terms that the literal denotes, as text; `Format` where `t` is no
/// decimal literal, and `Overflow` where it is one that is not
/// `convertible`.
pub open spec fn decimal_conversion(t: Seq<char>) -> Result<Seq<char>, ConvertError> {
    match decimal_literal(t) {
        None => Err(ConvertError::Format),
        Some(lit) => if lit.convertible() {
            let q = lowest_terms(lit.value().0, lit.value().1);
            Ok(fraction_text(q.0, q.1))
        } else {
            Err(ConvertError::Overflow)
        },
    }
}

/// Converts a decimal literal to a fraction in lowest terms, as text:
/// `numerator/denominator`, or the numerator alone where the denominator is
/// one.
pub fn decimal_to_fraction(text: &str) -> (r: Result<String, ConvertError>)
    ensures
        text_of(r) == decimal_conversion(text@),
{
    match parse_decimal(text) {
        Ok(q) => Ok(q.to_text()),
        Err(e) => Err(e),
    }
}

/// A literal that can be converted has numbers of at most 64 bits.
proof fn lemma_convertible_is_representable(t: Seq<char>)
    requires
        decimal_literal(t) is Some,
    ensures
        decimal_literal(t).unwrap().convertible() ==> decimal_literal(t).unwrap().representable(),
{
    let lit = decimal_literal(t).unwrap();
    lemma_literal_wf(t);
    lemma_scale_within_denominator(lit);
    let i = lit.integer;
    let s = lit.scale();
    assert(i * s >= i) by (nonlinear_arith)
        requires
            i >= 0,
            s >= 1,
    ;
    if let Some(r) = lit.repeating {
        lemma_power_of_ten_skips_limit(r.count);
        let n = pow(10, r.count) - 1;
        assert(n * s >= n) by (nonlinear_arith)
            requires
                n >= 1,
                s >= 1,
        ;
    }
}

/// What `decimal_literal` reads is well formed.
pub proof fn lemma_literal_wf(t: Seq<char>)
    requires
        decimal_literal(t) is Some,
    ensures
        decimal_literal(t).unwrap().wf(),
{
    let a = sign_len(t, 0);
    let b = digits_end(t, a);
    lemma_digits_end(t, a);
    let c = if b < t.len() && t[b] == '.' {
        b + 1
    } else {
        b
    };
    let e = digits_end(t, c);
    lemma_digits_end(t, c);
    let f = if e < t.len() && t[e] == '~' {
        e + 1
    } else {
        e
    };
    let g = digits_end(t, f);
    lemma_digits_end(t, f);
    lemma_digits_value_below_power(t.subrange(a, b));
    lemma_digits_value_below_power(t.subrange(c, e));
    lemma_digits_value_below_power(t.subrange(f, g));
}

} // verus!
