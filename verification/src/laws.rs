//! What holds between the two directions of the conversion.

use vstd::prelude::*;
use vstd::arithmetic::power::{pow, lemma_pow_positive};
use crate::arith::{
    in_lowest_terms, lemma_lowest_terms, lemma_lowest_terms_exist, lemma_lowest_terms_factor,
    lowest_terms, same_value,
};
use crate::cycle::{
    cycle_of, digit_at, is_cycle, lemma_cycle_excludes_termination, lemma_cycle_of,
    lemma_division_step, lemma_expansion_ends_or_repeats, lemma_scaled_expansion, magnitude,
    remainder_at, terminates,
};
use crate::decimal::{
    decimal_literal, lemma_digits_end_of_run, sign_len, Digits, Literal, LIMIT,
};
use crate::fraction::{
    decimal_text, digits_text, expansion_len, is_expansion_len, is_negative,
    lemma_expansion_len, lemma_first_zero_exists,
};
use crate::notation::{
    all_digits, digit_char, digit_value, digits_value, is_digit, lemma_digit_char, lemma_nat_text,
    nat_text,
};

verus! {

/// The fractional digits of a fraction are digits.
pub proof fn lemma_digits_text(n: int, d: int, from: nat, count: nat)
    requires
        d > 0,
    ensures
        digits_text(n, d, from, count).len() == count,
        all_digits(digits_text(n, d, from, count)),
{
    assert forall|i: int| 0 <= i < count implies is_digit(
        #[trigger] digits_text(n, d, from, count)[i],
    ) by {
        lemma_division_step(n, d, (from + i) as nat);
        lemma_digit_char(digit_at(n, d, (from + i) as nat));
    }
}

/// Long division is exact: after `k` digits, `n` times ten to the `k` is
/// the divisor times the digits so far, read as one number, plus the
/// remainder.
pub proof fn lemma_expansion_value(n: int, d: int, k: nat)
    requires
        d > 0,
    ensures
        n * pow(10, k) == d * ((n / d) * pow(10, k) + digits_value(digits_text(n, d, 0, k)))
            + remainder_at(n, d, k),
    decreases k,
{
    reveal(pow);
    if k == 0 {
        vstd::arithmetic::div_mod::lemma_fundamental_div_mod(n, d);
        assert(digits_text(n, d, 0, 0) =~= Seq::<char>::empty());
        assert(pow(10, 0) == 1);
        assert(d * ((n / d) * 1 + 0) == d * (n / d)) by (nonlinear_arith);
    } else {
        let j = (k - 1) as nat;
        lemma_expansion_value(n, d, j);
        lemma_division_step(n, d, j);
        let longer = digits_text(n, d, 0, k);
        let digit = digit_at(n, d, j);
        assert(longer.drop_last() =~= digits_text(n, d, 0, j));
        assert(longer.last() == digit_char(digit));
        lemma_digit_char(digit);
        let before = digits_value(digits_text(n, d, 0, j));
        assert(digits_value(longer) == 10 * before + digit);
        let q = n / d;
        let p = pow(10, j);
        let r = remainder_at(n, d, j);
        let next = remainder_at(n, d, k);
        assert(pow(10, k) == 10 * p);
        assert(n * (10 * p) == d * (q * (10 * p) + (10 * before + digit)) + next)
            by (nonlinear_arith)
            requires
                n * p == d * (q * p + before) + r,
                10 * r == d * digit + next,
        ;
    }
}

/// The text of a literal: a minus sign where `negative` is set, the digits
/// of the integer part and, where digits follow, a point, the digits that
/// do not repeat and, behind `~`, those that do.
pub open spec fn literal_text(
    negative: bool,
    integer: Seq<char>,
    fraction: Seq<char>,
    repeating: Seq<char>,
) -> Seq<char> {
    let sign = if negative {
        seq!['-']
    } else {
        Seq::<char>::empty()
    };
    let point = if fraction.len() + repeating.len() > 0 {
        seq!['.']
    } else {
        Seq::<char>::empty()
    };
    let tail = if repeating.len() > 0 {
        seq!['~'] + repeating
    } else {
        Seq::<char>::empty()
    };
    sign + integer + point + fraction + tail
}

/// The digits `s` as a run, if there are any.
pub open spec fn run_of_digits(s: Seq<char>) -> Option<Digits> {
    if s.len() > 0 {
        Some(Digits { value: digits_value(s), count: s.len() })
    } else {
        None
    }
}

/// A text put together from a sign and three runs of digits is a decimal
/// literal that says just that.
pub proof fn lemma_literal_text(
    negative: bool,
    integer: Seq<char>,
    fraction: Seq<char>,
    repeating: Seq<char>,
)
    requires
        integer.len() >= 1,
        all_digits(integer),
        all_digits(fraction),
        all_digits(repeating),
    ensures
        decimal_literal(literal_text(negative, integer, fraction, repeating)) == Some(
            Literal {
                negative,
                integer: digits_value(integer),
                fraction: run_of_digits(fraction),
                repeating: run_of_digits(repeating),
            },
        ),
{
    let t = literal_text(negative, integer, fraction, repeating);
    let a: int = if negative {
        1
    } else {
        0
    };
    let b = a + integer.len();
    let c = if fraction.len() + repeating.len() > 0 {
        b + 1
    } else {
        b
    };
    let e = c + fraction.len();
    let f = if repeating.len() > 0 {
        e + 1
    } else {
        e
    };
    let g = f + repeating.len();
    assert(t.len() == g);
    assert(is_digit(integer[0]));
    assert(t[a] == integer[0]);
    assert(sign_len(t, 0) == a);
    assert forall|i: int| a <= i < b implies is_digit(#[trigger] t[i]) by {
        assert(t[i] == integer[i - a]);
    }
    assert forall|i: int| c <= i < e implies is_digit(#[trigger] t[i]) by {
        assert(t[i] == fraction[i - c]);
    }
    assert forall|i: int| f <= i < g implies is_digit(#[trigger] t[i]) by {
        assert(t[i] == repeating[i - f]);
    }
    if c > b {
        assert(t[b] == '.');
    }
    if f > e {
        assert(t[e] == '~');
    }
    lemma_digits_end_of_run(t, a, b);
    lemma_digits_end_of_run(t, c, e);
    lemma_digits_end_of_run(t, f, g);
    assert(t.subrange(a, b) =~= integer);
    assert(t.subrange(c, e) =~= fraction);
    assert(t.subrange(f, g) =~= repeating);
}

/// The finite expansion of `num / den` stays within the limits of the
/// conversion: ten to the number of its fractional digits is at most
/// `LIMIT`, and so is the number that its digits make without the point.
pub open spec fn finite_text_fits(num: int, den: int) -> bool {
    let scale = pow(10, expansion_len(magnitude(num), magnitude(den)));
    scale <= LIMIT && magnitude(num) * scale <= LIMIT * magnitude(den)
}

/// Round trip: the decimal text of a fraction in lowest terms whose
/// expansion is finite is a decimal literal, and the fraction in lowest
/// terms that the literal denotes is the fraction that was written. The
/// literal can be converted exactly where the expansion stays within the
/// limits.
pub proof fn lemma_round_trip(num: int, den: int)
    requires
        in_lowest_terms(num, den),
        terminates(magnitude(num), den),
    ensures
        decimal_literal(decimal_text(num, den)) matches Some(lit) && lowest_terms(
            lit.value().0,
            lit.value().1,
        ) == (num, den) && lit.convertible() == finite_text_fits(num, den),
{
    let n = magnitude(num);
    let d = den;
    assert(magnitude(den) == d);
    if cycle_of(n, d) is Some {
        let p = choose|p: (nat, nat)| is_cycle(n, d, p.0, p.1);
        lemma_cycle_excludes_termination(n, d, p.0, p.1);
    }
    let k = choose|k: nat| remainder_at(n, d, k) == 0;
    lemma_first_zero_exists(n, d, k);
    let m = expansion_len(n, d);
    let negative = is_negative(num, den);
    let whole = n / d;
    assert(whole >= 0) by (nonlinear_arith)
        requires
            whole == n / d,
            n >= 0,
            d > 0,
    ;
    let integer = nat_text(whole);
    let fraction = digits_text(n, d, 0, m);
    lemma_nat_text(whole);
    lemma_digits_text(n, d, 0, m);
    lemma_literal_text(negative, integer, fraction, Seq::empty());
    let t = decimal_text(num, den);
    assert(t =~= literal_text(negative, integer, fraction, Seq::empty()));
    let lit = decimal_literal(t).unwrap();
    lemma_expansion_value(n, d, m);
    let p = pow(10, m);
    lemma_pow_positive(10, m);
    let shifted = whole * p + digits_value(fraction);
    assert(n * p == d * shifted);
    if m == 0 {
        reveal(pow);
        assert(fraction =~= Seq::<char>::empty());
        assert(digits_value(fraction) == 0);
        assert(whole * 1 == whole) by (nonlinear_arith);
    }
    assert(lit.shifted() == shifted);
    assert(lit.scale() == p);
    assert(same_value(num, den, lit.value().0, lit.value().1)) by (nonlinear_arith)
        requires
            n * p == d * shifted,
            n == (if num < 0 { -num } else { num }),
            d == den,
            lit.value().1 == p,
            lit.value().0 == (if num < 0 && den > 0 || num > 0 && den < 0 {
                -shifted
            } else {
                shifted
            }),
            den > 0,
    ;
    lemma_lowest_terms(num, den, lit.value().0, lit.value().1);
    assert(shifted <= LIMIT <==> n * p <= LIMIT * d) by (nonlinear_arith)
        requires
            n * p == d * shifted,
            d > 0,
    ;
}

/// The digits from `from` on, read as one number, go on from the digits in
/// front of them: `count` more digits shift what was read by `count` places.
pub proof fn lemma_digits_value_extends(n: int, d: int, from: nat, count: nat)
    requires
        d > 0,
    ensures
        digits_value(digits_text(n, d, 0, from + count)) == digits_value(
            digits_text(n, d, 0, from),
        ) * pow(10, count) + digits_value(digits_text(n, d, from, count)),
    decreases count,
{
    reveal(pow);
    let front = digits_value(digits_text(n, d, 0, from));
    if count == 0 {
        assert(digits_text(n, d, from, 0) =~= Seq::<char>::empty());
        assert(front * 1 == front) by (nonlinear_arith);
    } else {
        let fewer = (count - 1) as nat;
        lemma_digits_value_extends(n, d, from, fewer);
        let whole = digits_text(n, d, 0, from + count);
        let part = digits_text(n, d, from, count);
        assert(whole.drop_last() =~= digits_text(n, d, 0, from + fewer));
        assert(part.drop_last() =~= digits_text(n, d, from, fewer));
        assert(whole.last() == part.last());
        let p = pow(10, fewer);
        let a = digits_value(digits_text(n, d, from, fewer));
        let last = digit_value(part.last());
        assert(10 * (front * p + a) + last == front * (10 * p) + (10 * a + last))
            by (nonlinear_arith);
    }
}

/// What the repeating notation means: the literal made of the integer part
/// of `n / d`, of the fractional digits in front of position `start`, and,
/// as its repeating part, of the `length` digits from `start` on, has the
/// value `n / d`, wherever the remainder at `start` comes back `length`
/// digits later.
pub proof fn lemma_repeating_literal_value(n: int, d: int, start: nat, length: nat)
    requires
        d > 0,
        length > 0,
        remainder_at(n, d, start + length) == remainder_at(n, d, start),
    ensures
        same_value(
            n,
            d,
            repeating_literal(n, d, start, length).magnitude().0,
            repeating_literal(n, d, start, length).magnitude().1,
        ),
{
    let lit = repeating_literal(n, d, start, length);
    let whole = n / d;
    let front = digits_value(digits_text(n, d, 0, start));
    let block = digits_value(digits_text(n, d, start, length));
    let b = pow(10, start);
    let t = pow(10, length);
    let r = remainder_at(n, d, start);
    lemma_expansion_value(n, d, start);
    lemma_expansion_value(n, d, start + length);
    lemma_digits_value_extends(n, d, start, length);
    vstd::arithmetic::power::lemma_pow_adds(10, start, length);
    if start == 0 {
        reveal(pow);
        assert(digits_text(n, d, 0, 0) =~= Seq::<char>::empty());
        assert(whole * 1 == whole) by (nonlinear_arith);
    }
    let a = whole * b + front;
    assert(lit.shifted() == a);
    assert(lit.scale() == b);
    assert(lit.magnitude() == (a * (t - 1) + block, (t - 1) * b));
    assert(whole * (b * t) + (front * t + block) == a * t + block) by (nonlinear_arith)
        requires
            a == whole * b + front,
    ;
    assert(n * ((t - 1) * b) == (a * (t - 1) + block) * d) by (nonlinear_arith)
        requires
            n * b == d * a + r,
            n * (b * t) == d * (a * t + block) + r,
    ;
}

/// The literal that long division of `n` by `d` spells where the digits
/// repeat from `start` on at distance `length`.
pub open spec fn repeating_literal(n: int, d: int, start: nat, length: nat) -> Literal {
    Literal {
        negative: false,
        integer: n / d,
        fraction: if start > 0 {
            Some(Digits { value: digits_value(digits_text(n, d, 0, start)), count: start })
        } else {
            None
        },
        repeating: Some(
            Digits { value: digits_value(digits_text(n, d, start, length)), count: length },
        ),
    }
}

/// The text of `num / den` in the repeating notation: the digits in front
/// of the repeating block and, behind `~`, the block, once.
pub open spec fn repeating_text(num: int, den: int) -> Seq<char>
    recommends
        cycle_of(magnitude(num), magnitude(den)) is Some,
{
    let n = magnitude(num);
    let d = magnitude(den);
    let (start, length) = cycle_of(n, d).unwrap();
    literal_text(
        is_negative(num, den),
        nat_text(n / d),
        digits_text(n, d, 0, start),
        digits_text(n, d, start, length),
    )
}

/// Round trip of an expansion without end: a fraction in lowest terms,
/// written in the repeating notation with the digits that long division
/// gives, is a decimal literal, and the fraction in lowest terms that the
/// literal denotes is the fraction that was written.
pub proof fn lemma_repeating_round_trip(num: int, den: int)
    requires
        in_lowest_terms(num, den),
        !terminates(magnitude(num), den),
    ensures
        cycle_of(magnitude(num), den) is Some,
        decimal_literal(repeating_text(num, den)) matches Some(lit) && lowest_terms(
            lit.value().0,
            lit.value().1,
        ) == (num, den),
{
    let n = magnitude(num);
    let d = den;
    assert(magnitude(den) == d);
    lemma_expansion_ends_or_repeats(n, d);
    let (start, length) = cycle_of(n, d).unwrap();
    let whole = n / d;
    assert(whole >= 0) by (nonlinear_arith)
        requires
            whole == n / d,
            n >= 0,
            d > 0,
    ;
    let fraction = digits_text(n, d, 0, start);
    let repeating = digits_text(n, d, start, length);
    lemma_nat_text(whole);
    lemma_digits_text(n, d, 0, start);
    lemma_digits_text(n, d, start, length);
    lemma_literal_text(is_negative(num, den), nat_text(whole), fraction, repeating);
    let lit = decimal_literal(repeating_text(num, den)).unwrap();
    lemma_repeating_literal_value(n, d, start, length);
    let spelled = repeating_literal(n, d, start, length);
    assert(lit.magnitude() == spelled.magnitude());
    let m = lit.magnitude();
    lemma_pow_positive(10, start);
    assert(pow(10, length) >= 10) by {
        reveal(pow);
        lemma_pow_positive(10, (length - 1) as nat);
    }
    assert(m.1 > 0) by (nonlinear_arith)
        requires
            m.1 == (pow(10, length) - 1) * lit.scale(),
            pow(10, length) >= 10,
            lit.scale() >= 1,
    ;
    assert(same_value(num, den, lit.value().0, lit.value().1)) by (nonlinear_arith)
        requires
            n * m.1 == m.0 * d,
            n == (if num < 0 { -num } else { num }),
            d == den,
            den > 0,
            lit.value().1 == m.1,
            lit.value().0 == (if num < 0 && den > 0 || num > 0 && den < 0 { -m.0 } else { m.0 }),
    ;
    lemma_lowest_terms(num, den, lit.value().0, lit.value().1);
}

/// The decimal text depends on the value alone: a fraction and its form in
/// lowest terms are written alike, and the expansion of the one is finite
/// where that of the other is.
pub proof fn lemma_text_of_lowest_terms(num: int, den: int)
    requires
        den != 0,
    ensures
        terminates(magnitude(lowest_terms(num, den).0), lowest_terms(num, den).1) <==> terminates(
            magnitude(num),
            magnitude(den),
        ),
        decimal_text(lowest_terms(num, den).0, lowest_terms(num, den).1) == decimal_text(
            num,
            den,
        ),
{
    lemma_lowest_terms_exist(num, den);
    let (a, b) = lowest_terms(num, den);
    let factor = lemma_lowest_terms_factor(a, b, num, den);
    let m = magnitude(factor);
    let n = magnitude(a);
    let bn = magnitude(num);
    let bd = magnitude(den);
    assert(bn == m * n && bd == m * b) by (nonlinear_arith)
        requires
            num == factor * a,
            den == factor * b,
            b > 0,
            factor != 0,
            m == (if factor < 0 { -factor } else { factor }),
            n == (if a < 0 { -a } else { a }),
            bn == (if num < 0 { -num } else { num }),
            bd == (if den < 0 { -den } else { den }),
    ;
    assert(is_negative(num, den) == is_negative(a, b)) by (nonlinear_arith)
        requires
            num == factor * a,
            den == factor * b,
            b > 0,
            factor != 0,
            is_negative(num, den) == (num < 0 && den > 0 || num > 0 && den < 0),
            is_negative(a, b) == (a < 0 && b > 0 || a > 0 && b < 0),
    ;
    assert(magnitude(b) == b);
    assert forall|k: nat|
        remainder_at(bn, bd, k) == m * #[trigger] remainder_at(n, b, k) && digit_at(
            bn,
            bd,
            k,
        ) == digit_at(n, b, k) by {
        lemma_scaled_expansion(n, b, m, k);
    }
    assert forall|k: nat| (remainder_at(bn, bd, k) == 0) == (#[trigger] remainder_at(n, b, k)
        == 0) by {
        let r = remainder_at(n, b, k);
        assert((m * r == 0) == (r == 0)) by (nonlinear_arith)
            requires
                m > 0,
        ;
    }
    assert forall|i: nat, j: nat|
        (remainder_at(bn, bd, i) == remainder_at(bn, bd, j)) == (#[trigger] remainder_at(n, b, i)
            == #[trigger] remainder_at(n, b, j)) by {
        let x = remainder_at(n, b, i);
        let y = remainder_at(n, b, j);
        assert((m * x == m * y) == (x == y)) by (nonlinear_arith)
            requires
                m > 0,
        ;
    }
    if terminates(bn, bd) {
        let z = choose|k: nat| remainder_at(bn, bd, k) == 0;
        assert(remainder_at(n, b, z) == 0);
    }
    if terminates(n, b) {
        let z = choose|k: nat| remainder_at(n, b, k) == 0;
        assert(remainder_at(bn, bd, z) == 0);
    }
    lemma_expansion_ends_or_repeats(n, b);
    lemma_expansion_ends_or_repeats(bn, bd);
    vstd::arithmetic::div_mod::lemma_div_multiples_vanish_quotient(m, n, b);
    match cycle_of(n, b) {
        Some((start, length)) => {
            assert(is_cycle(bn, bd, start, length)) by {
                assert forall|i: nat, j: nat| i < j < start + length implies remainder_at(bn, bd, i)
                    != remainder_at(bn, bd, j) by {
                    assert(remainder_at(n, b, i) != remainder_at(n, b, j));
                }
            }
            lemma_cycle_of(bn, bd, start, length);
            assert(digits_text(bn, bd, 0, start) =~= digits_text(n, b, 0, start));
            assert(digits_text(bn, bd, start, length) =~= digits_text(n, b, start, length));
        },
        None => {
            let z = choose|k: nat| remainder_at(n, b, k) == 0;
            lemma_first_zero_exists(n, b, z);
            let len = expansion_len(n, b);
            assert(is_expansion_len(bn, bd, len)) by {
                assert(remainder_at(n, b, len) == 0);
                assert forall|j: nat| j < len implies remainder_at(bn, bd, j) != 0 by {
                    assert(remainder_at(n, b, j) != 0);
                }
            }
            lemma_expansion_len(bn, bd, len);
            assert(digits_text(bn, bd, 0, len) =~= digits_text(n, b, 0, len));
        },
    }
}

/// Idempotence: the decimal text of a fraction whose expansion is finite,
/// read as a decimal literal and written again from the fraction in lowest
/// terms that it denotes, is the same text.
pub proof fn lemma_format_is_idempotent(num: int, den: int)
    requires
        den != 0,
        terminates(magnitude(num), magnitude(den)),
    ensures
        decimal_literal(decimal_text(num, den)) matches Some(lit) && decimal_text(
            lowest_terms(lit.value().0, lit.value().1).0,
            lowest_terms(lit.value().0, lit.value().1).1,
        ) == decimal_text(num, den),
{
    lemma_lowest_terms_exist(num, den);
    lemma_text_of_lowest_terms(num, den);
    let (a, b) = lowest_terms(num, den);
    lemma_round_trip(a, b);
}

} // verus!
