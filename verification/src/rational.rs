//! Rational numbers in lowest terms.

use vstd::prelude::*;
use pyinrs::Fraction;
use crate::arith::{
    in_lowest_terms, lemma_lowest_terms, lemma_negation_is_coprime, lemma_one_is_coprime,
    lowest_terms, same_value,
};
use crate::notation::int_text;

verus! {

/// A rational number: a numerator over a positive denominator, without a
/// common factor. The sign is that of the numerator.
#[derive(Clone, Copy, Debug, PartialEq, Eq, Structural)]
pub struct Rational {
    num: i128,
    den: i128,
}

/// `v` and `-v` are both 128-bit integers.
pub open spec fn fits(v: int) -> bool {
    i128::MIN < v <= i128::MAX
}

/// The sum of `a` and `b` can be formed within 128 bits: the cross products,
/// their sum and the product of the denominators all fit.
pub open spec fn sum_fits(a: (int, int), b: (int, int)) -> bool {
    &&& fits(a.0 * b.1)
    &&& fits(a.1 * b.0)
    &&& fits(a.0 * b.1 + a.1 * b.0)
    &&& fits(a.1 * b.1)
}

/// A fraction as text: the numerator alone where the denominator is one,
/// else numerator, a slash, denominator.
pub open spec fn fraction_text(num: int, den: int) -> Seq<char> {
    if den == 1 {
        int_text(num)
    } else {
        int_text(num) + seq!['/'] + int_text(den)
    }
}

impl View for Rational {
    type V = (int, int);

    /// Numerator and denominator.
    closed spec fn view(&self) -> (int, int) {
        (self.num as int, self.den as int)
    }
}

/// `pyinrs::Fraction::from` on a pair: the fraction `num / den` comes back
/// with a positive denominator and in lowest terms.
#[verifier::external_body]
fn fraction_from_ratio(num: i128, den: i128) -> (r: Rational)
    requires
        den != 0,
        num > i128::MIN,
        den > i128::MIN,
    ensures
        r.wf(),
        same_value(r@.0, r@.1, num as int, den as int),
{
    let f = Fraction::from((num, den));
    Rational { num: f.numerator(), den: f.denominator() }
}

/// `pyinrs::Fraction::from` on an integer: the integer over one.
#[verifier::external_body]
fn fraction_from_integer(value: i128) -> (r: Rational)
    ensures
        r@ == (value as int, 1int),
{
    let f = Fraction::from(value);
    Rational { num: f.numerator(), den: f.denominator() }
}

/// `+` of `pyinrs::Fraction`: the sum of two fractions, in lowest terms. It
/// multiplies crosswise in 128 bits, so those products have to fit.
#[verifier::external_body]
fn fraction_sum(a: Rational, b: Rational) -> (r: Rational)
    requires
        a.wf(),
        b.wf(),
        sum_fits(a@, b@),
    ensures
        r.wf(),
        same_value(r@.0, r@.1, a@.0 * b@.1 + a@.1 * b@.0, a@.1 * b@.1),
{
    let f = Fraction::from((a.num, a.den)) + Fraction::from((b.num, b.den));
    Rational { num: f.numerator(), den: f.denominator() }
}

/// Unary `-` of `pyinrs::Fraction`: the numerator changes its sign.
#[verifier::external_body]
fn fraction_negated(a: Rational) -> (r: Rational)
    requires
        a.wf(),
    ensures
        r@ == (-a@.0, a@.1),
{
    let f = -Fraction::from((a.num, a.den));
    Rational { num: f.numerator(), den: f.denominator() }
}

/// `Display` of `pyinrs::Fraction`: the numerator in decimal digits, then,
/// unless the denominator is one, a slash and the denominator.
#[verifier::external_body]
fn fraction_display(a: Rational) -> (text: String)
    requires
        a.wf(),
    ensures
        text@ == fraction_text(a@.0, a@.1),
{
    format!("{}", Fraction::from((a.num, a.den)))
}

impl Rational {
    /// The number is in lowest terms, and its negation can be formed.
    pub open spec fn wf(&self) -> bool {
        &&& in_lowest_terms(self@.0, self@.1)
        &&& fits(self@.0)
        &&& fits(self@.1)
    }

    /// The fraction `num / den`, reduced.
    pub fn new(num: i64, den: i64) -> (r: Rational)
        requires
            den != 0,
        ensures
            r.wf(),
            r@ == lowest_terms(num as int, den as int),
            same_value(r@.0, r@.1, num as int, den as int),
    {
        let r = fraction_from_ratio(num as i128, den as i128);
        proof {
            lemma_lowest_terms(r@.0, r@.1, num as int, den as int);
        }
        r
    }

    /// The integer `value`.
    pub fn from_integer(value: i64) -> (r: Rational)
        ensures
            r.wf(),
            r@ == (value as int, 1int),
    {
        let r = fraction_from_integer(value as i128);
        proof {
            lemma_one_is_coprime(value as int);
        }
        r
    }

    /// The numerator; it carries the sign.
    pub fn numerator(&self) -> (n: i128)
        ensures
            n == self@.0,
    {
        self.num
    }

    /// The denominator.
    pub fn denominator(&self) -> (d: i128)
        ensures
            d == self@.1,
    {
        self.den
    }

    /// The sum of two numbers whose cross products fit in 128 bits.
    pub fn sum(self, rhs: Rational) -> (r: Rational)
        requires
            self.wf(),
            rhs.wf(),
            sum_fits(self@, rhs@),
        ensures
            r.wf(),
            r@ == lowest_terms(self@.0 * rhs@.1 + self@.1 * rhs@.0, self@.1 * rhs@.1),
            same_value(
                r@.0,
                r@.1,
                self@.0 * rhs@.1 + self@.1 * rhs@.0,
                self@.1 * rhs@.1,
            ),
    {
        let r = fraction_sum(self, rhs);
        proof {
            let bottom = self@.1 * rhs@.1;
            assert(bottom > 0) by (nonlinear_arith)
                requires
                    bottom == self@.1 * rhs@.1,
                    self@.1 > 0,
                    rhs@.1 > 0,
            ;
            lemma_lowest_terms(r@.0, r@.1, self@.0 * rhs@.1 + self@.1 * rhs@.0, bottom);
        }
        r
    }

    /// The sum of two numbers, or `None` where it cannot be formed within
    /// 128 bits.
    pub fn checked_add(self, rhs: Rational) -> (r: Option<Rational>)
        requires
            self.wf(),
            rhs.wf(),
        ensures
            r is Some <==> sum_fits(self@, rhs@),
            r matches Some(s) ==> s.wf() && s@ == lowest_terms(
                self@.0 * rhs@.1 + self@.1 * rhs@.0,
                self@.1 * rhs@.1,
            ),
    {
        let left = match self.num.checked_mul(rhs.den) {
            Some(p) => p,
            None => { return None; },
        };
        let right = match self.den.checked_mul(rhs.num) {
            Some(p) => p,
            None => { return None; },
        };
        let top = match left.checked_add(right) {
            Some(p) => p,
            None => { return None; },
        };
        let bottom = match self.den.checked_mul(rhs.den) {
            Some(p) => p,
            None => { return None; },
        };
        if left == i128::MIN || right == i128::MIN || top == i128::MIN || bottom == i128::MIN {
            return None;
        }
        Some(self.sum(rhs))
    }

    /// The number with the opposite sign.
    pub fn neg(self) -> (r: Rational)
        requires
            self.wf(),
        ensures
            r.wf(),
            r@ == (-self@.0, self@.1),
    {
        let r = fraction_negated(self);
        proof {
            lemma_negation_is_coprime(self@.0, self@.1);
        }
        r
    }

    /// The number as text: `numerator/denominator`, or the numerator alone
    /// where the denominator is one.
    pub fn to_text(&self) -> (text: String)
        requires
            self.wf(),
        ensures
            text@ == fraction_text(self@.0, self@.1),
    {
        fraction_display(*self)
    }
}

} // verus!
