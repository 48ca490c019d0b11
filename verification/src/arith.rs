//! Divisibility and fractions in lowest terms.

use vstd::prelude::*;
use vstd::arithmetic::div_mod::{
    lemma_fundamental_div_mod, lemma_mod_multiples_basic, lemma_small_mod,
};

verus! {

/// The positive integer `k` divides `n`.
pub open spec fn divides(k: int, n: int) -> bool {
    k > 0 && n % k == 0
}

/// No integer greater than one divides both `a` and `b`.
pub open spec fn coprime(a: int, b: int) -> bool {
    forall|k: int| k > 1 ==> !(#[trigger] divides(k, a) && divides(k, b))
}

/// `num / den` is written with a positive denominator and without a common
/// factor.
pub open spec fn in_lowest_terms(num: int, den: int) -> bool {
    den > 0 && coprime(num, den)
}

/// The fractions `a / b` and `c / d` have the same value.
pub open spec fn same_value(a: int, b: int, c: int, d: int) -> bool {
    a * d == c * b
}

/// A number that `k` divides is `k` times the quotient.
pub proof fn lemma_divides_quotient(k: int, n: int)
    requires
        divides(k, n),
    ensures
        n == k * (n / k),
{
    lemma_fundamental_div_mod(n, k);
}

/// `k` divides its multiples.
pub proof fn lemma_divides_multiple(k: int, q: int)
    requires
        k > 0,
    ensures
        divides(k, k * q),
{
    lemma_mod_multiples_basic(q, k);
    assert(q * k == k * q) by (nonlinear_arith);
}

/// What divides two numbers divides their combinations.
pub proof fn lemma_divides_combination(k: int, u: int, v: int, x: int, y: int)
    requires
        divides(k, u),
        divides(k, v),
    ensures
        divides(k, u * x + v * y),
{
    lemma_divides_quotient(k, u);
    lemma_divides_quotient(k, v);
    let a = u / k;
    let b = v / k;
    assert(u * x + v * y == k * (a * x + b * y)) by (nonlinear_arith)
        requires
            u == k * a,
            v == k * b,
    ;
    lemma_divides_multiple(k, a * x + b * y);
}

/// Two natural numbers, not both zero, have a common divisor that is a
/// combination of them.
proof fn lemma_common_divisor(a: int, b: int) -> (c: (int, int))
    requires
        a >= 0,
        b >= 0,
        a + b > 0,
    ensures
        a * c.0 + b * c.1 > 0,
        divides(a * c.0 + b * c.1, a),
        divides(a * c.0 + b * c.1, b),
    decreases b,
{
    if b == 0 {
        assert(a * 1 + b * 0 == a) by (nonlinear_arith)
            requires
                b == 0,
        ;
        lemma_divides_multiple(a, 1);
        lemma_divides_multiple(a, 0);
        assert(a * 1 == a && a * 0 == 0) by (nonlinear_arith);
        (1, 0)
    } else {
        let q = a / b;
        let r = a % b;
        lemma_fundamental_div_mod(a, b);
        let (x, y) = lemma_common_divisor(b, r);
        let g = b * x + r * y;
        assert(a * y + b * (x - q * y) == g) by (nonlinear_arith)
            requires
                a == b * q + r,
                g == b * x + r * y,
        ;
        lemma_divides_combination(g, b, r, q, 1);
        assert(b * q + r * 1 == a) by (nonlinear_arith)
            requires
                a == b * q + r,
        ;
        (y, x - q * y)
    }
}

/// A number and its negation have the same divisors.
pub proof fn lemma_divides_negation(k: int, n: int)
    requires
        divides(k, n),
    ensures
        divides(k, -n),
{
    lemma_divides_quotient(k, n);
    let q = n / k;
    assert(-n == k * (-q)) by (nonlinear_arith)
        requires
            n == k * q,
    ;
    lemma_divides_multiple(k, -q);
}

/// If `b` divides `a * c` and has no factor in common with `a`, it divides
/// `c`.
pub proof fn lemma_coprime_divisor(a: int, b: int, c: int)
    requires
        b > 0,
        coprime(a, b),
        divides(b, a * c),
    ensures
        divides(b, c),
{
    let m = if a < 0 { -a } else { a };
    let (x, y) = lemma_common_divisor(m, b);
    let g = m * x + b * y;
    if g > 1 {
        if a < 0 {
            lemma_divides_negation(g, m);
        }
        assert(divides(g, a) && divides(g, b));
    }
    assert(g == 1);
    lemma_divides_quotient(b, a * c);
    let t = (a * c) / b;
    let s = if a < 0 { -t } else { t };
    assert(m * c == b * s) by (nonlinear_arith)
        requires
            a * c == b * t,
            m == if a < 0 { -a } else { a },
            s == if a < 0 { -t } else { t },
    ;
    assert(c == b * (s * x + c * y)) by (nonlinear_arith)
        requires
            m * x + b * y == 1,
            m * c == b * s,
    ;
    lemma_divides_multiple(b, s * x + c * y);
}

/// Every integer is in lowest terms over one.
pub proof fn lemma_one_is_coprime(a: int)
    ensures
        in_lowest_terms(a, 1),
{
    assert forall|k: int| k > 1 implies !(#[trigger] divides(k, a) && divides(k, 1)) by {
        lemma_small_mod(1, k as nat);
    }
}

/// A change of sign keeps a fraction in lowest terms.
pub proof fn lemma_negation_is_coprime(a: int, b: int)
    requires
        in_lowest_terms(a, b),
    ensures
        in_lowest_terms(-a, b),
{
    assert forall|k: int| k > 1 implies !(#[trigger] divides(k, -a) && divides(k, b)) by {
        if divides(k, -a) && divides(k, b) {
            lemma_divides_negation(k, -a);
            assert(divides(k, a));
        }
    }
}

/// A fraction is a multiple of its form in lowest terms: numerator and
/// denominator carry one common factor.
pub proof fn lemma_lowest_terms_factor(a: int, b: int, num: int, den: int) -> (m: int)
    requires
        in_lowest_terms(a, b),
        den != 0,
        same_value(a, b, num, den),
    ensures
        m != 0,
        num == m * a,
        den == m * b,
{
    assert(a * den == b * num) by (nonlinear_arith)
        requires
            a * den == num * b,
    ;
    lemma_divides_multiple(b, num);
    lemma_coprime_divisor(a, b, den);
    lemma_divides_quotient(b, den);
    let m = den / b;
    assert(m != 0) by (nonlinear_arith)
        requires
            den == b * m,
            den != 0,
    ;
    assert(num == m * a && den == m * b) by (nonlinear_arith)
        requires
            den == b * m,
            a * den == num * b,
            b > 0,
    ;
    m
}

/// The form in lowest terms is no larger than any other form of the value.
pub proof fn lemma_lowest_terms_are_least(a: int, b: int, num: int, den: int)
    requires
        in_lowest_terms(a, b),
        den != 0,
        same_value(a, b, num, den),
    ensures
        b <= (if den < 0 { -den } else { den }),
        (if a < 0 { -a } else { a }) <= (if num < 0 { -num } else { num }),
{
    let m = lemma_lowest_terms_factor(a, b, num, den);
    assert(b <= (if den < 0 { -den } else { den }) && (if a < 0 { -a } else { a }) <= (if num < 0 {
        -num
    } else {
        num
    })) by (nonlinear_arith)
        requires
            m != 0,
            num == m * a,
            den == m * b,
            b > 0,
    ;
}

/// A value has one form in lowest terms.
pub proof fn lemma_lowest_terms_unique(a: int, b: int, c: int, d: int)
    requires
        in_lowest_terms(a, b),
        in_lowest_terms(c, d),
        same_value(a, b, c, d),
    ensures
        a == c,
        b == d,
{
    let m = lemma_lowest_terms_factor(a, b, c, d);
    assert(same_value(c, d, a, b)) by (nonlinear_arith)
        requires
            a * d == c * b,
    ;
    let k = lemma_lowest_terms_factor(c, d, a, b);
    assert(m == 1) by (nonlinear_arith)
        requires
            d == m * b,
            b == k * d,
            b > 0,
            d > 0,
    ;
    assert(c == a && d == b) by (nonlinear_arith)
        requires
            m == 1,
            c == m * a,
            d == m * b,
    ;
}

/// The form in lowest terms of the value `num / den`.
pub open spec fn lowest_terms(num: int, den: int) -> (int, int) {
    choose|r: (int, int)| in_lowest_terms(r.0, r.1) && same_value(r.0, r.1, num, den)
}

/// A fraction in lowest terms with the value `num / den` is `lowest_terms`
/// of it.
pub proof fn lemma_lowest_terms(a: int, b: int, num: int, den: int)
    requires
        in_lowest_terms(a, b),
        same_value(a, b, num, den),
        den != 0,
    ensures
        lowest_terms(num, den) == (a, b),
{
    let w = (a, b);
    assert(in_lowest_terms(w.0, w.1) && same_value(w.0, w.1, num, den));
    let r = lowest_terms(num, den);
    assert((r.0 * b) * den == (a * r.1) * den) by (nonlinear_arith)
        requires
            r.0 * den == num * r.1,
            a * den == num * b,
    ;
    assert(r.0 * b == a * r.1) by (nonlinear_arith)
        requires
            (r.0 * b) * den == (a * r.1) * den,
            den != 0,
    ;
    lemma_lowest_terms_unique(r.0, r.1, a, b);
}

/// Every fraction has a form in lowest terms.
pub proof fn lemma_lowest_terms_exist(num: int, den: int)
    requires
        den != 0,
    ensures
        in_lowest_terms(lowest_terms(num, den).0, lowest_terms(num, den).1),
        same_value(lowest_terms(num, den).0, lowest_terms(num, den).1, num, den),
{
    let n = if num < 0 { -num } else { num };
    let d = if den < 0 { -den } else { den };
    let (x, y) = lemma_common_divisor(n, d);
    let g = n * x + d * y;
    lemma_divides_quotient(g, n);
    lemma_divides_quotient(g, d);
    let a0 = n / g;
    let b = d / g;
    assert(b > 0) by (nonlinear_arith)
        requires
            d == g * b,
            d > 0,
            g > 0,
    ;
    let a = if (num < 0) != (den < 0) { -a0 } else { a0 };
    assert(a0 * d == n * b) by (nonlinear_arith)
        requires
            n == g * a0,
            d == g * b,
    ;
    assert(a * den == num * b) by (nonlinear_arith)
        requires
            a0 * d == n * b,
            n == (if num < 0 { -num } else { num }),
            d == (if den < 0 { -den } else { den }),
            a == (if (num < 0) != (den < 0) { -a0 } else { a0 }),
    ;
    assert forall|k: int| k > 1 implies !(#[trigger] divides(k, a) && divides(k, b)) by {
        if divides(k, a) && divides(k, b) {
            if a != a0 {
                lemma_divides_negation(k, a);
            }
            lemma_divides_quotient(k, a0);
            lemma_divides_quotient(k, b);
            let u = a0 / k;
            let v = b / k;
            let z = u * x + v * y;
            assert(n * x == g * (k * (u * x))) by (nonlinear_arith)
                requires
                    n == g * a0,
                    a0 == k * u,
            ;
            assert(d * y == g * (k * (v * y))) by (nonlinear_arith)
                requires
                    d == g * b,
                    b == k * v,
            ;
            assert(g * (k * (u * x)) + g * (k * (v * y)) == g * (k * z)) by (nonlinear_arith)
                requires
                    z == u * x + v * y,
            ;
            assert(g == g * (k * z));
            assert(false) by (nonlinear_arith)
                requires
                    g > 0,
                    k > 1,
                    g == g * (k * z),
            ;
        }
    }
    let w = (a, b);
    assert(in_lowest_terms(w.0, w.1) && same_value(w.0, w.1, num, den));
}

} // verus!
