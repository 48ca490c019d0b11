use repeating_decimal::rational::Rational;

#[test]
fn new_reduces_and_moves_the_sign_up() {
    let r = Rational::new(6, -4);
    assert_eq!((r.numerator(), r.denominator()), (-3, 2));
    let r = Rational::new(-6, -4);
    assert_eq!((r.numerator(), r.denominator()), (3, 2));
    let r = Rational::new(0, -9);
    assert_eq!((r.numerator(), r.denominator()), (0, 1));
    let r = Rational::new(2, 4);
    assert_eq!((r.numerator(), r.denominator()), (1, 2));
    let r = Rational::new(i64::MIN, i64::MIN);
    assert_eq!((r.numerator(), r.denominator()), (1, 1));
    let r = Rational::new(i64::MIN, 1);
    assert_eq!((r.numerator(), r.denominator()), (i64::MIN as i128, 1));
    assert_eq!(Rational::new(10, 20), Rational::new(-1, -2));
}

#[test]
fn from_integer_has_denominator_one() {
    let r = Rational::from_integer(-5);
    assert_eq!((r.numerator(), r.denominator()), (-5, 1));
    assert_eq!(Rational::from_integer(7), Rational::new(14, 2));
}

#[test]
fn sums_are_reduced() {
    let half = Rational::new(1, 2);
    let third = Rational::new(1, 3);
    let sixth = Rational::new(1, 6);
    assert_eq!(half.checked_add(third), Some(Rational::new(5, 6)));
    assert_eq!(third.checked_add(sixth), Some(half));
    assert_eq!(half.checked_add(half), Some(Rational::from_integer(1)));
    assert_eq!(half.checked_add(half.neg()), Some(Rational::from_integer(0)));
    assert_eq!(half.sum(third), Rational::new(5, 6));
}

#[test]
fn sums_that_do_not_fit_are_refused() {
    let big = Rational::new(i64::MAX, 1);
    let mut r = big;
    // (2^63 - 1) * 2^k fits as long as k is at most 63
    for _ in 0..64 {
        r = r.checked_add(r).unwrap();
    }
    assert_eq!(r.numerator(), (i64::MAX as i128) << 64);
    assert_eq!(r.checked_add(r), None);
    let small = Rational::new(1, i64::MAX);
    let smaller = small.checked_add(Rational::new(1, i64::MAX - 1)).unwrap();
    assert_eq!(smaller.denominator(), (i64::MAX as i128) * (i64::MAX as i128 - 1));
    assert_eq!(smaller.checked_add(small), None);
}

#[test]
fn negation_changes_the_sign_of_the_numerator() {
    let r = Rational::new(3, 4).neg();
    assert_eq!((r.numerator(), r.denominator()), (-3, 4));
    assert_eq!(r.neg(), Rational::new(3, 4));
    assert_eq!(Rational::from_integer(0).neg(), Rational::from_integer(0));
}

#[test]
fn text_of_a_rational() {
    assert_eq!(Rational::new(1, 2).to_text(), "1/2");
    assert_eq!(Rational::new(-1, 2).to_text(), "-1/2");
    assert_eq!(Rational::new(4, 2).to_text(), "2");
    assert_eq!(Rational::new(0, 5).to_text(), "0");
    assert_eq!(Rational::new(-120, 7).to_text(), "-120/7");
    assert_eq!(Rational::from_integer(1000).to_text(), "1000");
}
