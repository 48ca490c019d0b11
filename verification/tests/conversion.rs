use repeating_decimal::decimal::{decimal_to_fraction, parse_decimal};
use repeating_decimal::error::ConvertError;
use repeating_decimal::fraction::{format_decimal, fraction_to_decimal, parse_fraction};
use repeating_decimal::rational::Rational;

#[test]
fn test_fraction_to_decimal() {
    assert_eq!(fraction_to_decimal("1/2").unwrap(), "0.5");
    assert_eq!(fraction_to_decimal("1/3").unwrap(), "0.333...");
    assert_eq!(fraction_to_decimal("1/30").unwrap(), "0.0333...");
    assert_eq!(fraction_to_decimal("5/6").unwrap(), "0.8333...");
    assert_eq!(fraction_to_decimal("83/99").unwrap(), "0.838383...");
    assert_eq!(fraction_to_decimal("123/1000").unwrap(), "0.123");
    assert_eq!(fraction_to_decimal("123/999").unwrap(), "0.123123123...");
    assert_eq!(fraction_to_decimal("123/1").unwrap(), "123");
    assert_eq!(fraction_to_decimal("187/1665").unwrap(), "0.1123123123...");
    assert_eq!(fraction_to_decimal("61111/4950").unwrap(), "12.34565656...");

    assert_eq!(fraction_to_decimal("-1/-1").unwrap(), "1");
    assert_eq!(fraction_to_decimal("19/-10").unwrap(), "-1.9");
    assert_eq!(fraction_to_decimal("-1/3").unwrap(), "-0.333...");
    assert_eq!(fraction_to_decimal("1/-9").unwrap(), "-0.111...");
}

#[test]
fn test_decimal_to_fraction() {
    assert_eq!(decimal_to_fraction("0.5").unwrap(), "1/2");
    assert_eq!(decimal_to_fraction("0.~3").unwrap(), "1/3");
    assert_eq!(decimal_to_fraction("0.0~3").unwrap(), "1/30");
    assert_eq!(decimal_to_fraction("0.8~3").unwrap(), "5/6");
    assert_eq!(decimal_to_fraction("0.~83").unwrap(), "83/99");
    assert_eq!(decimal_to_fraction("0.123").unwrap(), "123/1000");
    assert_eq!(decimal_to_fraction("0.~123").unwrap(), "41/333");
    assert_eq!(decimal_to_fraction("123").unwrap(), "123");
    assert_eq!(decimal_to_fraction("0.1~123").unwrap(), "187/1665");
    assert_eq!(decimal_to_fraction("12.34~56").unwrap(), "61111/4950");
    assert_eq!(decimal_to_fraction("0.24~9").unwrap(), "1/4");
    assert_eq!(decimal_to_fraction("0.~375").unwrap(), "125/333");
    assert_eq!(decimal_to_fraction("4.~518").unwrap(), "122/27");
    assert_eq!(decimal_to_fraction("0.~9").unwrap(), "1");

    assert_eq!(decimal_to_fraction("-1").unwrap(), "-1");
    assert_eq!(decimal_to_fraction("-0.~1").unwrap(), "-1/9");
    assert_eq!(decimal_to_fraction("-1.9").unwrap(), "-19/10");
    assert_eq!(decimal_to_fraction("-1.~9").unwrap(), "-2");
    assert_eq!(decimal_to_fraction("-1.1~9").unwrap(), "-6/5");
}

#[test]
fn nines_collapse() {
    assert_eq!(parse_decimal("0.~9"), Ok(Rational::from_integer(1)));
    assert_eq!(parse_decimal("0.24~9"), Ok(Rational::new(1, 4)));
    assert_eq!(parse_decimal("0.~99"), Ok(Rational::from_integer(1)));
    assert_eq!(parse_decimal("9.~9"), Ok(Rational::from_integer(10)));
}

#[test]
fn sign_is_read_from_the_text() {
    assert_eq!(parse_decimal("-1.~9"), Ok(Rational::from_integer(-2)));
    assert_eq!(parse_decimal("-0.~9"), Ok(Rational::from_integer(-1)));
    assert_eq!(parse_decimal("+0.5"), Ok(Rational::new(1, 2)));
    assert_eq!(parse_decimal("-0"), Ok(Rational::from_integer(0)));
    assert_eq!(parse_decimal("-0.0~0"), Ok(Rational::from_integer(0)));
    assert_eq!(fraction_to_decimal("-1/-1").unwrap(), "1");
    assert_eq!(fraction_to_decimal("+1/+4").unwrap(), "0.25");
    assert_eq!(fraction_to_decimal("0/-5").unwrap(), "0");
    assert_eq!(fraction_to_decimal("-0/5").unwrap(), "0");
}

#[test]
fn each_reconstruction_rule() {
    // no fractional part
    assert_eq!(parse_decimal("42"), Ok(Rational::from_integer(42)));
    assert_eq!(parse_decimal("42."), Ok(Rational::from_integer(42)));
    // digits that do not repeat: (7 * 100 + 25) / 100
    assert_eq!(parse_decimal("7.25"), Ok(Rational::new(29, 4)));
    // digits that repeat: 7 + 25 / 99
    assert_eq!(parse_decimal("7.~25"), Ok(Rational::new(718, 99)));
    assert_eq!(parse_decimal("7~25"), Ok(Rational::new(718, 99)));
    // both: (7 * 10 + 2) / 10 + 5 / (9 * 10)
    assert_eq!(parse_decimal("7.2~5"), Ok(Rational::new(653, 90)));
    // leading zeros count as digits
    assert_eq!(parse_decimal("0.05"), Ok(Rational::new(1, 20)));
    assert_eq!(parse_decimal("0.~05"), Ok(Rational::new(5, 99)));
    assert_eq!(parse_decimal("007.50"), Ok(Rational::new(15, 2)));
}

#[test]
fn decimal_format_errors() {
    for text in ["", "-", "+", ".", ".5", "~3", "1.~", "1.5~", "1..5", "1.5.2", "1~2~3", "1~2.3",
        "abc", "1a", " 1", "1 ", "--1", "1/2", "1e5", "0.~-3", "\u{661}", "1.\u{662}", "１"]
    {
        assert_eq!(parse_decimal(text), Err(ConvertError::Format), "{:?}", text);
        assert_eq!(decimal_to_fraction(text), Err(ConvertError::Format), "{:?}", text);
    }
}

#[test]
fn fraction_format_errors() {
    for text in ["", "/", "1/", "/2", "1", "1.5", "1/2/3", "1//2", "1/ 2", " 1/2", "1/2 ", "a/b",
        "1/-", "-/2", "1/+-2", "1.0/2", "\u{661}/2", "1/２"]
    {
        assert_eq!(parse_fraction(text), Err(ConvertError::Format), "{:?}", text);
        assert_eq!(fraction_to_decimal(text), Err(ConvertError::Format), "{:?}", text);
    }
}

#[test]
fn decimal_overflow_boundary() {
    // the part that does not repeat, as one number, is at most 2^63 - 1
    assert_eq!(
        decimal_to_fraction("9223372036854775807").unwrap(),
        "9223372036854775807"
    );
    assert_eq!(parse_decimal("9223372036854775808"), Err(ConvertError::Overflow));
    assert_eq!(
        decimal_to_fraction("922337203685477580.7").unwrap(),
        "9223372036854775807/10"
    );
    assert_eq!(parse_decimal("922337203685477580.8"), Err(ConvertError::Overflow));
    assert_eq!(parse_decimal("99999999999999999999999999"), Err(ConvertError::Overflow));
    // the denominator is at most 2^63 - 1: eighteen digits behind the point
    assert_eq!(
        decimal_to_fraction("0.000000000000000001").unwrap(),
        "1/1000000000000000000"
    );
    assert_eq!(parse_decimal("0.0000000000000000001"), Err(ConvertError::Overflow));
    assert_eq!(
        decimal_to_fraction("0.~000000000000000001").unwrap(),
        "1/999999999999999999"
    );
    assert_eq!(parse_decimal("0.~0000000000000000001"), Err(ConvertError::Overflow));
    assert_eq!(
        decimal_to_fraction("0.000000000~000000001").unwrap(),
        "1/999999999000000000"
    );
    assert_eq!(parse_decimal("0.0000000000~000000001"), Err(ConvertError::Overflow));
    // leading zeros of the integer part cost nothing
    assert_eq!(
        decimal_to_fraction("0000000000000000000000000000001.5").unwrap(),
        "3/2"
    );
    // a sum whose numerator needs more than 64 bits
    assert_eq!(
        decimal_to_fraction("9223372036854775807.~000000000000000001").unwrap(),
        "9223372036854775797776627963145224194/999999999999999999"
    );
    assert_eq!(
        decimal_to_fraction("922337203.~6854775807").unwrap(),
        "279496122300982988/303030303"
    );
}

#[test]
fn fraction_overflow_and_zero() {
    assert_eq!(parse_fraction("2147483647/-2147483648"), Ok((2147483647, -2147483648)));
    assert_eq!(parse_fraction("2147483648/1"), Err(ConvertError::Overflow));
    assert_eq!(parse_fraction("1/2147483648"), Err(ConvertError::Overflow));
    assert_eq!(parse_fraction("-2147483649/1"), Err(ConvertError::Overflow));
    assert_eq!(parse_fraction("99999999999999999999999/0"), Err(ConvertError::Overflow));
    assert_eq!(parse_fraction("1/0"), Ok((1, 0)));
    assert_eq!(fraction_to_decimal("1/0"), Err(ConvertError::DivideByZero));
    assert_eq!(fraction_to_decimal("0/0"), Err(ConvertError::DivideByZero));
    assert_eq!(fraction_to_decimal("1/-0"), Err(ConvertError::DivideByZero));
    assert_eq!(fraction_to_decimal("x/0"), Err(ConvertError::Format));
    assert_eq!(fraction_to_decimal("-2147483648/-1").unwrap(), "2147483648");
    assert_eq!(fraction_to_decimal("-2147483648/1").unwrap(), "-2147483648");
    assert_eq!(fraction_to_decimal("00000000000000000001/0000000000000000004").unwrap(), "0.25");
}

#[test]
fn format_decimal_examples() {
    assert_eq!(format_decimal(0, 7), "0");
    assert_eq!(format_decimal(7, 1), "7");
    assert_eq!(format_decimal(-7, 2), "-3.5");
    assert_eq!(format_decimal(1, 7), "0.142857142857142857...");
    assert_eq!(format_decimal(22, 7), "3.142857142857142857...");
    assert_eq!(format_decimal(1, 6), "0.1666...");
    assert_eq!(format_decimal(1, 12), "0.08333...");
    assert_eq!(format_decimal(1, 1024), "0.0009765625");
    assert_eq!(format_decimal(1, 1 << 30), "0.000000000931322574615478515625");
    assert_eq!(format_decimal(6, 4), "1.5");
    assert_eq!(format_decimal(2, 6), "0.333...");
    assert_eq!(format_decimal(1, 97).len(), 2 + 3 * 96 + 3);
}

#[test]
fn finite_decimals_round_trip() {
    for den in 1..=200i32 {
        for num in -50..=50i32 {
            if repeating_decimal::cycle::find_cyclic(num, den).is_none() {
                let text = format_decimal(num, den);
                assert_eq!(
                    parse_decimal(&text),
                    Ok(Rational::new(num as i64, den as i64)),
                    "{}/{} as {}",
                    num,
                    den,
                    text
                );
            }
        }
    }
}

#[test]
fn formatting_twice_gives_the_same_text() {
    for (num, den) in [(1, 2), (3, 8), (-7, 20), (123, 1000), (5, 1), (0, 3), (10, 4)] {
        let first = format_decimal(num, den);
        assert_eq!(format_decimal(num, den), first);
        let fraction = decimal_to_fraction(&first).unwrap();
        let fraction = if fraction.contains('/') { fraction } else { format!("{}/1", fraction) };
        assert_eq!(fraction_to_decimal(&fraction).unwrap(), first);
    }
}

#[test]
fn error_messages() {
    assert_eq!(ConvertError::Format.message(), "Error: Invalid format.");
    assert_eq!(ConvertError::Overflow.message(), "Error: Number too large.");
    assert_eq!(ConvertError::DivideByZero.message(), "Error: Divide by zero.");
}
