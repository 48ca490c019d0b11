use repeating_decimal::{convert_line, decimal_to_fraction, fraction_to_decimal, ConvertError};

#[test]
fn a_slash_makes_a_fraction() {
    assert_eq!(convert_line("1/3").unwrap(), "0.333...");
    assert_eq!(convert_line("61111/4950").unwrap(), "12.34565656...");
    assert_eq!(convert_line("123/1000").unwrap(), "0.123");
    assert_eq!(convert_line("-1/-1").unwrap(), "1");
    assert_eq!(convert_line("1/0"), Err(ConvertError::DivideByZero));
    assert_eq!(convert_line("3000000000/1"), Err(ConvertError::Overflow));
    assert_eq!(convert_line("0.5/2"), Err(ConvertError::Format));
    assert_eq!(convert_line("/"), Err(ConvertError::Format));
}

#[test]
fn no_slash_makes_a_decimal() {
    assert_eq!(convert_line("0.~123").unwrap(), "41/333");
    assert_eq!(convert_line("4.~518").unwrap(), "122/27");
    assert_eq!(convert_line("123").unwrap(), "123");
    assert_eq!(convert_line("-1.~9").unwrap(), "-2");
    assert_eq!(convert_line("0.00000000000000000001"), Err(ConvertError::Overflow));
    assert_eq!(convert_line(""), Err(ConvertError::Format));
    assert_eq!(convert_line("one half"), Err(ConvertError::Format));
}

#[test]
fn text_beyond_ascii_is_no_number() {
    assert_eq!(convert_line("½"), Err(ConvertError::Format));
    assert_eq!(convert_line("1/２"), Err(ConvertError::Format));
    assert_eq!(convert_line("０.５"), Err(ConvertError::Format));
    assert_eq!(convert_line("1／2"), Err(ConvertError::Format));
}

#[test]
fn literal_scenarios() {
    assert_eq!(fraction_to_decimal("1/3").unwrap(), "0.333...");
    assert_eq!(fraction_to_decimal("61111/4950").unwrap(), "12.34565656...");
    assert_eq!(decimal_to_fraction("0.~123").unwrap(), "41/333");
    assert_eq!(decimal_to_fraction("4.~518").unwrap(), "122/27");
    assert_eq!(decimal_to_fraction("123").unwrap(), "123");
    assert_eq!(fraction_to_decimal("123/1000").unwrap(), "0.123");
}
