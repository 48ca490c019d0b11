use regex::Regex;
use repeating_decimal::decimal::{parse_literal, DigitRun};
use repeating_decimal::error::ConvertError;
use repeating_decimal::fraction::parse_fraction;

/// Every text of up to `len` characters over `alphabet`.
fn texts(alphabet: &[char], len: usize) -> Vec<String> {
    let mut all = vec![String::new()];
    let mut last = vec![String::new()];
    for _ in 0..len {
        let mut next = Vec::new();
        for t in &last {
            for c in alphabet {
                let mut u = t.clone();
                u.push(*c);
                next.push(u);
            }
        }
        all.extend(next.iter().cloned());
        last = next;
    }
    all
}

#[test]
fn decimal_grammar_is_the_documented_pattern() {
    let pattern = Regex::new(r"^[-+]?\d+\.?\d*(~\d+)?$").unwrap();
    for text in texts(&['-', '+', '0', '7', '.', '~', '/', ' '], 6) {
        let read = parse_literal(&text);
        assert_eq!(
            read != Err(ConvertError::Format),
            pattern.is_match(&text),
            "{:?}",
            text
        );
    }
}

#[test]
fn fraction_grammar_is_the_documented_pattern() {
    let pattern = Regex::new(r"^[-+]?\d+/[-+]?\d+$").unwrap();
    for text in texts(&['-', '+', '0', '7', '.', '~', '/', ' '], 6) {
        let read = parse_fraction(&text);
        assert_eq!(
            read != Err(ConvertError::Format),
            pattern.is_match(&text),
            "{:?}",
            text
        );
    }
}

#[test]
fn parts_of_a_literal() {
    let lit = parse_literal("-012.0340~0056").unwrap();
    assert!(lit.is_negative());
    assert_eq!(lit.integer(), 12);
    assert_eq!(lit.fraction(), Some(DigitRun { value: 340, count: 4 }));
    assert_eq!(lit.repeating(), Some(DigitRun { value: 56, count: 4 }));

    let lit = parse_literal("+5.").unwrap();
    assert!(!lit.is_negative());
    assert_eq!(lit.integer(), 5);
    assert_eq!(lit.fraction(), None);
    assert_eq!(lit.repeating(), None);

    let lit = parse_literal("5~1").unwrap();
    assert_eq!(lit.fraction(), None);
    assert_eq!(lit.repeating(), Some(DigitRun { value: 1, count: 1 }));
}

#[test]
fn literal_overflow_boundary() {
    assert_eq!(parse_literal("18446744073709551615").unwrap().integer(), u64::MAX);
    assert_eq!(parse_literal("18446744073709551616"), Err(ConvertError::Overflow));
    assert_eq!(parse_literal("0.18446744073709551616"), Err(ConvertError::Overflow));
    assert_eq!(parse_literal("0.~18446744073709551616"), Err(ConvertError::Overflow));
    assert_eq!(
        parse_literal("0.000000000000000000000000000001").unwrap().fraction(),
        Some(DigitRun { value: 1, count: 30 })
    );
    assert_eq!(parse_literal("18446744073709551616x"), Err(ConvertError::Format));
}
