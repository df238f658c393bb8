use resistor_calc::{ParseError, RBound, ROpBuilder};

#[test]
fn missing_operator_is_refused() {
    assert_eq!(
        RBound::parse("R1 + R2").unwrap_err(),
        ParseError::NoOperator
    );
    assert!(matches!(
        ROpBuilder::new().bound("R1 plus R2"),
        Err(ParseError::NoOperator)
    ));
}

#[test]
fn bad_expression_is_refused() {
    assert_eq!(
        RBound::parse("R1 $ R2 <= 100").unwrap_err(),
        ParseError::BadExpression
    );
    // An empty left side is not an expression either.
    assert_eq!(RBound::parse("<= 100").unwrap_err(), ParseError::BadExpression);
}

#[test]
fn bad_number_is_refused() {
    assert_eq!(
        RBound::parse("R1 <= ten").unwrap_err(),
        ParseError::BadNumber
    );
    // The target must be a number literal, not another expression.
    assert_eq!(RBound::parse("R1 == R2").unwrap_err(), ParseError::BadNumber);
    assert_eq!(RBound::parse("R1 <= ").unwrap_err(), ParseError::BadNumber);
}

#[test]
fn all_operators_parse() {
    for text in [
        "R1 <= 100",
        "R1 < 100",
        "R1 >= 100",
        "R1 > 100",
        "R1 == 100",
        "R1 != 100",
        "R1 ~ 100",
    ] {
        assert!(RBound::parse(text).is_ok(), "{}", text);
    }
}

#[test]
fn two_char_operators_win_over_prefixes() {
    // "<=" must be found as one token: splitting at "<" alone would leave
    // "= 100" as the target and fail.
    assert!(RBound::parse("R1 <= 100").is_ok());
    assert!(RBound::parse("R1>=1e4").is_ok());
}

#[test]
fn split_happens_at_first_occurrence() {
    // Splitting at the first "<" leaves "100 < 200" as the target text,
    // which is not a number literal.
    assert_eq!(
        RBound::parse("R1 < 100 < 200").unwrap_err(),
        ParseError::BadNumber
    );
}

#[test]
fn scientific_and_spaced_targets_parse() {
    assert!(RBound::parse("R1+R2+R3 <= 1e6").is_ok());
    assert!(RBound::parse("  0.8 * (1 + R1/R3)   ~   6.0  ").is_ok());
    assert!(RBound::parse("R1 ~ -2.5e-3").is_ok());
}

#[test]
fn builder_accumulates_and_reports_first_error() {
    let b = ROpBuilder::new()
        .bound("R1+R2+R3 <= 1e6")
        .unwrap()
        .bound("R1+R2+R3 >= 1e4")
        .unwrap()
        .bound("0.8 * (1 + R1/R3) ~ 6.0")
        .unwrap();
    // A later malformed bound surfaces its own error.
    assert_eq!(b.bound("oops").unwrap_err(), ParseError::NoOperator);
}
