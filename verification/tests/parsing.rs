use dice::{Expression, IntErrorKind, ParseExpressionError};

#[test]
fn can_parse() {
    assert_eq!(
        Ok(Expression {
            num: 1,
            max: 6,
            modifier: 2,
            threshold: None,
        }),
        "6+2".parse()
    );

    assert_eq!(
        Ok(Expression {
            num: 2,
            max: 6,
            modifier: -2,
            threshold: None,
        }),
        "2d6-2".parse()
    );

    assert_eq!(
        Ok(Expression {
            num: 2,
            max: 6,
            modifier: 0,
            threshold: None,
        }),
        "2d6".parse()
    );
}

#[test]
fn can_parse_with_threshold() {
    assert_eq!(
        Ok(Expression {
            num: 2,
            max: 6,
            modifier: 0,
            threshold: Some(5),
        }),
        "2d6!5".parse()
    );

    assert_eq!(
        Ok(Expression {
            num: 2,
            max: 6,
            modifier: 2,
            threshold: Some(5),
        }),
        "2d6+2!5".parse()
    );

    assert_eq!(
        Ok(Expression {
            num: 2,
            max: 6,
            modifier: 2,
            threshold: Some(6),
        }),
        "2d6+2!".parse()
    );
}

#[test]
fn can_parse_uppercase_delimiter() {
    assert_eq!(
        Ok(Expression {
            num: 3,
            max: 8,
            modifier: 0,
            threshold: None,
        }),
        "3D8".parse()
    );
}

#[test]
fn bare_faces_zero_dice_and_sentinel_threshold() {
    // A bare number is one die with that many faces.
    assert_eq!(
        Ok(Expression {
            num: 1,
            max: 6,
            modifier: 0,
            threshold: None,
        }),
        "6".parse()
    );
    // Zero dice are not rejected.
    assert_eq!(
        Ok(Expression {
            num: 0,
            max: 6,
            modifier: 0,
            threshold: None,
        }),
        "0d6".parse()
    );
    // An explicit threshold of 0 resolves to the number of faces, exactly as
    // a bare `!` does.
    assert_eq!(
        Ok(Expression {
            num: 2,
            max: 6,
            modifier: 0,
            threshold: Some(6),
        }),
        "2d6!0".parse()
    );
    assert_eq!(
        Ok(Expression {
            num: 2,
            max: 6,
            modifier: 0,
            threshold: Some(6),
        }),
        "2d6!".parse()
    );
}

#[test]
fn malformed_inputs_report_their_error() {
    assert_eq!(
        Err::<Expression, _>(ParseExpressionError::Empty),
        "".parse::<Expression>()
    );
    assert_eq!(
        Err::<Expression, _>(ParseExpressionError::Empty),
        "d".parse::<Expression>()
    );
    assert_eq!(
        Err::<Expression, _>(ParseExpressionError::TooManySegments),
        "2d6d3".parse::<Expression>()
    );
    assert_eq!(
        Err::<Expression, _>(ParseExpressionError::Int(IntErrorKind::InvalidDigit)),
        "2dabc".parse::<Expression>()
    );
}

#[test]
fn parse_numbers() {
    assert_eq!(Ok(123), dice::digits::parse_usize("123"));
    assert_eq!(Ok(123), dice::digits::parse_usize("+123"));
    assert_eq!(Err(IntErrorKind::Empty), dice::digits::parse_usize(""));
    assert_eq!(Err(IntErrorKind::InvalidDigit), dice::digits::parse_usize("+"));
    assert_eq!(Err(IntErrorKind::InvalidDigit), dice::digits::parse_usize("12a"));
    assert_eq!(
        Err(IntErrorKind::PosOverflow),
        dice::digits::parse_usize("99999999999999999999999999")
    );

    assert_eq!(Ok(-42), dice::digits::parse_i32("-42"));
    assert_eq!(Ok(42), dice::digits::parse_i32("+42"));
    assert_eq!(Ok(i32::MIN), dice::digits::parse_i32("-2147483648"));
    assert_eq!(Ok(i32::MAX), dice::digits::parse_i32("2147483647"));
    assert_eq!(Err(IntErrorKind::NegOverflow), dice::digits::parse_i32("-2147483649"));
    assert_eq!(Err(IntErrorKind::PosOverflow), dice::digits::parse_i32("2147483648"));
    assert_eq!(Err(IntErrorKind::InvalidDigit), dice::digits::parse_i32("-"));
}

#[test]
fn error_messages() {
    assert_eq!("Empty expression", ParseExpressionError::Empty.message());
    assert_eq!("Huh?", ParseExpressionError::Invalid.message());
    assert_eq!(
        "Expression has too many segments",
        ParseExpressionError::TooManySegments.message()
    );
    assert_eq!(
        "invalid digit found in string",
        ParseExpressionError::Int(IntErrorKind::InvalidDigit).message()
    );
    assert_eq!(
        "cannot parse integer from empty string",
        IntErrorKind::Empty.message()
    );
}
