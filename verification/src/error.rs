use vstd::prelude::*;

verus! {

/// Why a piece of text could not be read as an integer. The cases mirror the
/// ways std's integer parser fails, so callers can report the same diagnoses.
#[derive(Clone, Copy, Debug, Eq, PartialEq, Structural)]
pub enum IntErrorKind {
    /// The text was empty.
    Empty,
    /// A character that is not a decimal digit stood where one was expected.
    InvalidDigit,
    /// The number is too large to fit in the target type.
    PosOverflow,
    /// The number is too small to fit in the target type.
    NegOverflow,
}

/// Everything that can go wrong while reading a dice expression.
#[derive(Clone, Copy, Debug, Eq, PartialEq, Structural)]
pub enum ParseExpressionError {
    /// Empty dice expression: the dice-count/faces segment had no left-hand
    /// number.
    Empty,
    /// A failure to parse an integer, carrying the underlying cause.
    Int(IntErrorKind),
    /// A semantically nonsensical expression, such as a one-sided die.
    Invalid,
    /// Malformed dice expression: more than one `d` delimiter.
    TooManySegments,
}

impl IntErrorKind {
    /// The human-readable description of this cause.
    pub open spec fn message_spec(self) -> Seq<char> {
        match self {
            IntErrorKind::Empty => "cannot parse integer from empty string"@,
            IntErrorKind::InvalidDigit => "invalid digit found in string"@,
            IntErrorKind::PosOverflow => "number too large to fit in target type"@,
            IntErrorKind::NegOverflow => "number too small to fit in target type"@,
        }
    }

    /// Renders this cause for human readers.
    pub fn message(&self) -> (r: String)
        ensures
            r@ == self.message_spec(),
    {
        match self {
            IntErrorKind::Empty => "cannot parse integer from empty string".to_owned(),
            IntErrorKind::InvalidDigit => "invalid digit found in string".to_owned(),
            IntErrorKind::PosOverflow => "number too large to fit in target type".to_owned(),
            IntErrorKind::NegOverflow => "number too small to fit in target type".to_owned(),
        }
    }
}

impl ParseExpressionError {
    /// The human-readable description of this error.
    pub open spec fn message_spec(self) -> Seq<char> {
        match self {
            ParseExpressionError::Empty => "Empty expression"@,
            ParseExpressionError::Int(e) => e.message_spec(),
            ParseExpressionError::Invalid => "Huh?"@,
            ParseExpressionError::TooManySegments => "Expression has too many segments"@,
        }
    }

    /// Renders this error for human readers.
    pub fn message(&self) -> (r: String)
        ensures
            r@ == self.message_spec(),
    {
        match self {
            ParseExpressionError::Empty => "Empty expression".to_owned(),
            ParseExpressionError::Int(e) => e.message(),
            ParseExpressionError::Invalid => "Huh?".to_owned(),
            ParseExpressionError::TooManySegments => "Expression has too many segments".to_owned(),
        }
    }
}

} // verus!
