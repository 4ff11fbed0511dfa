//! The error taxonomy of the evaluation pipeline.

use vstd::prelude::*;

verus! {

/// A classified, terminal failure of the expression pipeline.
///
/// `InvalidToken` is a lexical failure (an unrecognized character or a
/// malformed numeric literal), `UnmatchedParens` a structural failure of
/// parenthesis nesting, `DivideByZero` a division with a zero right-hand
/// operand, `InvalidExpression` a structural failure found during postfix
/// evaluation, and `NotRepresentable` a value that falls outside the range
/// of the exact rational arithmetic.
#[derive(Debug, PartialEq)]
pub enum CalcError {
    InvalidToken(String),
    UnmatchedParens,
    DivideByZero,
    InvalidExpression(String),
    NotRepresentable,
}

impl CalcError {
    /// The message that `message` renders for this error.
    pub open spec fn spec_message(&self) -> Seq<char> {
        match self {
            CalcError::InvalidToken(t) => "Некорректный символ: "@ + t@,
            CalcError::UnmatchedParens => "Не совпадают скобки."@,
            CalcError::DivideByZero => "Деление на 0."@,
            CalcError::InvalidExpression(d) => "Некорректное выражение: "@ + d@,
            CalcError::NotRepresentable => "Значение не представимо."@,
        }
    }

    /// Renders the human-readable description of this error.
    pub fn message(&self) -> (r: String)
        ensures
            r@ == self.spec_message(),
    {
        match self {
            CalcError::InvalidToken(t) => {
                "Некорректный символ: ".to_owned().concat(t.as_str())
            },
            CalcError::UnmatchedParens => "Не совпадают скобки.".to_owned(),
            CalcError::DivideByZero => "Деление на 0.".to_owned(),
            CalcError::InvalidExpression(d) => {
                "Некорректное выражение: ".to_owned().concat(d.as_str())
            },
            CalcError::NotRepresentable => "Значение не представимо.".to_owned(),
        }
    }
}

} // verus!
