//! The ways in which an expression can fail to evaluate.
use crate::text::{decimal, decimal_string};
use vstd::prelude::*;
use vstd::string::*;

verus! {

/// Any error that this library reports.
#[derive(Clone, Eq, PartialEq, Ord, PartialOrd, Hash, Debug)]
pub enum MexeError {
    /// A byte outside the alphabet of expressions, at the given index.
    InvalidCharacter(usize),
    /// The given byte, which is a point where no point may stand, at the
    /// given index.
    UnexpectedCharacter(u8, usize),
    /// A binary expression is a number, an operator and a number.
    InvalidBinaryExpression,
    /// A binary expression has something else where a number belongs.
    MissingOperand,
    /// A binary expression has something else where the operator belongs.
    MissingOperator,
    /// The token with the given text stands where the grammar does not
    /// allow it.
    UnexpectedToken(String),
    /// A grammar rule handed back a position that it cannot have reached.
    InternalParserError,
    /// The tokens ran out where the grammar asks for one more.
    UnexpectedEndOfInput,
}

/// The value of a `MexeError`.
pub enum ErrorView {
    InvalidCharacter(nat),
    UnexpectedCharacter(u8, nat),
    InvalidBinaryExpression,
    MissingOperand,
    MissingOperator,
    UnexpectedToken(Seq<char>),
    InternalParserError,
    UnexpectedEndOfInput,
}

impl View for MexeError {
    type V = ErrorView;

    open spec fn view(&self) -> ErrorView {
        match self {
            MexeError::InvalidCharacter(index) => ErrorView::InvalidCharacter(*index as nat),
            MexeError::UnexpectedCharacter(byte, index) => ErrorView::UnexpectedCharacter(
                *byte,
                *index as nat,
            ),
            MexeError::InvalidBinaryExpression => ErrorView::InvalidBinaryExpression,
            MexeError::MissingOperand => ErrorView::MissingOperand,
            MexeError::MissingOperator => ErrorView::MissingOperator,
            MexeError::UnexpectedToken(text) => ErrorView::UnexpectedToken(text@),
            MexeError::InternalParserError => ErrorView::InternalParserError,
            MexeError::UnexpectedEndOfInput => ErrorView::UnexpectedEndOfInput,
        }
    }
}

impl ErrorView {
    /// The error in words.
    pub open spec fn message(self) -> Seq<char> {
        match self {
            ErrorView::InvalidCharacter(index) => "Invalid character at index "@ + decimal(index),
            ErrorView::UnexpectedCharacter(_, index) => "Unexpected character at index "@ + decimal(
                index,
            ),
            ErrorView::InvalidBinaryExpression => "Invalid binary expression"@,
            ErrorView::MissingOperand => "Missing operand"@,
            ErrorView::MissingOperator => "Missing operator"@,
            ErrorView::UnexpectedToken(text) => "Unexpected token: `"@ + text + "`"@,
            ErrorView::InternalParserError => "Internal parser error"@,
            ErrorView::UnexpectedEndOfInput => "Unexpected end of input"@,
        }
    }
}

impl MexeError {
    /// The error in words.
    pub fn message(&self) -> (s: String)
        ensures
            s@ == self@.message(),
    {
        match self {
            MexeError::InvalidCharacter(index) => {
                let mut s = "Invalid character at index ".to_owned();
                s.append(decimal_string(*index).as_str());
                s
            },
            MexeError::UnexpectedCharacter(_, index) => {
                let mut s = "Unexpected character at index ".to_owned();
                s.append(decimal_string(*index).as_str());
                s
            },
            MexeError::InvalidBinaryExpression => "Invalid binary expression".to_owned(),
            MexeError::MissingOperand => "Missing operand".to_owned(),
            MexeError::MissingOperator => "Missing operator".to_owned(),
            MexeError::UnexpectedToken(text) => {
                let mut s = "Unexpected token: `".to_owned();
                s.append(text.as_str());
                s.append("`");
                s
            },
            MexeError::InternalParserError => "Internal parser error".to_owned(),
            MexeError::UnexpectedEndOfInput => "Unexpected end of input".to_owned(),
        }
    }
}

} // verus!
