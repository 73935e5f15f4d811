//! Arithmetic expressions over decimal numbers, with `+`, `-`, `*`, `/`,
//! unary minus, parentheses and blanks: from the text of an expression to
//! the tree of the operations that it asks for.
//!
//! The tree holds the numbers as they are written. Carrying out its
//! operations in floating point is left to the caller.
pub mod error;
pub mod grammar;
pub mod lex;
pub mod lexical;
pub mod parser;
pub mod spacing;
pub mod text;
pub mod types;

pub use crate::error::MexeError;
pub use crate::types::{Expr, Literal, Operator, Token};

use crate::error::ErrorView;
use crate::lex::{get_tokens, in_alphabet, lemma_tokens_error, lemma_tokens_shape, tokens};
use crate::parser::{
    addexpr, expr, factor, is_syntax_error, lemma_parse_errors, lemma_parse_well_formed, multerm,
    operator_at, parse, parse_and_evaluate, term, tree_view,
};
use crate::text::POINT;
use crate::types::{ExprView, TokenView};
use vstd::prelude::*;
use vstd::string::*;

verus! {

/// What an expression evaluates to: the tree that its tokens parse to, or
/// the first error of the tokenizer or else of the parser.
pub open spec fn evaluation(text: Seq<u8>) -> Result<ExprView, ErrorView> {
    match tokens(text) {
        Ok(tokens) => parse(tokens),
        Err(e) => Err(e),
    }
}

/// The one operation that `tokens` hold, if they are a number, an operator,
/// a number and the end marker.
pub open spec fn binary_operation(tokens: Seq<TokenView>) -> Result<ExprView, ErrorView> {
    if tokens.len() != 4 || !(tokens[3] is EOI) {
        Err(ErrorView::InvalidBinaryExpression)
    } else if !(tokens[0] is Number) || !(tokens[2] is Number) {
        Err(ErrorView::MissingOperand)
    } else if !(tokens[1] is Op) {
        Err(ErrorView::MissingOperator)
    } else {
        Ok(
            ExprView::Binary(
                Box::new(ExprView::Number(tokens[0]->Number_0)),
                tokens[1]->Op_0,
                Box::new(ExprView::Number(tokens[2]->Number_0)),
            ),
        )
    }
}

/// What an expression evaluates to when it is taken as a single operation
/// between two numbers.
pub open spec fn binary_evaluation(text: Seq<u8>) -> Result<ExprView, ErrorView> {
    match tokens(text) {
        Ok(tokens) => binary_operation(tokens),
        Err(e) => Err(e),
    }
}

/// Evaluates an expression to the tree of its operations.
///
/// The expression can hold integers, decimal numbers in the form `X.Y`,
/// sums, subtractions, multiplications, divisions, negations and
/// parentheses. Blanks between tokens are ignored.
pub fn eval(expression: &str) -> (r: Result<Expr, MexeError>)
    ensures
        tree_view(r) == evaluation(expression.spec_bytes()),
        r matches Ok(tree) ==> tree@.well_formed(),
{
    proof {
        theorem_evaluation_numbers(expression.spec_bytes());
    }
    match get_tokens(expression) {
        Ok(tokens) => parse_and_evaluate(tokens),
        Err(e) => Err(e),
    }
}

/// The single operation that `tokens` hold.
pub fn binary_of(tokens: &[Token]) -> (r: Result<Expr, MexeError>)
    ensures
        tree_view(r) == binary_operation(tokens.deep_view()),
{
    if tokens.len() != 4 || !matches!(tokens[3], Token::EOI) {
        return Err(MexeError::InvalidBinaryExpression);
    }
    let lhs = match &tokens[0] {
        Token::Number(n) => n,
        _ => {
            return Err(MexeError::MissingOperand);
        },
    };
    let rhs = match &tokens[2] {
        Token::Number(n) => n,
        _ => {
            return Err(MexeError::MissingOperand);
        },
    };
    match &tokens[1] {
        Token::Op(op) => {
            let left = Expr::Number(lhs.clone());
            let right = Expr::Number(rhs.clone());
            assert(left@ == ExprView::Number(lhs@));
            assert(right@ == ExprView::Number(rhs@));
            Ok(Expr::Binary(Box::new(left), *op, Box::new(right)))
        },
        _ => Err(MexeError::MissingOperator),
    }
}

/// Evaluates an expression that is a single operation between two numbers,
/// without parentheses. Blanks between tokens are ignored.
///
/// Anything but three tokens is an `InvalidBinaryExpression`; a first or
/// third token that is no number is a `MissingOperand`; a second token
/// that is no operator is a `MissingOperator`.
pub fn eval_binary(expression: &str) -> (r: Result<Expr, MexeError>)
    ensures
        tree_view(r) == binary_evaluation(expression.spec_bytes()),
        r matches Ok(tree) ==> tree@.well_formed(),
{
    proof {
        theorem_evaluation_numbers(expression.spec_bytes());
    }
    match get_tokens(expression) {
        Ok(tokens) => {
            let slice = tokens.as_slice();
            assert(slice.deep_view() =~= tokens.deep_view());
            binary_of(slice)
        },
        Err(e) => Err(e),
    }
}

/// Tokens that are a single operation between two numbers parse to that
/// operation.
pub proof fn lemma_binary_operation_parses(tokens: Seq<TokenView>)
    requires
        binary_operation(tokens) is Ok,
    ensures
        parse(tokens) == binary_operation(tokens),
{
    let left = ExprView::Number(tokens[0]->Number_0);
    let right = ExprView::Number(tokens[2]->Number_0);
    let op = tokens[1]->Op_0;
    let tree = ExprView::Binary(Box::new(left), op, Box::new(right));
    assert(factor(tokens, 0) == Ok::<(ExprView, int), ErrorView>((left, 1)));
    assert(factor(tokens, 2) == Ok::<(ExprView, int), ErrorView>((right, 3)));
    assert(operator_at(tokens, 1) == Some(op));
    assert(operator_at(tokens, 3) is None);
    assert(multerm(tree, tokens, 3) == Ok::<(ExprView, int), ErrorView>((tree, 3)));
    assert(multerm(right, tokens, 3) == Ok::<(ExprView, int), ErrorView>((right, 3)));
    assert(addexpr(tree, tokens, 3) == Ok::<(ExprView, int), ErrorView>((tree, 3)));
    if op.is_multiplicative() {
        assert(multerm(left, tokens, 1) == Ok::<(ExprView, int), ErrorView>((tree, 3)));
        assert(term(tokens, 0) == Ok::<(ExprView, int), ErrorView>((tree, 3)));
    } else {
        assert(multerm(left, tokens, 1) == Ok::<(ExprView, int), ErrorView>((left, 1)));
        assert(term(tokens, 0) == Ok::<(ExprView, int), ErrorView>((left, 1)));
        assert(term(tokens, 2) == Ok::<(ExprView, int), ErrorView>((right, 3)));
        assert(addexpr(left, tokens, 1) == Ok::<(ExprView, int), ErrorView>((tree, 3)));
    }
    assert(expr(tokens, 0) == Ok::<(ExprView, int), ErrorView>((tree, 3)));
}

/// Whatever evaluates as a single operation between two numbers evaluates
/// to the same tree as an expression. An expression with a byte that no
/// token can hold fails both ways with the same error.
pub proof fn theorem_binary_agrees(text: Seq<u8>)
    ensures
        binary_evaluation(text) is Ok ==> evaluation(text) == binary_evaluation(text),
        tokens(text) is Err ==> evaluation(text) == binary_evaluation(text),
{
    if let Ok(found) = tokens(text) {
        if binary_operation(found) is Ok {
            lemma_binary_operation_parses(found);
        }
    }
}

/// What an expression evaluates to depends on nothing but its bytes: the
/// same text gives the same result, however often it is evaluated.
pub proof fn theorem_same_text_same_result(one: Seq<u8>, other: Seq<u8>)
    requires
        one =~= other,
    ensures
        tokens(one) == tokens(other),
        evaluation(one) == evaluation(other),
        binary_evaluation(one) == binary_evaluation(other),
{
}

/// An expression fails to evaluate only in these ways: with
/// `InvalidCharacter` at a byte outside the alphabet, with
/// `UnexpectedCharacter` at a point, with `UnexpectedToken`, or with
/// `UnexpectedEndOfInput`. It never fails with the internal error.
pub proof fn theorem_evaluation_errors(text: Seq<u8>)
    ensures
        evaluation(text) matches Err(e) ==> {
            ||| e matches ErrorView::InvalidCharacter(k) && k < text.len() && !in_alphabet(text[k as int])
            ||| e matches ErrorView::UnexpectedCharacter(c, k) && k < text.len() && c == POINT
                && text[k as int] == POINT
            ||| is_syntax_error(e)
        },
{
    lemma_tokens_error(text, 0);
    if let Ok(found) = tokens(text) {
        lemma_parse_errors(found);
    }
}

/// Every number in the tree that an expression evaluates to is written in
/// the form `X` or `X.Y`, with `X` and `Y` non-empty runs of digits.
pub proof fn theorem_evaluation_numbers(text: Seq<u8>)
    ensures
        evaluation(text) matches Ok(tree) ==> tree.well_formed(),
        binary_evaluation(text) matches Ok(tree) ==> tree.well_formed(),
{
    lemma_tokens_shape(text, 0);
    if let Ok(found) = tokens(text) {
        lemma_parse_well_formed(found);
        if let Ok(tree) = binary_operation(found) {
            assert(found[0].well_formed() && found[2].well_formed());
            assert(ExprView::Number(found[0]->Number_0).well_formed());
            assert(ExprView::Number(found[2]->Number_0).well_formed());
        }
    }
}

} // verus!
