//! The parser: from tokens to the tree of operations, by recursive descent
//! with one token of lookahead.
//!
//! ```text
//! Expr    := Term AddTail
//! AddTail := ('+' | '-') Term AddTail | nothing
//! Term    := Factor MulTail
//! MulTail := ('*' | '/') Factor MulTail | nothing
//! Factor  := Number | '(' Expr ')' | '-' Number | '-' '(' Expr ')'
//! ```
use crate::error::{ErrorView, MexeError};
use crate::types::{Expr, ExprView, Operator, Token, TokenView};
use vstd::prelude::*;

verus! {

/// What a grammar rule yields: the tree of what it has read and the index
/// of the first token behind it, or an error.
pub type Parsed = Result<(ExprView, int), ErrorView>;

/// How far `pos` is from the end of `tokens`.
pub open spec fn remaining(tokens: Seq<TokenView>, pos: int) -> nat {
    if pos < tokens.len() {
        (tokens.len() - pos) as nat
    } else {
        0
    }
}

/// The operator that is the token of `tokens` at `pos`, if that token is
/// one.
pub open spec fn operator_at(tokens: Seq<TokenView>, pos: int) -> Option<Operator> {
    if 0 <= pos < tokens.len() && tokens[pos] is Op {
        Some(tokens[pos]->Op_0)
    } else {
        None
    }
}

/// A rule that was applied at `pos` must have read a token. A result that
/// says otherwise is the internal error.
pub open spec fn advancing(r: Parsed, pos: int) -> Parsed {
    match r {
        Ok((_, next)) if next <= pos => Err(ErrorView::InternalParserError),
        _ => r,
    }
}

/// The closing parenthesis that must follow `inner` at `pos`.
pub open spec fn closing(inner: ExprView, tokens: Seq<TokenView>, pos: int) -> Parsed {
    if pos < 0 || pos >= tokens.len() {
        Err(ErrorView::UnexpectedEndOfInput)
    } else if tokens[pos] is RPar {
        Ok((inner, pos + 1))
    } else {
        Err(ErrorView::UnexpectedToken(tokens[pos].text()))
    }
}

/// `Factor`: a number, an expression in parentheses, or the negation of
/// either.
pub open spec fn factor(tokens: Seq<TokenView>, pos: int) -> Parsed
    decreases remaining(tokens, pos), 0nat,
{
    if pos < 0 || pos >= tokens.len() {
        Err(ErrorView::UnexpectedEndOfInput)
    } else {
        match tokens[pos] {
            TokenView::Number(n) => Ok((ExprView::Number(n), pos + 1)),
            TokenView::LPar => match expr(tokens, pos + 1) {
                Ok((inner, next)) => closing(inner, tokens, next),
                Err(e) => Err(e),
            },
            TokenView::Op(Operator::Sub) => if pos + 1 < tokens.len() && tokens[pos + 1] is LPar {
                match expr(tokens, pos + 2) {
                    Ok((inner, next)) => closing(ExprView::Negate(Box::new(inner)), tokens, next),
                    Err(e) => Err(e),
                }
            } else if pos + 1 < tokens.len() && tokens[pos + 1] is Number {
                Ok((ExprView::Negate(Box::new(ExprView::Number(tokens[pos + 1]->Number_0))), pos + 2))
            } else {
                Err(ErrorView::UnexpectedToken(tokens[pos].text()))
            },
            _ => Err(ErrorView::UnexpectedToken(tokens[pos].text())),
        }
    }
}

/// `MulTail`: the factors that multiply or divide `left`, applied from left
/// to right.
pub open spec fn multerm(left: ExprView, tokens: Seq<TokenView>, pos: int) -> Parsed
    decreases remaining(tokens, pos), 1nat,
{
    if operator_at(tokens, pos) is Some && operator_at(tokens, pos)->0.is_multiplicative() {
        let op = operator_at(tokens, pos)->0;
        match advancing(factor(tokens, pos + 1), pos) {
            Ok((right, next)) => multerm(
                ExprView::Binary(Box::new(left), op, Box::new(right)),
                tokens,
                next,
            ),
            Err(e) => Err(e),
        }
    } else {
        Ok((left, pos))
    }
}

/// `Term`: a factor and what multiplies or divides it.
pub open spec fn term(tokens: Seq<TokenView>, pos: int) -> Parsed
    decreases remaining(tokens, pos), 2nat,
{
    match advancing(factor(tokens, pos), pos) {
        Ok((left, next)) => multerm(left, tokens, next),
        Err(e) => Err(e),
    }
}

/// `AddTail`: the terms that are added to `left` or subtracted from it,
/// applied from left to right.
pub open spec fn addexpr(left: ExprView, tokens: Seq<TokenView>, pos: int) -> Parsed
    decreases remaining(tokens, pos), 3nat,
{
    if operator_at(tokens, pos) is Some && operator_at(tokens, pos)->0.is_additive() {
        let op = operator_at(tokens, pos)->0;
        match advancing(term(tokens, pos + 1), pos) {
            Ok((right, next)) => addexpr(
                ExprView::Binary(Box::new(left), op, Box::new(right)),
                tokens,
                next,
            ),
            Err(e) => Err(e),
        }
    } else {
        Ok((left, pos))
    }
}

/// `Expr`: a term and what is added to it or subtracted from it.
pub open spec fn expr(tokens: Seq<TokenView>, pos: int) -> Parsed
    decreases remaining(tokens, pos), 4nat,
{
    match advancing(term(tokens, pos), pos) {
        Ok((left, next)) => addexpr(left, tokens, next),
        Err(e) => Err(e),
    }
}

/// Nothing but the end marker is left of `tokens` at `pos`.
pub open spec fn at_end(tokens: Seq<TokenView>, pos: int) -> bool {
    0 <= pos && pos + 1 == tokens.len() && tokens[pos] is EOI
}

/// The tree of the expression that `tokens` hold: one `Expr`, and behind it
/// the end marker and nothing else.
pub open spec fn parse(tokens: Seq<TokenView>) -> Result<ExprView, ErrorView> {
    match expr(tokens, 0) {
        Ok((tree, next)) => if at_end(tokens, next) {
            Ok(tree)
        } else if 0 <= next < tokens.len() {
            Err(ErrorView::UnexpectedToken(tokens[next].text()))
        } else {
            Err(ErrorView::UnexpectedEndOfInput)
        },
        Err(e) => Err(e),
    }
}

/// An error that parsing can end in: a token that does not fit, or the
/// lack of one.
pub open spec fn is_syntax_error(e: ErrorView) -> bool {
    e is UnexpectedToken || e is UnexpectedEndOfInput
}

/// A result that a rule of the grammar can have reached from `pos`: where
/// it is a tree, the rule has read at least `least` tokens and no more than
/// there are; where it is an error, it is one of syntax.
pub open spec fn reached(r: Parsed, tokens: Seq<TokenView>, pos: int, least: int) -> bool {
    match r {
        Ok((_, next)) => pos + least <= next && (next == pos || next <= tokens.len()),
        Err(e) => is_syntax_error(e),
    }
}

/// A `Factor` reads at least one token, and never more than there are.
pub proof fn lemma_factor_advances(tokens: Seq<TokenView>, pos: int)
    ensures
        reached(factor(tokens, pos), tokens, pos, 1),
    decreases remaining(tokens, pos), 0nat,
{
    if 0 <= pos < tokens.len() {
        if tokens[pos] is LPar {
            lemma_expr_advances(tokens, pos + 1);
        } else if pos + 1 < tokens.len() && tokens[pos + 1] is LPar {
            lemma_expr_advances(tokens, pos + 2);
        }
    }
}

/// A `MulTail` never reads more tokens than there are.
pub proof fn lemma_multerm_advances(left: ExprView, tokens: Seq<TokenView>, pos: int)
    ensures
        reached(multerm(left, tokens, pos), tokens, pos, 0),
    decreases remaining(tokens, pos), 1nat,
{
    if operator_at(tokens, pos) is Some && operator_at(tokens, pos)->0.is_multiplicative() {
        lemma_factor_advances(tokens, pos + 1);
        if let Ok((right, next)) = factor(tokens, pos + 1) {
            lemma_multerm_advances(
                ExprView::Binary(Box::new(left), operator_at(tokens, pos)->0, Box::new(right)),
                tokens,
                next,
            );
        }
    }
}

/// A `Term` reads at least one token, and never more than there are.
pub proof fn lemma_term_advances(tokens: Seq<TokenView>, pos: int)
    ensures
        reached(term(tokens, pos), tokens, pos, 1),
    decreases remaining(tokens, pos), 2nat,
{
    lemma_factor_advances(tokens, pos);
    if let Ok((left, next)) = factor(tokens, pos) {
        lemma_multerm_advances(left, tokens, next);
    }
}

/// An `AddTail` never reads more tokens than there are.
pub proof fn lemma_addexpr_advances(left: ExprView, tokens: Seq<TokenView>, pos: int)
    ensures
        reached(addexpr(left, tokens, pos), tokens, pos, 0),
    decreases remaining(tokens, pos), 3nat,
{
    if operator_at(tokens, pos) is Some && operator_at(tokens, pos)->0.is_additive() {
        lemma_term_advances(tokens, pos + 1);
        if let Ok((right, next)) = term(tokens, pos + 1) {
            lemma_addexpr_advances(
                ExprView::Binary(Box::new(left), operator_at(tokens, pos)->0, Box::new(right)),
                tokens,
                next,
            );
        }
    }
}

/// An `Expr` reads at least one token, and never more than there are.
pub proof fn lemma_expr_advances(tokens: Seq<TokenView>, pos: int)
    ensures
        reached(expr(tokens, pos), tokens, pos, 1),
    decreases remaining(tokens, pos), 4nat,
{
    lemma_term_advances(tokens, pos);
    if let Ok((left, next)) = term(tokens, pos) {
        lemma_addexpr_advances(left, tokens, next);
    }
}

/// Parsing fails only with `UnexpectedToken` or `UnexpectedEndOfInput`.
/// It never ends in the internal error: every rule of the grammar reads at
/// least one token where it succeeds.
pub proof fn lemma_parse_errors(tokens: Seq<TokenView>)
    ensures
        parse(tokens) matches Err(e) ==> is_syntax_error(e),
        parse(tokens) != Err::<ExprView, ErrorView>(ErrorView::InternalParserError),
{
    lemma_expr_advances(tokens, 0);
}

/// A result whose tree, where it is one, holds numbers only as they are
/// written.
pub open spec fn well_formed(r: Parsed) -> bool {
    r matches Ok((tree, _)) ==> tree.well_formed()
}

/// Every token is well formed.
pub open spec fn all_well_formed(tokens: Seq<TokenView>) -> bool {
    forall|k: int| 0 <= k < tokens.len() ==> (#[trigger] tokens[k]).well_formed()
}

/// A `Factor` of well-formed tokens is a well-formed tree.
pub proof fn lemma_factor_well_formed(tokens: Seq<TokenView>, pos: int)
    requires
        all_well_formed(tokens),
    ensures
        well_formed(factor(tokens, pos)),
    decreases remaining(tokens, pos), 0nat,
{
    if 0 <= pos < tokens.len() {
        assert(tokens[pos].well_formed());
        if tokens[pos] is LPar {
            lemma_expr_well_formed(tokens, pos + 1);
        } else if pos + 1 < tokens.len() {
            assert(tokens[pos + 1].well_formed());
            if tokens[pos + 1] is LPar {
                lemma_expr_well_formed(tokens, pos + 2);
                if let Ok((inner, _)) = expr(tokens, pos + 2) {
                    assert(ExprView::Negate(Box::new(inner)).well_formed());
                }
            } else if tokens[pos + 1] is Number {
                let inner = ExprView::Number(tokens[pos + 1]->Number_0);
                assert(inner.well_formed());
                assert(ExprView::Negate(Box::new(inner)).well_formed());
            }
        }
    }
}

/// A `MulTail` of well-formed tokens behind a well-formed tree is a
/// well-formed tree.
pub proof fn lemma_multerm_well_formed(left: ExprView, tokens: Seq<TokenView>, pos: int)
    requires
        all_well_formed(tokens),
        left.well_formed(),
    ensures
        well_formed(multerm(left, tokens, pos)),
    decreases remaining(tokens, pos), 1nat,
{
    if operator_at(tokens, pos) is Some && operator_at(tokens, pos)->0.is_multiplicative() {
        lemma_factor_well_formed(tokens, pos + 1);
        if let Ok((right, next)) = advancing(factor(tokens, pos + 1), pos) {
            lemma_multerm_well_formed(
                ExprView::Binary(Box::new(left), operator_at(tokens, pos)->0, Box::new(right)),
                tokens,
                next,
            );
        }
    }
}

/// A `Term` of well-formed tokens is a well-formed tree.
pub proof fn lemma_term_well_formed(tokens: Seq<TokenView>, pos: int)
    requires
        all_well_formed(tokens),
    ensures
        well_formed(term(tokens, pos)),
    decreases remaining(tokens, pos), 2nat,
{
    lemma_factor_well_formed(tokens, pos);
    if let Ok((left, next)) = advancing(factor(tokens, pos), pos) {
        lemma_multerm_well_formed(left, tokens, next);
    }
}

/// An `AddTail` of well-formed tokens behind a well-formed tree is a
/// well-formed tree.
pub proof fn lemma_addexpr_well_formed(left: ExprView, tokens: Seq<TokenView>, pos: int)
    requires
        all_well_formed(tokens),
        left.well_formed(),
    ensures
        well_formed(addexpr(left, tokens, pos)),
    decreases remaining(tokens, pos), 3nat,
{
    if operator_at(tokens, pos) is Some && operator_at(tokens, pos)->0.is_additive() {
        lemma_term_well_formed(tokens, pos + 1);
        if let Ok((right, next)) = advancing(term(tokens, pos + 1), pos) {
            lemma_addexpr_well_formed(
                ExprView::Binary(Box::new(left), operator_at(tokens, pos)->0, Box::new(right)),
                tokens,
                next,
            );
        }
    }
}

/// An `Expr` of well-formed tokens is a well-formed tree.
pub proof fn lemma_expr_well_formed(tokens: Seq<TokenView>, pos: int)
    requires
        all_well_formed(tokens),
    ensures
        well_formed(expr(tokens, pos)),
    decreases remaining(tokens, pos), 4nat,
{
    lemma_term_well_formed(tokens, pos);
    if let Ok((left, next)) = advancing(term(tokens, pos), pos) {
        lemma_addexpr_well_formed(left, tokens, next);
    }
}

/// The tree of well-formed tokens holds numbers only as they are written:
/// in the form `X` or `X.Y`.
pub proof fn lemma_parse_well_formed(tokens: Seq<TokenView>)
    requires
        all_well_formed(tokens),
    ensures
        parse(tokens) matches Ok(tree) ==> tree.well_formed(),
{
    lemma_expr_well_formed(tokens, 0);
}

/// What the result of a grammar rule stands for.
pub open spec fn parsed_view(r: Result<(Expr, usize), MexeError>) -> Parsed {
    match r {
        Ok((tree, next)) => Ok((tree@, next as int)),
        Err(e) => Err(e@),
    }
}

/// What the result of parsing stands for.
pub open spec fn tree_view(r: Result<Expr, MexeError>) -> Result<ExprView, ErrorView> {
    match r {
        Ok(tree) => Ok(tree@),
        Err(e) => Err(e@),
    }
}

/// The operator that is the token of `input` at `pos`, if that token is one.
fn operator_of(input: &[Token], pos: usize) -> (r: Option<Operator>)
    ensures
        r == operator_at(input.deep_view(), pos as int),
        r is Some ==> pos < input@.len() <= usize::MAX,
{
    if pos < input.len() {
        match &input[pos] {
            Token::Op(op) => Some(*op),
            _ => None,
        }
    } else {
        None
    }
}

/// Nothing but the end marker is left of `input` at `pos`.
fn is_over(input: &[Token], pos: usize) -> (r: bool)
    ensures
        r == at_end(input.deep_view(), pos as int),
{
    pos < input.len() && input.len() - pos == 1 && matches!(input[pos], Token::EOI)
}

/// The error for the token of `input` at `pos`, which the grammar does not
/// allow there.
fn unexpected(input: &[Token], pos: usize) -> (e: MexeError)
    requires
        pos < input@.len(),
    ensures
        e@ == ErrorView::UnexpectedToken(input.deep_view()[pos as int].text()),
{
    MexeError::UnexpectedToken(input[pos].text())
}

/// Reads the closing parenthesis that must follow `val` at `pos`.
fn ll_consume_rpar(val: Expr, input: &[Token], pos: usize) -> (r: Result<(Expr, usize), MexeError>)
    ensures
        parsed_view(r) == closing(val@, input.deep_view(), pos as int),
        r matches Ok((_, next)) ==> pos < next <= input@.len(),
{
    if pos >= input.len() {
        Err(MexeError::UnexpectedEndOfInput)
    } else {
        match &input[pos] {
            Token::RPar => Ok((val, pos + 1)),
            _ => Err(unexpected(input, pos)),
        }
    }
}

/// Reads a `Factor` at `pos`.
fn ll_parse_factor(input: &[Token], pos: usize) -> (r: Result<(Expr, usize), MexeError>)
    ensures
        parsed_view(r) == factor(input.deep_view(), pos as int),
        r matches Ok((_, next)) ==> pos < next <= input@.len(),
    decreases remaining(input.deep_view(), pos as int), 0nat,
{
    if pos >= input.len() {
        return Err(MexeError::UnexpectedEndOfInput);
    }
    match &input[pos] {
        Token::Number(n) => Ok((Expr::Number(n.clone()), pos + 1)),
        Token::LPar => match ll_parse_expr(input, pos + 1) {
            Ok((val, next)) => ll_consume_rpar(val, input, next),
            Err(e) => Err(e),
        },
        Token::Op(Operator::Sub) => {
            if pos + 1 < input.len() {
                match &input[pos + 1] {
                    Token::LPar => {
                        return match ll_parse_expr(input, pos + 2) {
                            Ok((val, next)) => ll_consume_rpar(
                                Expr::Negate(Box::new(val)),
                                input,
                                next,
                            ),
                            Err(e) => Err(e),
                        };
                    },
                    Token::Number(n) => {
                        let number = Expr::Number(n.clone());
                        assert(number@ == ExprView::Number(n@));
                        return Ok((Expr::Negate(Box::new(number)), pos + 2));
                    },
                    _ => {},
                }
            }
            Err(unexpected(input, pos))
        },
        _ => Err(unexpected(input, pos)),
    }
}

/// Reads a `MulTail` at `pos`, with `val` to its left.
fn ll_parse_multerm(val: Expr, input: &[Token], pos: usize) -> (r: Result<(Expr, usize), MexeError>)
    ensures
        parsed_view(r) == multerm(val@, input.deep_view(), pos as int),
        r matches Ok((_, next)) ==> pos <= next && (next == pos || next <= input@.len()),
    decreases remaining(input.deep_view(), pos as int), 1nat,
{
    let ghost tokens = input.deep_view();
    let ghost start = val@;
    let ghost goal = multerm(start, tokens, pos as int);
    let mut left = val;
    let mut at = pos;
    loop
        invariant
            tokens == input.deep_view(),
            tokens.len() == input@.len(),
            start == val@,
            goal == multerm(start, tokens, pos as int),
            multerm(left@, tokens, at as int) == goal,
            pos <= at,
            at == pos || at <= input@.len(),
        decreases remaining(tokens, at as int),
    {
        let found = operator_of(input, at);
        let op = match found {
            Some(Operator::Mul) => Operator::Mul,
            Some(Operator::Div) => Operator::Div,
            _ => {
                return Ok((left, at));
            },
        };
        match ll_parse_factor(input, at + 1) {
            Ok((right, next)) => {
                left = Expr::Binary(Box::new(left), op, Box::new(right));
                at = next;
            },
            Err(e) => {
                return Err(e);
            },
        }
    }
}

/// Reads a `Term` at `pos`.
fn ll_parse_term(input: &[Token], pos: usize) -> (r: Result<(Expr, usize), MexeError>)
    ensures
        parsed_view(r) == term(input.deep_view(), pos as int),
        r matches Ok((_, next)) ==> pos < next <= input@.len(),
    decreases remaining(input.deep_view(), pos as int), 2nat,
{
    match ll_parse_factor(input, pos) {
        Ok((val, next)) => ll_parse_multerm(val, input, next),
        Err(e) => Err(e),
    }
}

/// Reads an `AddTail` at `pos`, with `val` to its left.
fn ll_parse_addexpr(val: Expr, input: &[Token], pos: usize) -> (r: Result<(Expr, usize), MexeError>)
    ensures
        parsed_view(r) == addexpr(val@, input.deep_view(), pos as int),
        r matches Ok((_, next)) ==> pos <= next && (next == pos || next <= input@.len()),
    decreases remaining(input.deep_view(), pos as int), 3nat,
{
    let ghost tokens = input.deep_view();
    let ghost start = val@;
    let ghost goal = addexpr(start, tokens, pos as int);
    let mut left = val;
    let mut at = pos;
    loop
        invariant
            tokens == input.deep_view(),
            tokens.len() == input@.len(),
            start == val@,
            goal == addexpr(start, tokens, pos as int),
            addexpr(left@, tokens, at as int) == goal,
            pos <= at,
            at == pos || at <= input@.len(),
        decreases remaining(tokens, at as int),
    {
        let found = operator_of(input, at);
        let op = match found {
            Some(Operator::Add) => Operator::Add,
            Some(Operator::Sub) => Operator::Sub,
            _ => {
                return Ok((left, at));
            },
        };
        match ll_parse_term(input, at + 1) {
            Ok((right, next)) => {
                left = Expr::Binary(Box::new(left), op, Box::new(right));
                at = next;
            },
            Err(e) => {
                return Err(e);
            },
        }
    }
}

/// Reads an `Expr` at `pos`.
fn ll_parse_expr(input: &[Token], pos: usize) -> (r: Result<(Expr, usize), MexeError>)
    ensures
        parsed_view(r) == expr(input.deep_view(), pos as int),
        r matches Ok((_, next)) ==> pos < next <= input@.len(),
    decreases remaining(input.deep_view(), pos as int), 4nat,
{
    match ll_parse_term(input, pos) {
        Ok((val, next)) => ll_parse_addexpr(val, input, next),
        Err(e) => Err(e),
    }
}

/// Parses the tokens of one expression into the tree of its operations.
///
/// Multiplication and division bind tighter than addition and subtraction,
/// operators of one level apply from left to right, a minus sign directly
/// before a number or a parenthesis negates it, and parentheses group.
/// The tokens must hold one expression and then the end marker; the first
/// token that does not fit is reported as `UnexpectedToken` with its text,
/// and tokens that run out early as `UnexpectedEndOfInput`.
///
/// Calls nest as deep as the parentheses of the expression do, and no
/// deeper; there is no limit on that depth.
pub fn parse_and_evaluate(input: Vec<Token>) -> (r: Result<Expr, MexeError>)
    ensures
        tree_view(r) == parse(input.deep_view()),
{
    let tokens = input.as_slice();
    assert(tokens.deep_view() =~= input.deep_view());
    match ll_parse_expr(tokens, 0) {
        Ok((val, next)) => {
            if is_over(tokens, next) {
                Ok(val)
            } else if next < tokens.len() {
                Err(unexpected(tokens, next))
            } else {
                Err(MexeError::UnexpectedEndOfInput)
            }
        },
        Err(e) => Err(e),
    }
}

} // verus!
