//! The grammar of expressions, stated for its own sake, and the proof that
//! the parser accepts exactly what the grammar derives, with the tree that
//! the grammar gives it.
//!
//! ```text
//! Expr   := Term   | Expr ('+' | '-') Term
//! Term   := Factor | Term ('*' | '/') Factor
//! Factor := Number | '-' Number | '(' Expr ')' | '-' '(' Expr ')'
//! ```
//!
//! The rules for `Expr` and `Term` recurse on the left: operators of one
//! level group from left to right. `Term` stands below `Expr`:
//! multiplication and division bind tighter than addition and subtraction.
use crate::error::ErrorView;
use crate::evaluation;
use crate::lex::{lemma_tokens_shape, tokens};
use crate::parser::{
    addexpr, expr, factor, lemma_expr_advances, lemma_factor_advances, lemma_term_advances,
    multerm, operator_at, parse, remaining, term,
};
use crate::types::{ExprView, Operator, TokenView};
use vstd::prelude::*;

verus! {

/// The grammar derives `tokens` as a `Factor` with the tree `tree`.
pub open spec fn is_factor(tokens: Seq<TokenView>, tree: ExprView) -> bool
    decreases tokens.len(), 0nat,
{
    let n = tokens.len() as int;
    ||| n == 1 && tokens[0] is Number && tree == ExprView::Number(tokens[0]->Number_0)
    ||| n == 2 && tokens[0] == TokenView::Op(Operator::Sub) && tokens[1] is Number && tree
        == ExprView::Negate(Box::new(ExprView::Number(tokens[1]->Number_0)))
    ||| n >= 2 && tokens[0] is LPar && tokens[n - 1] is RPar && is_expr(tokens.subrange(1, n - 1), tree)
    ||| n >= 3 && tokens[0] == TokenView::Op(Operator::Sub) && tokens[1] is LPar && tokens[n - 1] is RPar
        && tree is Negate && is_expr(tokens.subrange(2, n - 1), *tree->Negate_0)
}

/// The grammar derives `tokens` as a `Term` with the tree `tree`.
pub open spec fn is_term(tokens: Seq<TokenView>, tree: ExprView) -> bool
    decreases tokens.len(), 1nat,
{
    let n = tokens.len() as int;
    ||| is_factor(tokens, tree)
    ||| tree is Binary && tree->Binary_1.is_multiplicative() && exists|k: int|
        0 < k < n - 1 && #[trigger] tokens[k] == TokenView::Op(tree->Binary_1) && is_term(
            tokens.subrange(0, k),
            *tree->Binary_0,
        ) && is_factor(tokens.subrange(k + 1, n), *tree->Binary_2)
}

/// The grammar derives `tokens` as an `Expr` with the tree `tree`.
pub open spec fn is_expr(tokens: Seq<TokenView>, tree: ExprView) -> bool
    decreases tokens.len(), 2nat,
{
    let n = tokens.len() as int;
    ||| is_term(tokens, tree)
    ||| tree is Binary && tree->Binary_1.is_additive() && exists|k: int|
        0 < k < n - 1 && #[trigger] tokens[k] == TokenView::Op(tree->Binary_1) && is_expr(
            tokens.subrange(0, k),
            *tree->Binary_0,
        ) && is_term(tokens.subrange(k + 1, n), *tree->Binary_2)
}

/// Whatever the grammar derives holds at least one token.
pub proof fn lemma_derived_nonempty(tokens: Seq<TokenView>, tree: ExprView)
    ensures
        is_factor(tokens, tree) ==> tokens.len() >= 1,
        is_term(tokens, tree) ==> tokens.len() >= 1,
        is_expr(tokens, tree) ==> tokens.len() >= 1,
{
    assert(is_factor(tokens, tree) ==> tokens.len() >= 1);
    assert(is_term(tokens, tree) ==> tokens.len() >= 1);
}

/// No operator of the higher level stands at `pos`.
pub open spec fn term_ends(tokens: Seq<TokenView>, pos: int) -> bool {
    !(operator_at(tokens, pos) is Some && operator_at(tokens, pos)->0.is_multiplicative())
}

/// Where `part` stands in `tokens` from `start` on and is a `Factor`, the
/// parser reads it as that factor.
pub proof fn lemma_factor_complete(
    part: Seq<TokenView>,
    tree: ExprView,
    tokens: Seq<TokenView>,
    start: int,
)
    requires
        is_factor(part, tree),
        0 <= start,
        start + part.len() <= tokens.len(),
        tokens.subrange(start, start + part.len()) == part,
    ensures
        factor(tokens, start) == Ok::<(ExprView, int), ErrorView>((tree, start + part.len())),
    decreases part.len(), 0nat,
{
    let n = part.len() as int;
    assert(forall|j: int| 0 <= j < n ==> part[j] == tokens[start + j]) by {
        assert forall|j: int| 0 <= j < n implies part[j] == tokens[start + j] by {
            assert(tokens.subrange(start, start + n)[j] == tokens[start + j]);
        }
    }
    if n == 1 && part[0] is Number {
    } else if n == 2 && part[0] == TokenView::Op(Operator::Sub) && part[1] is Number {
    } else if n >= 2 && part[0] is LPar && part[n - 1] is RPar && is_expr(part.subrange(1, n - 1), tree) {
        let inner = part.subrange(1, n - 1);
        assert(tokens.subrange(start + 1, start + 1 + inner.len()) =~= inner);
        lemma_expr_complete(inner, tree, tokens, start + 1);
    } else {
        let inner = part.subrange(2, n - 1);
        assert(tokens.subrange(start + 2, start + 2 + inner.len()) =~= inner);
        lemma_expr_complete(inner, *tree->Negate_0, tokens, start + 2);
    }
}

/// Where `part` stands in `tokens` from `start` on and is a `Term`, the
/// parser reads it as that term and goes on behind it.
pub proof fn lemma_term_complete(
    part: Seq<TokenView>,
    tree: ExprView,
    tokens: Seq<TokenView>,
    start: int,
)
    requires
        is_term(part, tree),
        0 <= start,
        start + part.len() <= tokens.len(),
        tokens.subrange(start, start + part.len()) == part,
    ensures
        term(tokens, start) == multerm(tree, tokens, start + part.len()),
    decreases part.len(), 1nat,
{
    let n = part.len() as int;
    if is_factor(part, tree) {
        lemma_factor_complete(part, tree, tokens, start);
        lemma_derived_nonempty(part, tree);
    } else {
        let op = tree->Binary_1;
        let k = choose|k: int|
            0 < k < n - 1 && #[trigger] part[k] == TokenView::Op(op) && is_term(
                part.subrange(0, k),
                *tree->Binary_0,
            ) && is_factor(part.subrange(k + 1, n), *tree->Binary_2);
        let left = part.subrange(0, k);
        let right = part.subrange(k + 1, n);
        assert(tokens.subrange(start, start + left.len()) =~= left);
        assert(tokens.subrange(start + k + 1, start + k + 1 + right.len()) =~= right);
        assert(tokens.subrange(start, start + n)[k] == tokens[start + k]);
        lemma_term_complete(left, *tree->Binary_0, tokens, start);
        lemma_factor_complete(right, *tree->Binary_2, tokens, start + k + 1);
        assert(operator_at(tokens, start + k) == Some(op));
    }
}

/// Where `part` stands in `tokens` from `start` on and is an `Expr`, and no
/// operator of the higher level follows it, the parser reads it as that
/// expression and goes on behind it.
pub proof fn lemma_expr_complete(
    part: Seq<TokenView>,
    tree: ExprView,
    tokens: Seq<TokenView>,
    start: int,
)
    requires
        is_expr(part, tree),
        0 <= start,
        start + part.len() <= tokens.len(),
        tokens.subrange(start, start + part.len()) == part,
        term_ends(tokens, start + part.len()),
    ensures
        expr(tokens, start) == addexpr(tree, tokens, start + part.len()),
    decreases part.len(), 2nat,
{
    let n = part.len() as int;
    if is_term(part, tree) {
        lemma_term_complete(part, tree, tokens, start);
        lemma_derived_nonempty(part, tree);
    } else {
        let op = tree->Binary_1;
        let k = choose|k: int|
            0 < k < n - 1 && #[trigger] part[k] == TokenView::Op(op) && is_expr(
                part.subrange(0, k),
                *tree->Binary_0,
            ) && is_term(part.subrange(k + 1, n), *tree->Binary_2);
        let left = part.subrange(0, k);
        let right = part.subrange(k + 1, n);
        assert(tokens.subrange(start, start + left.len()) =~= left);
        assert(tokens.subrange(start + k + 1, start + k + 1 + right.len()) =~= right);
        assert(tokens.subrange(start, start + n)[k] == tokens[start + k]);
        assert(operator_at(tokens, start + k) == Some(op));
        lemma_expr_complete(left, *tree->Binary_0, tokens, start);
        lemma_term_complete(right, *tree->Binary_2, tokens, start + k + 1);
        lemma_derived_nonempty(right, *tree->Binary_2);
    }
}

/// Every expression of the grammar parses, and to the tree that the
/// grammar gives it.
pub proof fn theorem_parse_complete(tokens: Seq<TokenView>, tree: ExprView)
    requires
        is_expr(tokens, tree),
    ensures
        parse(tokens.push(TokenView::EOI)) == Ok::<ExprView, ErrorView>(tree),
{
    let all = tokens.push(TokenView::EOI);
    assert(all.subrange(0, tokens.len() as int) =~= tokens);
    lemma_expr_complete(tokens, tree, all, 0);
    lemma_derived_nonempty(tokens, tree);
}

/// What the parser reads as a `Factor` is one.
pub proof fn lemma_factor_sound(tokens: Seq<TokenView>, pos: int)
    ensures
        factor(tokens, pos) matches Ok((tree, next)) ==> is_factor(tokens.subrange(pos, next), tree),
    decreases remaining(tokens, pos), 0nat,
{
    lemma_factor_advances(tokens, pos);
    if let Ok((tree, next)) = factor(tokens, pos) {
        let part = tokens.subrange(pos, next);
        if tokens[pos] is LPar {
            lemma_expr_advances(tokens, pos + 1);
            lemma_expr_sound(tokens, pos + 1);
            assert(part.subrange(1, part.len() - 1) =~= tokens.subrange(pos + 1, next - 1));
        } else if tokens[pos] is Op && tokens[pos + 1] is LPar {
            lemma_expr_advances(tokens, pos + 2);
            lemma_expr_sound(tokens, pos + 2);
            assert(part.subrange(2, part.len() - 1) =~= tokens.subrange(pos + 2, next - 1));
        }
    }
}

/// What the parser reads as a `MulTail` behind a `Term` makes a `Term`
/// with it.
pub proof fn lemma_multerm_sound(left: ExprView, tokens: Seq<TokenView>, start: int, pos: int)
    requires
        0 <= start < pos <= tokens.len(),
        is_term(tokens.subrange(start, pos), left),
    ensures
        multerm(left, tokens, pos) matches Ok((tree, next)) ==> is_term(
            tokens.subrange(start, next),
            tree,
        ),
    decreases remaining(tokens, pos), 1nat,
{
    if operator_at(tokens, pos) is Some && operator_at(tokens, pos)->0.is_multiplicative() {
        let op = operator_at(tokens, pos)->0;
        lemma_factor_advances(tokens, pos + 1);
        lemma_factor_sound(tokens, pos + 1);
        if let Ok((right, next)) = factor(tokens, pos + 1) {
            let tree = ExprView::Binary(Box::new(left), op, Box::new(right));
            let part = tokens.subrange(start, next);
            let k = pos - start;
            assert(part.subrange(0, k) =~= tokens.subrange(start, pos));
            assert(part.subrange(k + 1, part.len() as int) =~= tokens.subrange(pos + 1, next));
            assert(part[k] == TokenView::Op(op));
            assert(is_term(part, tree));
            lemma_multerm_sound(tree, tokens, start, next);
        }
    }
}

/// What the parser reads as a `Term` is one.
pub proof fn lemma_term_sound(tokens: Seq<TokenView>, pos: int)
    ensures
        term(tokens, pos) matches Ok((tree, next)) ==> is_term(tokens.subrange(pos, next), tree),
    decreases remaining(tokens, pos), 2nat,
{
    lemma_factor_advances(tokens, pos);
    lemma_factor_sound(tokens, pos);
    if let Ok((left, next)) = factor(tokens, pos) {
        lemma_multerm_sound(left, tokens, pos, next);
    }
}

/// What the parser reads as an `AddTail` behind an `Expr` makes an `Expr`
/// with it.
pub proof fn lemma_addexpr_sound(left: ExprView, tokens: Seq<TokenView>, start: int, pos: int)
    requires
        0 <= start < pos <= tokens.len(),
        is_expr(tokens.subrange(start, pos), left),
    ensures
        addexpr(left, tokens, pos) matches Ok((tree, next)) ==> is_expr(
            tokens.subrange(start, next),
            tree,
        ),
    decreases remaining(tokens, pos), 3nat,
{
    if operator_at(tokens, pos) is Some && operator_at(tokens, pos)->0.is_additive() {
        let op = operator_at(tokens, pos)->0;
        lemma_term_advances(tokens, pos + 1);
        lemma_term_sound(tokens, pos + 1);
        if let Ok((right, next)) = term(tokens, pos + 1) {
            let tree = ExprView::Binary(Box::new(left), op, Box::new(right));
            let part = tokens.subrange(start, next);
            let k = pos - start;
            assert(part.subrange(0, k) =~= tokens.subrange(start, pos));
            assert(part.subrange(k + 1, part.len() as int) =~= tokens.subrange(pos + 1, next));
            assert(part[k] == TokenView::Op(op));
            assert(is_expr(part, tree));
            lemma_addexpr_sound(tree, tokens, start, next);
        }
    }
}

/// What the parser reads as an `Expr` is one.
pub proof fn lemma_expr_sound(tokens: Seq<TokenView>, pos: int)
    ensures
        expr(tokens, pos) matches Ok((tree, next)) ==> is_expr(tokens.subrange(pos, next), tree),
    decreases remaining(tokens, pos), 4nat,
{
    lemma_term_advances(tokens, pos);
    lemma_term_sound(tokens, pos);
    if let Ok((left, next)) = term(tokens, pos) {
        lemma_addexpr_sound(left, tokens, pos, next);
    }
}

/// Whatever parses is an expression of the grammar, followed by the end
/// marker, and the grammar gives it the tree that parsing yields.
pub proof fn theorem_parse_sound(tokens: Seq<TokenView>, tree: ExprView)
    requires
        parse(tokens) == Ok::<ExprView, ErrorView>(tree),
    ensures
        tokens.len() >= 2,
        tokens.last() is EOI,
        is_expr(tokens.drop_last(), tree),
{
    lemma_expr_advances(tokens, 0);
    lemma_expr_sound(tokens, 0);
    assert(tokens.drop_last() =~= tokens.subrange(0, tokens.len() - 1));
}

/// The parser accepts exactly the expressions of the grammar, each with the
/// tree that the grammar gives it: the tree that has multiplication and
/// division below addition and subtraction, and the operators of one level
/// grouped from left to right.
pub proof fn theorem_parse_is_grammar(tokens: Seq<TokenView>, tree: ExprView)
    ensures
        parse(tokens) == Ok::<ExprView, ErrorView>(tree) <==> tokens.len() >= 1 && tokens.last()
            is EOI && is_expr(tokens.drop_last(), tree),
{
    if parse(tokens) == Ok::<ExprView, ErrorView>(tree) {
        theorem_parse_sound(tokens, tree);
    }
    if tokens.len() >= 1 && tokens.last() is EOI && is_expr(tokens.drop_last(), tree) {
        theorem_parse_complete(tokens.drop_last(), tree);
        assert(tokens.drop_last().push(TokenView::EOI) =~= tokens);
    }
}

/// The grammar is unambiguous: it gives a sequence of tokens at most one
/// tree.
pub proof fn theorem_grammar_unambiguous(tokens: Seq<TokenView>, one: ExprView, other: ExprView)
    requires
        is_expr(tokens, one),
        is_expr(tokens, other),
    ensures
        one == other,
{
    theorem_parse_complete(tokens, one);
    theorem_parse_complete(tokens, other);
}

/// An expression evaluates to a tree exactly if its tokens are an
/// expression of the grammar, and then to the tree that the grammar gives
/// them.
pub proof fn theorem_evaluation_is_grammar(text: Seq<u8>, tree: ExprView)
    ensures
        evaluation(text) == Ok::<ExprView, ErrorView>(tree) <==> (tokens(text) matches Ok(found)
            && is_expr(found.drop_last(), tree)),
{
    lemma_tokens_shape(text, 0);
    if let Ok(found) = tokens(text) {
        theorem_parse_is_grammar(found, tree);
    }
}

} // verus!
