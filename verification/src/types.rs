//! Operators, number literals, tokens and operation trees, each with the
//! mathematical value that contracts speak of.
use crate::text::{
    ascii_chars, digits_end, is_literal, lemma_literal_bytes, number_string, MINUS, NINE, PLUS, POINT,
    SLASH, STAR, ZERO,
};
use vstd::prelude::*;
use vstd::slice::*;

verus! {

/// One of the four binary operators.
#[derive(Clone, Copy, Debug, PartialEq, Eq, Structural)]
pub enum Operator {
    Add,
    Sub,
    Mul,
    Div,
}

impl Operator {
    /// The single byte that stands for the operator in an expression.
    pub open spec fn spec_symbol(self) -> u8 {
        match self {
            Operator::Add => PLUS,
            Operator::Sub => MINUS,
            Operator::Mul => STAR,
            Operator::Div => SLASH,
        }
    }

    /// The operator as it is written in messages.
    pub open spec fn text(self) -> Seq<char> {
        match self {
            Operator::Add => "+"@,
            Operator::Sub => "-"@,
            Operator::Mul => "*"@,
            Operator::Div => "/"@,
        }
    }

    /// `+` and `-`: the operators of the lower precedence level.
    pub open spec fn is_additive(self) -> bool {
        self == Operator::Add || self == Operator::Sub
    }

    /// `*` and `/`: the operators of the higher precedence level.
    pub open spec fn is_multiplicative(self) -> bool {
        self == Operator::Mul || self == Operator::Div
    }

    /// The single byte that stands for the operator in an expression.
    #[verifier::when_used_as_spec(spec_symbol)]
    pub fn symbol(self) -> (b: u8)
        ensures
            b == self.spec_symbol(),
    {
        match self {
            Operator::Add => PLUS,
            Operator::Sub => MINUS,
            Operator::Mul => STAR,
            Operator::Div => SLASH,
        }
    }

    /// The operator as it is written in messages.
    pub fn as_str(self) -> (r: &'static str)
        ensures
            r@ == self.text(),
    {
        match self {
            Operator::Add => "+",
            Operator::Sub => "-",
            Operator::Mul => "*",
            Operator::Div => "/",
        }
    }
}

/// Counts the digits of `bytes` from `start` on.
fn scan_digits(bytes: &[u8], start: usize) -> (end: usize)
    requires
        start <= bytes@.len(),
    ensures
        end == digits_end(bytes@, start as int),
        start <= end <= bytes@.len(),
{
    let mut end = start;
    while end < bytes.len() && ZERO <= bytes[end] && bytes[end] <= NINE
        invariant
            start <= end <= bytes@.len(),
            digits_end(bytes@, start as int) == digits_end(bytes@, end as int),
        decreases bytes@.len() - end,
    {
        end += 1;
    }
    end
}

/// A number as it is written: `X` or `X.Y`, with `X` and `Y` non-empty runs
/// of decimal digits. Its value is the sequence of its bytes.
#[derive(Debug, PartialEq, Eq)]
pub struct Literal {
    text: Vec<u8>,
}

impl View for Literal {
    type V = Seq<u8>;

    closed spec fn view(&self) -> Seq<u8> {
        self.text@
    }
}

impl Literal {
    #[verifier::type_invariant]
    spec fn well_formed(self) -> bool {
        is_literal(self.text@)
    }

    /// Takes `text` as a number if it is written as one.
    pub fn new(text: Vec<u8>) -> (r: Option<Literal>)
        ensures
            r is Some <==> is_literal(text@),
            r matches Some(l) ==> l@ == text@,
    {
        let n = text.len();
        let whole = scan_digits(text.as_slice(), 0);
        if whole == 0 {
            None
        } else if whole == n {
            Some(Literal { text })
        } else if text[whole] != POINT || whole + 1 >= n {
            None
        } else if scan_digits(text.as_slice(), whole + 1) == n {
            Some(Literal { text })
        } else {
            None
        }
    }

    /// The number that the bytes of `source` from `start` up to `end` spell.
    pub(crate) fn from_span(source: &[u8], start: usize, end: usize) -> (l: Literal)
        requires
            start <= end <= source@.len(),
            is_literal(source@.subrange(start as int, end as int)),
        ensures
            l@ == source@.subrange(start as int, end as int),
    {
        Literal { text: slice_to_vec(slice_subrange(source, start, end)) }
    }

    /// The bytes of the number. They are digits, with at most one point
    /// that stands between two digits.
    pub fn as_bytes(&self) -> (r: &[u8])
        ensures
            r@ == self@,
            is_literal(self@),
    {
        proof {
            use_type_invariant(self);
        }
        self.text.as_slice()
    }

    /// The number as it is written.
    pub fn text(&self) -> (s: String)
        ensures
            s@ == ascii_chars(self@),
    {
        proof {
            use_type_invariant(self);
            lemma_literal_bytes(self.text@);
        }
        number_string(self.text.as_slice())
    }
}

impl Clone for Literal {
    fn clone(&self) -> (r: Self)
        ensures
            r@ == self@,
    {
        proof {
            use_type_invariant(self);
        }
        Literal { text: slice_to_vec(self.text.as_slice()) }
    }
}

/// An indivisible unit of an expression.
#[derive(Clone, Debug, PartialEq, Eq)]
pub enum Token {
    LPar,
    RPar,
    Number(Literal),
    Op(Operator),
    /// The end of the input.
    EOI,
}

/// The value of a `Token`.
pub enum TokenView {
    LPar,
    RPar,
    Number(Seq<u8>),
    Op(Operator),
    EOI,
}

impl TokenView {
    /// The token as it is written in messages.
    pub open spec fn text(self) -> Seq<char> {
        match self {
            TokenView::LPar => "("@,
            TokenView::RPar => ")"@,
            TokenView::Number(l) => ascii_chars(l),
            TokenView::Op(op) => op.text(),
            TokenView::EOI => "EOI"@,
        }
    }

    /// A number token is written as a number.
    pub open spec fn well_formed(self) -> bool {
        self matches TokenView::Number(l) ==> is_literal(l)
    }
}

impl View for Token {
    type V = TokenView;

    open spec fn view(&self) -> TokenView {
        match self {
            Token::LPar => TokenView::LPar,
            Token::RPar => TokenView::RPar,
            Token::Number(l) => TokenView::Number(l@),
            Token::Op(op) => TokenView::Op(*op),
            Token::EOI => TokenView::EOI,
        }
    }
}

impl DeepView for Token {
    type V = TokenView;

    open spec fn deep_view(&self) -> TokenView {
        self@
    }
}

impl Token {
    /// The token as it is written in messages.
    pub fn text(&self) -> (s: String)
        ensures
            s@ == self@.text(),
    {
        match self {
            Token::LPar => "(".to_owned(),
            Token::RPar => ")".to_owned(),
            Token::Number(l) => l.text(),
            Token::Op(op) => op.as_str().to_owned(),
            Token::EOI => "EOI".to_owned(),
        }
    }
}

/// The operations that an expression asks for, as a tree: what is left of
/// the expression once precedence, associativity and parentheses are
/// resolved.
#[derive(Debug, PartialEq, Eq)]
pub enum Expr {
    /// A number.
    Number(Literal),
    /// The negation of the operand.
    Negate(Box<Expr>),
    /// The left operand, the operator and the right operand.
    Binary(Box<Expr>, Operator, Box<Expr>),
}

/// The value of an `Expr`.
pub enum ExprView {
    Number(Seq<u8>),
    Negate(Box<ExprView>),
    Binary(Box<ExprView>, Operator, Box<ExprView>),
}

impl ExprView {
    /// Every number in the tree is written as a number.
    pub open spec fn well_formed(self) -> bool
        decreases self,
    {
        match self {
            ExprView::Number(l) => is_literal(l),
            ExprView::Negate(e) => e.well_formed(),
            ExprView::Binary(l, _, r) => l.well_formed() && r.well_formed(),
        }
    }
}

impl Expr {
    /// The value of the tree.
    pub open spec fn tree(&self) -> ExprView
        decreases self,
    {
        match self {
            Expr::Number(l) => ExprView::Number(l@),
            Expr::Negate(e) => ExprView::Negate(Box::new(e.tree())),
            Expr::Binary(l, op, r) => ExprView::Binary(Box::new(l.tree()), *op, Box::new(r.tree())),
        }
    }
}

impl View for Expr {
    type V = ExprView;

    open spec fn view(&self) -> ExprView {
        self.tree()
    }
}

impl Clone for Expr {
    fn clone(&self) -> (r: Self)
        ensures
            r@ == self@,
        decreases self,
    {
        match self {
            Expr::Number(l) => Expr::Number(l.clone()),
            Expr::Negate(e) => Expr::Negate(Box::new((**e).clone())),
            Expr::Binary(l, op, r) => Expr::Binary(Box::new((**l).clone()), *op, Box::new((**r).clone())),
        }
    }
}

} // verus!
