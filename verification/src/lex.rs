//! The tokenizer: from the bytes of an expression to its tokens, in one
//! pass from left to right.
use crate::error::{ErrorView, MexeError};
use crate::text::{
    digits_end, is_digit, is_literal, is_number_byte, lemma_digits_end, lemma_digits_end_unique,
    LEFT_PAREN, MINUS, NINE, PLUS, POINT, RIGHT_PAREN, SLASH, SPACE, STAR, ZERO,
};
use crate::types::{Literal, Operator, Token, TokenView};
use vstd::prelude::*;
use vstd::string::*;

verus! {

/// What tokenizing yields: the tokens, or the first error.
pub type Lexed = Result<Seq<TokenView>, ErrorView>;

/// The token that the byte `b` stands for by itself, if it does.
pub open spec fn symbol_token(b: u8) -> Option<TokenView> {
    if b == LEFT_PAREN {
        Some(TokenView::LPar)
    } else if b == RIGHT_PAREN {
        Some(TokenView::RPar)
    } else if b == STAR {
        Some(TokenView::Op(Operator::Mul))
    } else if b == PLUS {
        Some(TokenView::Op(Operator::Add))
    } else if b == MINUS {
        Some(TokenView::Op(Operator::Sub))
    } else if b == SLASH {
        Some(TokenView::Op(Operator::Div))
    } else {
        None
    }
}

/// The end of the number that starts at `i`: its run of digits and, where a
/// point follows that run, the point and the run of digits behind it.
pub open spec fn number_end(s: Seq<u8>, i: int) -> int {
    let whole = digits_end(s, i);
    if whole < s.len() && s[whole] == POINT {
        digits_end(s, whole + 1)
    } else {
        whole
    }
}

/// The number that the bytes of `s` from `i` up to `e` spell. A point at
/// the very end counts for nothing: `12.` is the number `12`.
pub open spec fn number_text(s: Seq<u8>, i: int, e: int) -> Seq<u8> {
    if s[e - 1] == POINT {
        s.subrange(i, e - 1)
    } else {
        s.subrange(i, e)
    }
}

/// The tokens `prefix`, followed by what `rest` yields.
pub open spec fn followed_by(prefix: Seq<TokenView>, rest: Lexed) -> Lexed {
    match rest {
        Ok(tokens) => Ok(prefix + tokens),
        Err(e) => Err(e),
    }
}

/// A number that starts on a digit ends behind that digit.
pub proof fn lemma_number_end(s: Seq<u8>, i: int)
    requires
        0 <= i < s.len(),
        is_digit(s[i]),
    ensures
        i < number_end(s, i) <= s.len(),
        forall|k: int| i <= k < number_end(s, i) ==> is_number_byte(#[trigger] s[k]),
        number_end(s, i) < s.len() ==> !is_digit(s[number_end(s, i)]),
{
    lemma_digits_end(s, i + 1);
    let whole = digits_end(s, i);
    if whole < s.len() && s[whole] == POINT {
        lemma_digits_end(s, whole + 1);
    }
}

/// The tokens of `s` from index `i` on.
///
/// Blanks separate tokens and yield none. A parenthesis or an operator is
/// a token by itself. A digit starts a number, which runs as far as it can.
/// A point may stand only behind the first run of digits of a number.
/// The end of the input yields the token `EOI`.
pub open spec fn tokens_from(s: Seq<u8>, i: int) -> Lexed
    decreases s.len() - i,
{
    if i < 0 || i >= s.len() {
        Ok(seq![TokenView::EOI])
    } else if s[i] == SPACE {
        tokens_from(s, i + 1)
    } else if symbol_token(s[i]) is Some {
        followed_by(seq![symbol_token(s[i])->0], tokens_from(s, i + 1))
    } else if is_digit(s[i]) {
        let e = number_end(s, i);
        if e < s.len() && s[e] == POINT {
            Err(ErrorView::UnexpectedCharacter(POINT, e as nat))
        } else {
            proof {
                lemma_number_end(s, i);
            }
            followed_by(seq![TokenView::Number(number_text(s, i, e))], tokens_from(s, e))
        }
    } else if s[i] == POINT {
        Err(ErrorView::UnexpectedCharacter(POINT, i as nat))
    } else {
        Err(ErrorView::InvalidCharacter(i as nat))
    }
}

/// The tokens of the expression `s`, or the error at the first byte that
/// cannot be part of one.
pub open spec fn tokens(s: Seq<u8>) -> Lexed {
    tokens_from(s, 0)
}

/// `b` belongs to the alphabet of expressions.
pub open spec fn in_alphabet(b: u8) -> bool {
    b == SPACE || symbol_token(b) is Some || is_number_byte(b)
}

/// The index that a tokenizer error names.
pub open spec fn error_index(e: ErrorView) -> int {
    match e {
        ErrorView::InvalidCharacter(index) => index as int,
        ErrorView::UnexpectedCharacter(_, index) => index as int,
        _ => -1,
    }
}

/// The tokenizer fails only at a byte that it has come to: with
/// `InvalidCharacter` at a byte outside the alphabet, with
/// `UnexpectedCharacter` at a point.
pub proof fn lemma_tokens_error(s: Seq<u8>, i: int)
    requires
        0 <= i,
    ensures
        tokens_from(s, i) matches Err(e) ==> {
            &&& i <= error_index(e) < s.len()
            &&& e matches ErrorView::InvalidCharacter(k) ==> !in_alphabet(s[k as int])
            &&& e matches ErrorView::UnexpectedCharacter(c, k) ==> c == POINT && s[k as int] == POINT
            &&& e is InvalidCharacter || e is UnexpectedCharacter
        },
    decreases s.len() - i,
{
    if i < s.len() {
        if s[i] == SPACE || symbol_token(s[i]) is Some {
            lemma_tokens_error(s, i + 1);
        } else if is_digit(s[i]) {
            lemma_number_end(s, i);
            lemma_tokens_error(s, number_end(s, i));
        }
    }
}

/// `tokens` are the tokens of one expression: the end marker stands at the
/// end and nowhere else, and every number is written as `X` or `X.Y`.
pub open spec fn is_token_sequence(tokens: Seq<TokenView>) -> bool {
    &&& tokens.len() >= 1
    &&& tokens.last() is EOI
    &&& forall|k: int| 0 <= k < tokens.len() - 1 ==> !(#[trigger] tokens[k] is EOI)
    &&& forall|k: int| 0 <= k < tokens.len() ==> (#[trigger] tokens[k]).well_formed()
}

/// What the tokenizer yields is the token sequence of one expression.
pub proof fn lemma_tokens_shape(s: Seq<u8>, i: int)
    requires
        0 <= i,
    ensures
        tokens_from(s, i) matches Ok(tokens) ==> is_token_sequence(tokens),
    decreases s.len() - i,
{
    if i < s.len() {
        if s[i] == SPACE {
            lemma_tokens_shape(s, i + 1);
        } else if symbol_token(s[i]) is Some {
            lemma_tokens_shape(s, i + 1);
        } else if is_digit(s[i]) {
            let e = number_end(s, i);
            lemma_number_end(s, i);
            lemma_tokens_shape(s, e);
            if !(e < s.len() && s[e] == POINT) {
                lemma_number_text(s, i);
            }
        }
    }
}

/// The number that starts on a digit is written as a number.
pub proof fn lemma_number_text(s: Seq<u8>, i: int)
    requires
        0 <= i < s.len(),
        is_digit(s[i]),
    ensures
        is_literal(number_text(s, i, number_end(s, i))),
{
    lemma_digits_end(s, i);
    let whole = digits_end(s, i);
    if whole < s.len() && s[whole] == POINT {
        lemma_digits_end(s, whole + 1);
        let e = digits_end(s, whole + 1);
        if e == whole + 1 {
            let run = s.subrange(i, e - 1);
            lemma_digits_end_unique(run, 0, whole - i);
        } else {
            let run = s.subrange(i, e);
            lemma_digits_end_unique(run, 0, whole - i);
            lemma_digits_end_unique(run, whole - i + 1, e - i);
        }
    } else {
        let run = s.subrange(i, whole);
        lemma_digits_end_unique(run, 0, whole - i);
    }
}

/// What a result of the tokenizer stands for.
pub open spec fn lexed_view(r: Result<Vec<Token>, MexeError>) -> Lexed {
    match r {
        Ok(tokens) => Ok(tokens.deep_view()),
        Err(e) => Err(e@),
    }
}

/// What the tokenizer remembers between two bytes.
enum LexerState {
    /// Between tokens.
    Normal,
    /// Inside the first run of digits of the number that starts at the
    /// given index.
    ReadingNumber(usize),
    /// Behind the point of the number that starts at the given index.
    ReadingDecimals(usize),
}

impl LexerState {
    /// Where the bytes start that have not yet become tokens by index `i`.
    spec fn pending(self, i: int) -> int {
        match self {
            LexerState::Normal => i,
            LexerState::ReadingNumber(start) => start as int,
            LexerState::ReadingDecimals(start) => start as int,
        }
    }

    /// The state fits the bytes of `s` before index `i`, with the point of
    /// the number at index `point` where the state is `ReadingDecimals`.
    spec fn fits(self, s: Seq<u8>, point: int, i: int) -> bool {
        match self {
            LexerState::Normal => true,
            LexerState::ReadingNumber(start) => {
                &&& start < i
                &&& forall|k: int| start <= k < i ==> is_digit(#[trigger] s[k])
            },
            LexerState::ReadingDecimals(start) => {
                &&& start < point < i
                &&& forall|k: int| start <= k < point ==> is_digit(#[trigger] s[k])
                &&& s[point] == POINT
                &&& forall|k: int| point < k < i ==> is_digit(#[trigger] s[k])
            },
        }
    }
}

/// A number that the tokenizer has read up to `i`, where no byte of a number
/// follows, is a token of its own.
proof fn lemma_number_read(s: Seq<u8>, state: LexerState, point: int, i: int)
    requires
        0 <= i <= s.len(),
        state !is Normal,
        state.fits(s, point, i),
        i < s.len() ==> !is_number_byte(s[i]),
    ensures
        number_end(s, state.pending(i)) == i,
        is_literal(number_text(s, state.pending(i), i)),
        tokens_from(s, state.pending(i)) == followed_by(
            seq![TokenView::Number(number_text(s, state.pending(i), i))],
            tokens_from(s, i),
        ),
{
    let start = state.pending(i);
    match state {
        LexerState::Normal => {},
        LexerState::ReadingNumber(_) => {
            lemma_digits_end_unique(s, start, i);
            let run = s.subrange(start, i);
            assert(number_text(s, start, i) == run);
            lemma_digits_end_unique(run, 0, i - start);
        },
        LexerState::ReadingDecimals(_) => {
            lemma_digits_end_unique(s, start, point);
            lemma_digits_end_unique(s, point + 1, i);
            if point == i - 1 {
                let run = s.subrange(start, i - 1);
                assert(number_text(s, start, i) == run);
                lemma_digits_end_unique(run, 0, point - start);
            } else {
                let run = s.subrange(start, i);
                assert(is_digit(s[i - 1]));
                assert(number_text(s, start, i) == run);
                lemma_digits_end_unique(run, 0, point - start);
                lemma_digits_end_unique(run, point - start + 1, i - start);
            }
        },
    }
}

/// A second point in a number is the error that tokenizing ends with.
proof fn lemma_second_point(s: Seq<u8>, start: usize, point: int, i: int)
    requires
        i < s.len(),
        LexerState::ReadingDecimals(start).fits(s, point, i),
        s[i] == POINT,
    ensures
        tokens_from(s, start as int) == Err::<Seq<TokenView>, ErrorView>(
            ErrorView::UnexpectedCharacter(POINT, i as nat),
        ),
{
    lemma_digits_end_unique(s, start as int, point);
    lemma_digits_end_unique(s, point + 1, i);
}

/// Tokens that stand before others stand before what follows those.
proof fn lemma_followed_by_push(prefix: Seq<TokenView>, token: TokenView, rest: Lexed)
    ensures
        followed_by(prefix, followed_by(seq![token], rest)) == followed_by(prefix.push(token), rest),
{
    if let Ok(tokens) = rest {
        assert(prefix + (seq![token] + tokens) =~= prefix.push(token) + tokens);
    }
}

/// Ends the number that the tokenizer is reading, if it is reading one, at
/// index `i`, and appends it to `out`.
fn finish_number(
    chars: &[u8],
    state: &LexerState,
    i: usize,
    out: &mut Vec<Token>,
    Ghost(point): Ghost<int>,
)
    requires
        i <= chars@.len(),
        state.fits(chars@, point, i as int),
        i < chars@.len() ==> !is_number_byte(chars@[i as int]),
    ensures
        followed_by(old(out).deep_view(), tokens_from(chars@, state.pending(i as int)))
            == followed_by(final(out).deep_view(), tokens_from(chars@, i as int)),
{
    let ghost before = out.deep_view();
    let (start, end) = match state {
        LexerState::Normal => {
            return ;
        },
        LexerState::ReadingNumber(start) => (*start, i),
        LexerState::ReadingDecimals(start) => if chars[i - 1] == POINT {
            (*start, i - 1)
        } else {
            (*start, i)
        },
    };
    proof {
        lemma_number_read(chars@, *state, point, i as int);
    }
    out.push(Token::Number(Literal::from_span(chars, start, end)));
    proof {
        let number = TokenView::Number(number_text(chars@, start as int, i as int));
        assert(out.deep_view() =~= before.push(number));
        lemma_followed_by_push(before, number, tokens_from(chars@, i as int));
    }
}

/// Splits the bytes of an expression into tokens.
///
/// The result ends with the token `EOI`, and every number in it is written
/// as `X` or `X.Y`. A byte that no token can hold makes the whole a failure:
/// `UnexpectedCharacter` for a point that does not follow the first run of
/// digits of a number, `InvalidCharacter` for any byte that is neither a
/// blank, a digit, a point, a parenthesis nor an operator; the error names
/// the first such byte.
pub fn tokenize(chars: &[u8]) -> (r: Result<Vec<Token>, MexeError>)
    ensures
        lexed_view(r) == tokens(chars@),
        r matches Ok(found) ==> is_token_sequence(found.deep_view()),
{
    proof {
        lemma_tokens_shape(chars@, 0);
    }
    let mut out: Vec<Token> = Vec::with_capacity(chars.len() / 2 + 2);
    let mut state = LexerState::Normal;
    let ghost mut point: int = 0;
    let mut i: usize = 0;
    assert(followed_by(out.deep_view(), tokens(chars@)) == tokens(chars@)) by {
        if let Ok(all) = tokens(chars@) {
            assert(out.deep_view() + all =~= all);
        }
    }
    while i < chars.len()
        invariant
            i <= chars@.len(),
            state.fits(chars@, point, i as int),
            tokens(chars@) == followed_by(out.deep_view(), tokens_from(chars@, state.pending(i as int))),
        decreases chars@.len() - i,
    {
        let c = chars[i];
        let mut token: Option<Token> = None;
        let in_number: bool;
        if c == SPACE {
            in_number = false;
        } else if c == LEFT_PAREN {
            in_number = false;
            token = Some(Token::LPar);
        } else if c == RIGHT_PAREN {
            in_number = false;
            token = Some(Token::RPar);
        } else if c == STAR {
            in_number = false;
            token = Some(Token::Op(Operator::Mul));
        } else if c == PLUS {
            in_number = false;
            token = Some(Token::Op(Operator::Add));
        } else if c == MINUS {
            in_number = false;
            token = Some(Token::Op(Operator::Sub));
        } else if c == SLASH {
            in_number = false;
            token = Some(Token::Op(Operator::Div));
        } else if ZERO <= c && c <= NINE {
            in_number = true;
            if let LexerState::Normal = state {
                state = LexerState::ReadingNumber(i);
            }
        } else if c == POINT {
            in_number = true;
            match state {
                LexerState::ReadingNumber(start) => {
                    state = LexerState::ReadingDecimals(start);
                    proof {
                        point = i as int;
                    }
                },
                LexerState::Normal => {
                    return Err(MexeError::UnexpectedCharacter(POINT, i));
                },
                LexerState::ReadingDecimals(start) => {
                    proof {
                        lemma_second_point(chars@, start, point, i as int);
                    }
                    return Err(MexeError::UnexpectedCharacter(POINT, i));
                },
            }
        } else {
            proof {
                if state !is Normal {
                    lemma_number_read(chars@, state, point, i as int);
                }
            }
            return Err(MexeError::InvalidCharacter(i));
        }
        if !in_number {
            finish_number(chars, &state, i, &mut out, Ghost(point));
            state = LexerState::Normal;
        }
        if let Some(token) = token {
            let ghost before = out.deep_view();
            proof {
                assert(symbol_token(c) == Some(token@));
                lemma_followed_by_push(before, token@, tokens_from(chars@, i + 1));
            }
            out.push(token);
            assert(out.deep_view() =~= before.push(token@));
        }
        i += 1;
    }
    finish_number(chars, &state, i, &mut out, Ghost(point));
    let ghost before = out.deep_view();
    out.push(Token::EOI);
    assert(out.deep_view() =~= before + seq![TokenView::EOI]);
    Ok(out)
}

/// Splits an expression into tokens.
///
/// The expression is read byte by byte, as `tokenize` says.
pub fn get_tokens(expression: &str) -> (r: Result<Vec<Token>, MexeError>)
    ensures
        lexed_view(r) == tokens(expression.spec_bytes()),
        r matches Ok(found) ==> is_token_sequence(found.deep_view()),
{
    tokenize(expression.as_bytes())
}

} // verus!
