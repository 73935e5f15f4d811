//! Blanks between tokens do not matter: the proof that any number of blanks
//! may be put in, or taken out, wherever they do not split a number.
use crate::error::ErrorView;
use crate::lex::{
    error_index, followed_by, lemma_number_end, lemma_tokens_error, number_end, number_text,
    symbol_token, tokens, tokens_from, Lexed,
};
use crate::parser::{is_syntax_error, lemma_parse_errors, parse};
use crate::text::{
    digits_end, is_digit, is_number_byte, lemma_digits_end, lemma_digits_end_unique, POINT, SPACE,
};
use crate::types::TokenView;
use crate::{binary_evaluation, binary_operation, evaluation};
use vstd::prelude::*;

verus! {

/// `n` blanks.
pub open spec fn blanks(n: nat) -> Seq<u8> {
    Seq::new(n, |i: int| SPACE)
}

/// The error `e` as it reads once the bytes from index `from` on stand
/// `by` places further on: an index that it names moves with its byte.
pub open spec fn moved_error(e: ErrorView, from: int, by: int) -> ErrorView {
    match e {
        ErrorView::InvalidCharacter(index) if index >= from => ErrorView::InvalidCharacter(
            (index + by) as nat,
        ),
        ErrorView::UnexpectedCharacter(byte, index) if index >= from => ErrorView::UnexpectedCharacter(
            byte,
            (index + by) as nat,
        ),
        _ => e,
    }
}

/// The result `r` as it reads once the bytes from index `from` on stand
/// `by` places further on: a value stays, an error moves with its byte.
pub open spec fn moved<T>(r: Result<T, ErrorView>, from: int, by: int) -> Result<T, ErrorView> {
    match r {
        Ok(value) => Ok(value),
        Err(e) => Err(moved_error(e, from, by)),
    }
}

/// No number runs from the end of `a` into the start of `b`.
pub open spec fn splits_no_number(a: Seq<u8>, b: Seq<u8>) -> bool {
    a.len() == 0 || b.len() == 0 || !is_number_byte(a.last()) || !is_number_byte(b[0])
}

/// A run of digits that stands in `t` from `j` on as it stands in `s` from
/// `i` on, and ends in `t` as in `s`, is as long in `t` as in `s`.
proof fn lemma_digits_end_same(s: Seq<u8>, t: Seq<u8>, i: int, j: int)
    requires
        0 <= i <= s.len(),
        0 <= j,
        j + (digits_end(s, i) - i) <= t.len(),
        t.subrange(j, j + (digits_end(s, i) - i)) == s.subrange(i, digits_end(s, i)),
        j + (digits_end(s, i) - i) < t.len() ==> !is_digit(t[j + (digits_end(s, i) - i)]),
    ensures
        digits_end(t, j) - j == digits_end(s, i) - i,
{
    lemma_digits_end(s, i);
    let run = digits_end(s, i) - i;
    assert forall|k: int| j <= k < j + run implies is_digit(#[trigger] t[k]) by {
        assert(t.subrange(j, j + run)[k - j] == s.subrange(i, i + run)[k - j]);
        assert(is_digit(s[i + (k - j)]));
    }
    lemma_digits_end_unique(t, j, j + run);
}

/// A number that stands in `t` from `j` on as it stands in `s` from `i` on,
/// and is followed in `t` as in `s`, is the same number and as long.
proof fn lemma_number_same(s: Seq<u8>, t: Seq<u8>, i: int, j: int)
    requires
        0 <= i < s.len(),
        0 <= j,
        is_digit(s[i]),
        j + (number_end(s, i) - i) <= t.len(),
        t.subrange(j, j + (number_end(s, i) - i)) == s.subrange(i, number_end(s, i)),
        number_end(s, i) < s.len() ==> j + (number_end(s, i) - i) < t.len() && (t[j + (number_end(s, i)
            - i)] == s[number_end(s, i)] || !(is_number_byte(t[j + (number_end(s, i) - i)])
            || is_number_byte(s[number_end(s, i)]))),
        number_end(s, i) == s.len() ==> (j + (number_end(s, i) - i) < t.len() ==> !is_number_byte(
            t[j + (number_end(s, i) - i)],
        )),
    ensures
        number_end(t, j) - j == number_end(s, i) - i,
        number_text(t, j, number_end(t, j)) == number_text(s, i, number_end(s, i)),
        (number_end(t, j) < t.len() && t[number_end(t, j)] == POINT) <==> (number_end(s, i) < s.len()
            && s[number_end(s, i)] == POINT),
{
    lemma_number_end(s, i);
    lemma_digits_end(s, i);
    let whole = digits_end(s, i);
    let e = number_end(s, i);
    let run = e - i;
    let ts = t.subrange(j, j + run);
    let ss = s.subrange(i, e);
    assert(whole <= e) by {
        if whole < s.len() && s[whole] == POINT {
            lemma_digits_end(s, whole + 1);
        }
    }
    let tw = t.subrange(j, j + (whole - i));
    let sw = s.subrange(i, whole);
    assert(tw =~= sw) by {
        assert forall|k: int| 0 <= k < whole - i implies #[trigger] tw[k] == sw[k] by {
            assert(ts[k] == ss[k]);
        }
    }
    if whole < e {
        assert(ts[whole - i] == ss[whole - i]);
    }
    lemma_digits_end_same(s, t, i, j);
    let twhole = j + (whole - i);
    assert(digits_end(t, j) == twhole);
    if whole < s.len() && s[whole] == POINT {
        lemma_digits_end(s, whole + 1);
        let frac = digits_end(s, whole + 1);
        assert(frac == e);
        let tf = t.subrange(twhole + 1, twhole + 1 + (frac - (whole + 1)));
        let sf = s.subrange(whole + 1, frac);
        assert(tf =~= sf) by {
            assert forall|k: int| 0 <= k < frac - (whole + 1) implies #[trigger] tf[k] == sf[k] by {
                assert(ts[whole - i + 1 + k] == ss[whole - i + 1 + k]);
            }
        }
        lemma_digits_end_same(s, t, whole + 1, twhole + 1);
    }
    let te = number_end(t, j);
    assert(te - j == run);
    assert(ts[run - 1] == ss[run - 1]);
    let tb = t.subrange(j, te - 1);
    let sb = s.subrange(i, e - 1);
    assert(tb =~= sb) by {
        assert forall|k: int| 0 <= k < run - 1 implies #[trigger] tb[k] == sb[k] by {
            assert(ts[k] == ss[k]);
        }
    }
}

/// Tokens before a result stay before it when it moves.
proof fn lemma_moved_followed_by(prefix: Seq<TokenView>, rest: Lexed, from: int, by: int)
    ensures
        moved(followed_by(prefix, rest), from, by) == followed_by(prefix, moved(rest, from, by)),
{
}

/// What follows a prefix yields the same tokens whatever the prefix is; the
/// errors name their bytes by where these stand behind the prefix.
proof fn lemma_tokens_behind(x: Seq<u8>, y: Seq<u8>, b: Seq<u8>, j: int)
    requires
        0 <= j <= b.len(),
    ensures
        tokens_from(x + b, x.len() + j) == moved(
            tokens_from(y + b, y.len() + j),
            y.len() as int,
            x.len() - y.len(),
        ),
    decreases b.len() - j,
{
    let s = x + b;
    let t = y + b;
    let p = x.len() + j;
    let q = y.len() + j;
    let by = x.len() - y.len();
    if j < b.len() {
        assert(s[p] == b[j] && t[q] == b[j]);
        if b[j] == SPACE {
            lemma_tokens_behind(x, y, b, j + 1);
        } else if symbol_token(b[j]) is Some {
            lemma_tokens_behind(x, y, b, j + 1);
        } else if is_digit(b[j]) {
            lemma_number_end(t, q);
            let e = number_end(t, q);
            let sn = s.subrange(p, p + (e - q));
            let tn = t.subrange(q, e);
            assert(sn =~= tn) by {
                assert forall|k: int| 0 <= k < e - q implies #[trigger] sn[k] == tn[k] by {
                    assert(s[p + k] == b[j + k] && t[q + k] == b[j + k]);
                }
            }
            if e < t.len() {
                assert(s[p + (e - q)] == b[j + (e - q)] && t[e] == b[j + (e - q)]);
            }
            lemma_number_same(t, s, q, p);
            lemma_tokens_behind(x, y, b, j + (e - q));
        }
    }
}

/// Blanks yield no token.
proof fn lemma_blanks_skipped(s: Seq<u8>, i: int, n: nat)
    requires
        0 <= i,
        i + n <= s.len(),
        forall|k: int| i <= k < i + n ==> s[k] == SPACE,
    ensures
        tokens_from(s, i) == tokens_from(s, i + n),
    decreases n,
{
    if n > 0 {
        lemma_blanks_skipped(s, i + 1, (n - 1) as nat);
    }
}

/// Blanks between `a` and `b` leave the tokens from any index of `a` on as
/// they are without the blanks.
proof fn lemma_tokens_spaced(a: Seq<u8>, b: Seq<u8>, n: nat, i: int)
    requires
        splits_no_number(a, b),
        n > 0,
        0 <= i <= a.len(),
    ensures
        tokens_from(a + blanks(n) + b, i) == moved(tokens_from(a + b, i), a.len() as int, n as int),
    decreases a.len() - i,
{
    let s = a + blanks(n) + b;
    let t = a + b;
    let from = a.len() as int;
    if i == a.len() {
        lemma_blanks_skipped(s, i, n);
        lemma_tokens_behind(a + blanks(n), a, b, 0);
        lemma_tokens_error(t, from);
    } else {
        assert(s[i] == a[i] && t[i] == a[i]);
        if a[i] == SPACE {
            lemma_tokens_spaced(a, b, n, i + 1);
        } else if symbol_token(a[i]) is Some {
            lemma_tokens_spaced(a, b, n, i + 1);
        } else if is_digit(a[i]) {
            lemma_number_end(t, i);
            let e = number_end(t, i);
            if e > a.len() {
                assert(is_number_byte(t[a.len() - 1]) && t[a.len() - 1] == a.last());
                assert(is_number_byte(t[a.len() as int]) && t[a.len() as int] == b[0]);
            }
            let sn = s.subrange(i, i + (e - i));
            let tn = t.subrange(i, e);
            assert(sn =~= tn) by {
                assert forall|k: int| 0 <= k < e - i implies #[trigger] sn[k] == tn[k] by {
                    assert(s[i + k] == a[i + k] && t[i + k] == a[i + k]);
                }
            }
            if e < a.len() {
                assert(s[e] == a[e] && t[e] == a[e]);
            } else {
                assert(s[e] == SPACE);
                assert(is_number_byte(t[e - 1]) && t[e - 1] == a.last());
                if e < t.len() {
                    assert(t[e] == b[0]);
                }
            }
            lemma_number_same(t, s, i, i);
            lemma_tokens_spaced(a, b, n, e);
        }
    }
}

/// Any number of blanks between `a` and `b` changes nothing of what the
/// expression evaluates to, as long as they do not split a number: the
/// tokens are the same, and so is the tree. An error stays the same error;
/// where it names the index of a byte of `b`, that index moves with the
/// byte.
pub proof fn theorem_blanks_do_not_matter(a: Seq<u8>, b: Seq<u8>, n: nat)
    requires
        splits_no_number(a, b),
    ensures
        tokens(a + blanks(n) + b) == moved(tokens(a + b), a.len() as int, n as int),
        evaluation(a + blanks(n) + b) == moved(evaluation(a + b), a.len() as int, n as int),
        binary_evaluation(a + blanks(n) + b) == moved(
            binary_evaluation(a + b),
            a.len() as int,
            n as int,
        ),
{
    if n == 0 {
        assert(a + blanks(n) + b =~= a + b);
        lemma_tokens_error(a + b, 0);
    } else {
        lemma_tokens_spaced(a, b, n, 0);
    }
    if let Ok(found) = tokens(a + b) {
        lemma_parse_errors(found);
    }
}

} // verus!
