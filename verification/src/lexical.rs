//! Which texts have tokens, said without reading them from left to right:
//! those in which every byte belongs to the alphabet and every point
//! stands where a point may stand. The tokenizer fails at the first byte
//! of which this does not hold, and nowhere else.
use crate::error::ErrorView;
use crate::lex::{
    error_index, in_alphabet, lemma_number_end, number_end, symbol_token, tokens, tokens_from,
};
use crate::text::{
    digits_end, is_digit, is_number_byte, lemma_digits_end, POINT, SPACE,
};
use vstd::prelude::*;

verus! {

/// The start of the longest run of digits of `s` that ends before `i`.
pub open spec fn digits_start(s: Seq<u8>, i: int) -> int
    decreases i,
{
    if 0 < i <= s.len() && is_digit(s[i - 1]) {
        digits_start(s, i - 1)
    } else {
        i
    }
}

/// A point may stand at index `k`: at least one digit stands directly
/// before it, and no point stands directly before those digits.
pub open spec fn point_fits(s: Seq<u8>, k: int) -> bool {
    let start = digits_start(s, k);
    start < k && (start == 0 || s[start - 1] != POINT)
}

/// No token can hold the byte at index `k`: it is outside the alphabet, or
/// it is a point where no point may stand.
pub open spec fn offends(s: Seq<u8>, k: int) -> bool {
    !in_alphabet(s[k]) || (s[k] == POINT && !point_fits(s, k))
}

/// The error for the byte at index `k`, which no token can hold.
pub open spec fn offence(s: Seq<u8>, k: int) -> ErrorView {
    if s[k] == POINT {
        ErrorView::UnexpectedCharacter(POINT, k as nat)
    } else {
        ErrorView::InvalidCharacter(k as nat)
    }
}

/// The run of digits before `k` starts at `start`, where digits stand from
/// `start` up to `k` and none stands before `start`.
proof fn lemma_digits_start_unique(s: Seq<u8>, start: int, k: int)
    requires
        0 <= start <= k <= s.len(),
        forall|j: int| start <= j < k ==> is_digit(#[trigger] s[j]),
        start > 0 ==> !is_digit(s[start - 1]),
    ensures
        digits_start(s, k) == start,
    decreases k - start,
{
    if start < k {
        lemma_digits_start_unique(s, start, k - 1);
    }
}

/// No number runs up to index `i` and on from it.
spec fn between_numbers(s: Seq<u8>, i: int) -> bool {
    &&& 0 <= i <= s.len()
    &&& i == 0 || i == s.len() || !is_number_byte(s[i - 1]) || !is_number_byte(s[i])
}

/// From `i` on, the tokenizer fails at the first byte that no token can
/// hold, with the error for that byte, and succeeds if there is none.
proof fn lemma_tokens_from_offence(s: Seq<u8>, i: int)
    requires
        between_numbers(s, i),
    ensures
        match tokens_from(s, i) {
            Ok(_) => forall|k: int| i <= k < s.len() ==> !offends(s, k),
            Err(e) => {
                &&& i <= error_index(e) < s.len()
                &&& offends(s, error_index(e))
                &&& e == offence(s, error_index(e))
                &&& forall|k: int| i <= k < error_index(e) ==> !offends(s, k)
            },
        },
    decreases s.len() - i,
{
    if i < s.len() {
        if s[i] == SPACE || symbol_token(s[i]) is Some {
            lemma_tokens_from_offence(s, i + 1);
        } else if is_digit(s[i]) {
            lemma_number_end(s, i);
            lemma_digits_end(s, i);
            let whole = digits_end(s, i);
            let e = number_end(s, i);
            if whole < s.len() && s[whole] == POINT {
                lemma_digits_end(s, whole + 1);
                lemma_digits_start_unique(s, i, whole);
                assert(point_fits(s, whole));
                if e < s.len() && s[e] == POINT {
                    lemma_digits_start_unique(s, whole + 1, e);
                    assert(!point_fits(s, e));
                }
            }
            assert forall|k: int| i <= k < e implies !offends(s, k) by {
                if k != whole {
                    assert(is_digit(s[k]));
                }
            }
            if !(e < s.len() && s[e] == POINT) {
                lemma_tokens_from_offence(s, e);
            }
        } else if s[i] == POINT {
            lemma_digits_start_unique(s, i, i);
        }
    }
}

/// A text has tokens exactly if no byte of it is outside the alphabet and
/// every point in it directly follows the first run of digits of a number.
/// Otherwise tokenizing fails at the first byte of which this does not
/// hold: with `UnexpectedCharacter` if that byte is a point, with
/// `InvalidCharacter` if it is not.
pub proof fn theorem_tokens_offence(s: Seq<u8>)
    ensures
        tokens(s) is Ok <==> forall|k: int| 0 <= k < s.len() ==> !offends(s, k),
        tokens(s) matches Err(e) ==> {
            &&& 0 <= error_index(e) < s.len()
            &&& offends(s, error_index(e))
            &&& e == offence(s, error_index(e))
            &&& forall|k: int| 0 <= k < error_index(e) ==> !offends(s, k)
        },
{
    lemma_tokens_from_offence(s, 0);
}

} // verus!
