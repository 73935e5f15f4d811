//! The bytes of the expression alphabet, runs of digits, and how numbers are
//! written out as text.
use vstd::prelude::*;
use vstd::string::*;

verus! {

pub const SPACE: u8 = 32;

pub const LEFT_PAREN: u8 = 40;

pub const RIGHT_PAREN: u8 = 41;

pub const STAR: u8 = 42;

pub const PLUS: u8 = 43;

pub const MINUS: u8 = 45;

pub const POINT: u8 = 46;

pub const SLASH: u8 = 47;

pub const ZERO: u8 = 48;

pub const NINE: u8 = 57;

/// `b` is one of the ASCII digits `0` to `9`.
pub open spec fn is_digit(b: u8) -> bool {
    ZERO <= b <= NINE
}

/// `b` may occur inside a number: a digit or the decimal point.
pub open spec fn is_number_byte(b: u8) -> bool {
    is_digit(b) || b == POINT
}

/// The end of the longest run of digits of `s` that starts at `i`:
/// the first index from `i` on that holds no digit, or the length of `s`.
pub open spec fn digits_end(s: Seq<u8>, i: int) -> int
    decreases s.len() - i,
{
    if 0 <= i < s.len() && is_digit(s[i]) {
        digits_end(s, i + 1)
    } else {
        i
    }
}

/// A run of digits ends no earlier than it starts, holds only digits, and
/// is not followed by a digit.
pub proof fn lemma_digits_end(s: Seq<u8>, i: int)
    requires
        0 <= i <= s.len(),
    ensures
        i <= digits_end(s, i) <= s.len(),
        forall|k: int| i <= k < digits_end(s, i) ==> is_digit(#[trigger] s[k]),
        digits_end(s, i) < s.len() ==> !is_digit(s[digits_end(s, i)]),
    decreases s.len() - i,
{
    if i < s.len() && is_digit(s[i]) {
        lemma_digits_end(s, i + 1);
    }
}

/// The end of a run of digits is the only index with the properties that
/// `lemma_digits_end` lists.
pub proof fn lemma_digits_end_unique(s: Seq<u8>, i: int, e: int)
    requires
        0 <= i <= e <= s.len(),
        forall|k: int| i <= k < e ==> is_digit(#[trigger] s[k]),
        e < s.len() ==> !is_digit(s[e]),
    ensures
        digits_end(s, i) == e,
    decreases e - i,
{
    if i < e {
        lemma_digits_end_unique(s, i + 1, e);
    }
}

/// `s` is a number in the form `X` or `X.Y`, where `X` and `Y` are
/// non-empty runs of digits.
pub open spec fn is_literal(s: Seq<u8>) -> bool {
    let whole = digits_end(s, 0);
    whole > 0 && (whole == s.len() || (s[whole] == POINT && whole + 1 < s.len() && digits_end(
        s,
        whole + 1,
    ) == s.len()))
}

/// A number holds nothing but digits and at most one point.
pub proof fn lemma_literal_bytes(s: Seq<u8>)
    requires
        is_literal(s),
    ensures
        s.len() > 0,
        forall|k: int| 0 <= k < s.len() ==> is_number_byte(#[trigger] s[k]),
{
    lemma_digits_end(s, 0);
    let whole = digits_end(s, 0);
    if whole < s.len() {
        lemma_digits_end(s, whole + 1);
    }
}

/// The characters that the ASCII bytes `bytes` stand for.
pub open spec fn ascii_chars(bytes: Seq<u8>) -> Seq<char> {
    Seq::new(bytes.len(), |i: int| bytes[i] as char)
}

/// The decimal digits of `n`, most significant first, without leading zeros.
pub open spec fn decimal(n: nat) -> Seq<char>
    decreases n,
{
    if n < 10 {
        seq![(ZERO + n) as char]
    } else {
        decimal(n / 10).push((ZERO + n % 10) as char)
    }
}

/// The one-character string for the digit of value `d`.
fn digit_str(d: u8) -> (r: &'static str)
    requires
        d < 10,
    ensures
        r@ == seq![(ZERO + d) as char],
{
    proof {
        reveal_strlit("0");
        reveal_strlit("1");
        reveal_strlit("2");
        reveal_strlit("3");
        reveal_strlit("4");
        reveal_strlit("5");
        reveal_strlit("6");
        reveal_strlit("7");
        reveal_strlit("8");
        reveal_strlit("9");
    }
    let r = match d {
        0 => "0",
        1 => "1",
        2 => "2",
        3 => "3",
        4 => "4",
        5 => "5",
        6 => "6",
        7 => "7",
        8 => "8",
        _ => "9",
    };
    assert(r@ =~= seq![(ZERO + d) as char]);
    r
}

/// Writes `n` in decimal.
pub(crate) fn decimal_string(n: usize) -> (s: String)
    ensures
        s@ == decimal(n as nat),
    decreases n,
{
    if n < 10 {
        digit_str(n as u8).to_owned()
    } else {
        let mut s = decimal_string(n / 10);
        s.append(digit_str((n % 10) as u8));
        proof {
            assert(seq![(ZERO + n % 10) as char] =~= Seq::empty().push((ZERO + n % 10) as char));
            assert(s@ =~= decimal(n as nat / 10).push((ZERO + n % 10) as char));
        }
        s
    }
}

/// Writes out the digits and points of `bytes` as a string.
pub(crate) fn number_string(bytes: &[u8]) -> (s: String)
    requires
        forall|k: int| 0 <= k < bytes@.len() ==> is_number_byte(#[trigger] bytes@[k]),
    ensures
        s@ == ascii_chars(bytes@),
{
    let mut s = String::new();
    let mut i: usize = 0;
    while i < bytes.len()
        invariant
            i <= bytes@.len(),
            forall|k: int| 0 <= k < bytes@.len() ==> is_number_byte(#[trigger] bytes@[k]),
            s@ == ascii_chars(bytes@.take(i as int)),
        decreases bytes@.len() - i,
    {
        let b = bytes[i];
        proof {
            reveal_strlit(".");
        }
        let piece = if b == POINT {
            "."
        } else {
            digit_str(b - ZERO)
        };
        assert(piece@ =~= seq![b as char]);
        s.append(piece);
        proof {
            assert(bytes@.take(i + 1) =~= bytes@.take(i as int).push(b));
            assert(s@ =~= ascii_chars(bytes@.take(i + 1)));
        }
        i += 1;
    }
    assert(bytes@.take(i as int) =~= bytes@);
    s
}

} // verus!
