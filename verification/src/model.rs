//! The mathematical model of tokenization.
//!
//! [`spec_tokenize`] maps a byte sequence to the token sequence it encodes,
//! or to the first fatal error.  It is written exactly as the grammar reads:
//! a dispatch on the first byte, a scanner for quoted strings, a scanner for
//! the fixed keywords, and a scanner for decimal numbers.  The executable
//! lexer is proved to agree with it byte for byte.

use crate::token::{ErrorModel, NumberModel, TokenModel};
use vstd::prelude::*;

verus! {

/// The four whitespace bytes the lexer skips: space, tab, newline, carriage
/// return.
pub open spec fn is_whitespace(b: u8) -> bool {
    b == 32 || b == 9 || b == 10 || b == 13
}

/// An ASCII decimal digit.
pub open spec fn is_digit(b: u8) -> bool {
    48 <= b <= 57
}

/// The replacement character selected by the byte following a backslash, or
/// the error that byte provokes.
///
/// `n`, `r` and `t` map to the letter itself, not to the control character;
/// `b` and `f` map to backspace and form feed.  A numeric-unicode escape is
/// reported as unsupported rather than decoded.
pub open spec fn escape_char(b: u8) -> Result<char, ErrorModel> {
    if b == 34 {
        Ok('"')
    } else if b == 92 {
        Ok('\\')
    } else if b == 98 {
        Ok('\u{08}')
    } else if b == 102 {
        Ok('\u{0C}')
    } else if b == 110 {
        Ok('n')
    } else if b == 114 {
        Ok('r')
    } else if b == 116 {
        Ok('t')
    } else if b == 117 {
        Err(ErrorModel::UnsupportedEscape)
    } else {
        Err(ErrorModel::InvalidEscapeSequence(b as char))
    }
}

/// Scans a string body: `s` starts just after the opening quote.
///
/// Returns the decoded text and the input remaining after the closing quote.
/// Each plain byte becomes one character by direct cast; a backslash and its
/// follower become the character [`escape_char`] selects.  Input that ends
/// before the closing quote is an error.
pub open spec fn string_scan(s: Seq<u8>) -> Result<(Seq<char>, Seq<u8>), ErrorModel>
    decreases s.len(),
{
    if s.len() == 0 {
        Err(ErrorModel::UnexpectedEndOfInput)
    } else if s[0] == 34 {
        Ok((Seq::empty(), s.skip(1)))
    } else if s[0] == 92 {
        if s.len() == 1 {
            Err(ErrorModel::UnexpectedEndOfInput)
        } else {
            match escape_char(s[1]) {
                Ok(c) => match string_scan(s.skip(2)) {
                    Ok((text, rest)) => Ok((seq![c] + text, rest)),
                    Err(e) => Err(e),
                },
                Err(e) => Err(e),
            }
        }
    } else {
        match string_scan(s.skip(1)) {
            Ok((text, rest)) => Ok((seq![s[0] as char] + text, rest)),
            Err(e) => Err(e),
        }
    }
}

/// The keyword announced by its first byte: `false` for `f`, `true`
/// otherwise.
pub open spec fn spec_keyword(first: u8) -> Seq<u8> {
    if first == 102 {
        seq![102u8, 97u8, 108u8, 115u8, 101u8]
    } else {
        seq![116u8, 114u8, 117u8, 101u8]
    }
}

/// Matches the keyword bytes `kw[j..]` against the front of `s`, one byte at
/// a time.
///
/// Returns the input remaining after the keyword.  A byte that differs from
/// the expected one is an invalid-character error; input that ends first is
/// an end-of-input error.
pub open spec fn literal_scan(s: Seq<u8>, kw: Seq<u8>, j: int) -> Result<Seq<u8>, ErrorModel>
    decreases kw.len() - j,
{
    if j < 0 || j >= kw.len() {
        Ok(s)
    } else if s.len() == 0 {
        Err(ErrorModel::UnexpectedEndOfInput)
    } else if s[0] == kw[j] {
        literal_scan(s.skip(1), kw, j + 1)
    } else {
        Err(ErrorModel::InvalidCharacter(s[0] as char))
    }
}

/// Scans the remainder of a number.
///
/// `n` is the integer part accumulated so far, `fraction` the fractional
/// digits so far, `in_fraction` whether the single decimal point has been
/// passed, and `negative` the sign.  Integer digits accumulate as
/// `n * 10 + digit`; a digit that would push `n` past `u64::MAX` is an
/// invalid-number error carrying the value accumulated so far, as is a
/// second decimal point.  The scan stops at the first byte that is neither a
/// digit nor the first decimal point, leaving that byte in the remainder.
pub open spec fn number_scan(
    s: Seq<u8>,
    n: int,
    fraction: Seq<u8>,
    in_fraction: bool,
    negative: bool,
) -> Result<(NumberModel, Seq<u8>), ErrorModel>
    decreases s.len(),
{
    if s.len() == 0 {
        Ok((NumberModel { negative, integer: n, fraction }, s))
    } else if is_digit(s[0]) && !in_fraction {
        let d = s[0] - 48;
        if n * 10 + d > u64::MAX {
            Err(ErrorModel::InvalidNumber(NumberModel { negative, integer: n, fraction }))
        } else {
            number_scan(s.skip(1), n * 10 + d, fraction, false, negative)
        }
    } else if is_digit(s[0]) {
        number_scan(s.skip(1), n, fraction.push((s[0] - 48) as u8), true, negative)
    } else if s[0] == 46 {
        if in_fraction {
            Err(ErrorModel::InvalidNumber(NumberModel { negative, integer: n, fraction }))
        } else {
            number_scan(s.skip(1), n, fraction, true, negative)
        }
    } else {
        Ok((NumberModel { negative, integer: n, fraction }, s))
    }
}

/// Begins a number scan from its first byte.
///
/// A leading digit seeds the accumulator; a leading `-` sets the sign; a
/// leading `+` is accepted and has no effect.  `s` is the input after that
/// first byte.
pub open spec fn number_start(first: u8, s: Seq<u8>) -> Result<(NumberModel, Seq<u8>), ErrorModel> {
    if is_digit(first) {
        number_scan(s, first - 48, Seq::empty(), false, false)
    } else if first == 45 {
        number_scan(s, 0, Seq::empty(), false, true)
    } else {
        number_scan(s, 0, Seq::empty(), false, false)
    }
}

/// Puts one token in front of the outcome of tokenizing the rest of the
/// input; an error swallows the token.
pub open spec fn prepend_token(
    t: TokenModel,
    rest: Result<Seq<TokenModel>, ErrorModel>,
) -> Result<Seq<TokenModel>, ErrorModel> {
    match rest {
        Ok(tokens) => Ok(seq![t] + tokens),
        Err(e) => Err(e),
    }
}

/// On success the string scanner has consumed at least the closing quote.
pub proof fn lemma_string_scan_remaining(s: Seq<u8>)
    ensures
        string_scan(s) matches Ok(p) ==> p.1.len() < s.len(),
    decreases s.len(),
{
    if s.len() == 0 {
    } else if s[0] == 34 {
    } else if s[0] == 92 {
        if s.len() > 1 {
            lemma_string_scan_remaining(s.skip(2));
        }
    } else {
        lemma_string_scan_remaining(s.skip(1));
    }
}

/// The literal scanner never invents input: on success the remainder is no
/// longer than what it was given.
pub proof fn lemma_literal_scan_remaining(s: Seq<u8>, kw: Seq<u8>, j: int)
    ensures
        literal_scan(s, kw, j) matches Ok(r) ==> r.len() <= s.len(),
    decreases kw.len() - j,
{
    if 0 <= j < kw.len() && s.len() > 0 && s[0] == kw[j] {
        lemma_literal_scan_remaining(s.skip(1), kw, j + 1);
    }
}

/// The number scanner never invents input: on success the remainder is no
/// longer than what it was given.
pub proof fn lemma_number_scan_remaining(
    s: Seq<u8>,
    n: int,
    fraction: Seq<u8>,
    in_fraction: bool,
    negative: bool,
)
    ensures
        number_scan(s, n, fraction, in_fraction, negative) matches Ok(p) ==> p.1.len() <= s.len(),
    decreases s.len(),
{
    if s.len() == 0 {
    } else if is_digit(s[0]) && !in_fraction {
        let d = s[0] - 48;
        if n * 10 + d <= u64::MAX {
            lemma_number_scan_remaining(s.skip(1), n * 10 + d, fraction, false, negative);
        }
    } else if is_digit(s[0]) {
        lemma_number_scan_remaining(s.skip(1), n, fraction.push((s[0] - 48) as u8), true, negative);
    } else if s[0] == 46 && !in_fraction {
        lemma_number_scan_remaining(s.skip(1), n, fraction, true, negative);
    }
}

/// The token sequence encoded by `s`, or the first fatal error.
///
/// Classification of the first byte, in priority order: whitespace is
/// skipped; `{` `}` `:` `,` are tokens of their own; `f` and `t` open a
/// keyword; a digit or sign opens a number; a quote opens a string; any
/// other byte is one `Invalid` token, and scanning continues after it.
pub open spec fn spec_tokenize(s: Seq<u8>) -> Result<Seq<TokenModel>, ErrorModel>
    decreases s.len(),
{
    if s.len() == 0 {
        Ok(Seq::empty())
    } else {
        let b = s[0];
        if is_whitespace(b) {
            spec_tokenize(s.skip(1))
        } else if b == 123 {
            prepend_token(TokenModel::ObjectStart, spec_tokenize(s.skip(1)))
        } else if b == 125 {
            prepend_token(TokenModel::ObjectEnd, spec_tokenize(s.skip(1)))
        } else if b == 58 {
            prepend_token(TokenModel::Colon, spec_tokenize(s.skip(1)))
        } else if b == 44 {
            prepend_token(TokenModel::Comma, spec_tokenize(s.skip(1)))
        } else if b == 102 || b == 116 {
            match literal_scan(s.skip(1), spec_keyword(b), 1) {
                Ok(rest) => {
                    proof {
                        lemma_literal_scan_remaining(s.skip(1), spec_keyword(b), 1);
                    }
                    prepend_token(TokenModel::BooleanLiteral(b == 116), spec_tokenize(rest))
                },
                Err(e) => Err(e),
            }
        } else if is_digit(b) || b == 43 || b == 45 {
            match number_start(b, s.skip(1)) {
                Ok((num, rest)) => {
                    proof {
                        lemma_number_scan_remaining(
                            s.skip(1),
                            if is_digit(b) {
                                b - 48
                            } else {
                                0
                            },
                            Seq::empty(),
                            false,
                            b == 45,
                        );
                    }
                    prepend_token(TokenModel::NumberLiteral(num), spec_tokenize(rest))
                },
                Err(e) => Err(e),
            }
        } else if b == 34 {
            match string_scan(s.skip(1)) {
                Ok((text, rest)) => {
                    proof {
                        lemma_string_scan_remaining(s.skip(1));
                    }
                    prepend_token(TokenModel::StringLiteral(text), spec_tokenize(rest))
                },
                Err(e) => Err(e),
            }
        } else {
            prepend_token(TokenModel::Invalid, spec_tokenize(s.skip(1)))
        }
    }
}

/// An input of nothing but whitespace yields the empty token sequence.
pub proof fn lemma_whitespace_only(s: Seq<u8>)
    requires
        forall|k: int| 0 <= k < s.len() ==> is_whitespace(s[k]),
    ensures
        spec_tokenize(s) == Ok::<Seq<TokenModel>, ErrorModel>(Seq::empty()),
    decreases s.len(),
{
    if s.len() > 0 {
        assert(is_whitespace(s[0]));
        assert(forall|k: int| 0 <= k < s.skip(1).len() ==> is_whitespace(#[trigger] s.skip(1)[k]));
        lemma_whitespace_only(s.skip(1));
    }
}

/// A byte that matches no classification rule yields one `Invalid` token,
/// and scanning continues over the rest of the input without aborting.
pub proof fn lemma_stray_byte(b: u8, rest: Seq<u8>)
    requires
        !is_whitespace(b),
        b != 123,
        b != 125,
        b != 58,
        b != 44,
        b != 102,
        b != 116,
        !is_digit(b),
        b != 43,
        b != 45,
        b != 34,
    ensures
        spec_tokenize(seq![b] + rest) == prepend_token(TokenModel::Invalid, spec_tokenize(rest)),
{
    let s = seq![b] + rest;
    assert(s[0] == b);
    assert(s.skip(1) =~= rest);
}

} // verus!
