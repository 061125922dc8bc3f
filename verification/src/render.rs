//! Rendering of tokens back to bytes, and the round-trip law.
//!
//! Punctuation, booleans and integral numbers render losslessly; tokenizing
//! the rendering of any sequence of such tokens reproduces the sequence,
//! which [`lemma_round_trip`] proves.

use crate::model::{
    is_digit, is_whitespace, literal_scan, number_scan, prepend_token, spec_keyword, spec_tokenize,
};
use crate::token::{ErrorModel, NumberModel, TokenModel};
use vstd::arithmetic::div_mod::lemma_fundamental_div_mod;
use vstd::prelude::*;

verus! {

/// Tokens whose rendering is lossless: punctuation, booleans, and numbers
/// without fractional digits.
pub open spec fn renderable(t: TokenModel) -> bool {
    match t {
        TokenModel::ObjectStart => true,
        TokenModel::ObjectEnd => true,
        TokenModel::Colon => true,
        TokenModel::Comma => true,
        TokenModel::BooleanLiteral(_) => true,
        TokenModel::NumberLiteral(n) => n.fraction.len() == 0 && 0 <= n.integer <= u64::MAX,
        TokenModel::StringLiteral(_) => false,
        TokenModel::Invalid => false,
    }
}

/// The decimal digits of `n`, most significant first, as ASCII bytes.
pub open spec fn digits_of(n: nat) -> Seq<u8>
    decreases n,
{
    if n <= 9 {
        seq![(48 + n) as u8]
    } else {
        digits_of(n / 10).push((48 + n % 10) as u8)
    }
}

/// The byte rendering of one lossless token.
pub open spec fn render_token(t: TokenModel) -> Seq<u8> {
    match t {
        TokenModel::ObjectStart => seq![123u8],
        TokenModel::ObjectEnd => seq![125u8],
        TokenModel::Colon => seq![58u8],
        TokenModel::Comma => seq![44u8],
        TokenModel::BooleanLiteral(v) => if v {
            seq![116u8, 114u8, 117u8, 101u8]
        } else {
            seq![102u8, 97u8, 108u8, 115u8, 101u8]
        },
        TokenModel::NumberLiteral(n) => if n.negative {
            seq![45u8] + digits_of(n.integer as nat)
        } else {
            digits_of(n.integer as nat)
        },
        TokenModel::StringLiteral(_) => Seq::empty(),
        TokenModel::Invalid => Seq::empty(),
    }
}

/// The rendering of a whole sequence: each token followed by one space, so
/// that no two renderings run together.
pub open spec fn render_tokens(ts: Seq<TokenModel>) -> Seq<u8>
    decreases ts.len(),
{
    if ts.len() == 0 {
        Seq::empty()
    } else {
        render_token(ts[0]) + seq![32u8] + render_tokens(ts.skip(1))
    }
}

/// The value reached by accumulating the ASCII digits `d` onto `acc`, most
/// significant first — the arithmetic the number scanner performs.
pub open spec fn accumulate(acc: int, d: Seq<u8>) -> int
    decreases d.len(),
{
    if d.len() == 0 {
        acc
    } else {
        accumulate(acc * 10 + (d[0] - 48), d.skip(1))
    }
}

/// The rendering of `n` is at least one byte, all of them digits.
proof fn lemma_digits_of_digits(n: nat)
    ensures
        digits_of(n).len() >= 1,
        forall|k: int| 0 <= k < digits_of(n).len() ==> is_digit(#[trigger] digits_of(n)[k]),
    decreases n,
{
    if n > 9 {
        lemma_digits_of_digits(n / 10);
    }
}

/// Accumulation never shrinks a non-negative accumulator.
proof fn lemma_accumulate_lower(acc: int, d: Seq<u8>)
    requires
        acc >= 0,
        forall|k: int| 0 <= k < d.len() ==> is_digit(#[trigger] d[k]),
    ensures
        accumulate(acc, d) >= acc,
    decreases d.len(),
{
    if d.len() > 0 {
        assert(is_digit(d[0]));
        assert(forall|k: int| 0 <= k < d.skip(1).len() ==> is_digit(#[trigger] d.skip(1)[k]));
        lemma_accumulate_lower(acc * 10 + (d[0] - 48), d.skip(1));
    }
}

/// One more digit at the low end multiplies the accumulated value by ten and
/// adds that digit.
proof fn lemma_accumulate_push(acc: int, d: Seq<u8>, r: u8)
    ensures
        accumulate(acc, d.push(r)) == 10 * accumulate(acc, d) + (r - 48),
    decreases d.len(),
{
    if d.len() == 0 {
        assert(d.push(r)[0] == r);
        assert(d.push(r).skip(1) =~= Seq::<u8>::empty());
        assert(accumulate(acc * 10 + (r - 48), Seq::<u8>::empty()) == acc * 10 + (r - 48));
    } else {
        assert(d.push(r)[0] == d[0]);
        assert(d.push(r).skip(1) =~= d.skip(1).push(r));
        lemma_accumulate_push(acc * 10 + (d[0] - 48), d.skip(1), r);
    }
}

/// Accumulating the digits of `n` from zero yields `n` back.
proof fn lemma_digits_value(n: nat)
    ensures
        accumulate(0, digits_of(n)) == n,
    decreases n,
{
    if n <= 9 {
        assert(digits_of(n)[0] == (48 + n) as u8);
        assert(digits_of(n).skip(1) =~= Seq::<u8>::empty());
        assert(accumulate(0 * 10 + ((48 + n) as u8 - 48), Seq::<u8>::empty()) == n);
    } else {
        lemma_digits_value(n / 10);
        lemma_accumulate_push(0, digits_of(n / 10), (48 + n % 10) as u8);
        lemma_fundamental_div_mod(n as int, 10);
    }
}

/// The number scanner consumes exactly a run of integer digits and yields
/// their accumulated value, leaving a non-numeric tail untouched.
proof fn lemma_number_scan_digits(d: Seq<u8>, acc: int, tail: Seq<u8>, negative: bool)
    requires
        forall|k: int| 0 <= k < d.len() ==> is_digit(#[trigger] d[k]),
        acc >= 0,
        accumulate(acc, d) <= u64::MAX,
        tail.len() == 0 || (!is_digit(tail[0]) && tail[0] != 46),
    ensures
        number_scan(d + tail, acc, Seq::empty(), false, negative) == Ok::<_, ErrorModel>(
            (NumberModel { negative, integer: accumulate(acc, d), fraction: Seq::empty() }, tail),
        ),
    decreases d.len(),
{
    if d.len() == 0 {
        assert(d + tail =~= tail);
    } else {
        let s = d + tail;
        assert(s[0] == d[0]);
        assert(is_digit(d[0]));
        assert(forall|k: int| 0 <= k < d.skip(1).len() ==> is_digit(#[trigger] d.skip(1)[k]));
        lemma_accumulate_lower(acc * 10 + (d[0] - 48), d.skip(1));
        assert(s.skip(1) =~= d.skip(1) + tail);
        lemma_number_scan_digits(d.skip(1), acc * 10 + (d[0] - 48), tail, negative);
    }
}

/// The literal scanner accepts the rest of its own keyword and leaves the
/// tail untouched.
proof fn lemma_literal_scan_match(kw: Seq<u8>, j: int, tail: Seq<u8>)
    requires
        0 <= j <= kw.len(),
    ensures
        literal_scan(kw.skip(j) + tail, kw, j) == Ok::<_, ErrorModel>(tail),
    decreases kw.len() - j,
{
    if j == kw.len() {
        assert(kw.skip(j) + tail =~= tail);
    } else {
        let s = kw.skip(j) + tail;
        assert(s[0] == kw[j]);
        assert(s.skip(1) =~= kw.skip(j + 1) + tail);
        lemma_literal_scan_match(kw, j + 1, tail);
    }
}

/// Tokenizing the rendering of one lossless token followed by anything that
/// cannot extend a number yields that token, then the tokens of the tail.
proof fn lemma_render_token_scan(t: TokenModel, tail: Seq<u8>)
    requires
        renderable(t),
        tail.len() == 0 || (!is_digit(tail[0]) && tail[0] != 46),
    ensures
        spec_tokenize(render_token(t) + tail) == prepend_token(t, spec_tokenize(tail)),
{
    let s = render_token(t) + tail;
    match t {
        TokenModel::ObjectStart => {
            assert(s.skip(1) =~= tail);
        },
        TokenModel::ObjectEnd => {
            assert(s.skip(1) =~= tail);
        },
        TokenModel::Colon => {
            assert(s.skip(1) =~= tail);
        },
        TokenModel::Comma => {
            assert(s.skip(1) =~= tail);
        },
        TokenModel::BooleanLiteral(v) => {
            let kw = spec_keyword(if v {
                116
            } else {
                102
            });
            assert(s[0] == kw[0]);
            assert(s.skip(1) =~= kw.skip(1) + tail);
            lemma_literal_scan_match(kw, 1, tail);
        },
        TokenModel::NumberLiteral(nm) => {
            let digits = digits_of(nm.integer as nat);
            lemma_digits_of_digits(nm.integer as nat);
            lemma_digits_value(nm.integer as nat);
            assert(nm.fraction =~= Seq::<u8>::empty());
            if nm.negative {
                assert(s[0] == 45);
                assert(s.skip(1) =~= digits + tail);
                lemma_number_scan_digits(digits, 0, tail, true);
            } else {
                assert(s[0] == digits[0]);
                assert(is_digit(digits[0]));
                assert(s.skip(1) =~= digits.skip(1) + tail);
                assert(forall|k: int|
                    0 <= k < digits.skip(1).len() ==> is_digit(#[trigger] digits.skip(1)[k]));
                lemma_accumulate_lower((digits[0] - 48) as int, digits.skip(1));
                lemma_number_scan_digits(digits.skip(1), (digits[0] - 48) as int, tail, false);
                assert(accumulate((digits[0] - 48) as int, digits.skip(1)) == accumulate(
                    0,
                    digits,
                ));
            }
        },
        TokenModel::StringLiteral(_) => {
            assert(false);
        },
        TokenModel::Invalid => {
            assert(false);
        },
    }
}

/// The round-trip law: tokenizing the rendered form of any sequence of
/// lossless tokens — punctuation, booleans, integral numbers — reproduces
/// exactly that sequence.
pub proof fn lemma_round_trip(ts: Seq<TokenModel>)
    requires
        forall|k: int| 0 <= k < ts.len() ==> renderable(#[trigger] ts[k]),
    ensures
        spec_tokenize(render_tokens(ts)) == Ok::<_, ErrorModel>(ts),
    decreases ts.len(),
{
    if ts.len() == 0 {
        assert(ts =~= Seq::<TokenModel>::empty());
    } else {
        let t = ts[0];
        let rest = ts.skip(1);
        assert(forall|k: int| 0 <= k < rest.len() ==> renderable(#[trigger] rest[k]));
        lemma_round_trip(rest);
        let tail = seq![32u8] + render_tokens(rest);
        assert(render_tokens(ts) =~= render_token(t) + tail);
        lemma_render_token_scan(t, tail);
        assert(tail[0] == 32);
        assert(is_whitespace(tail[0]));
        assert(tail.skip(1) =~= render_tokens(rest));
        assert(seq![t] + rest =~= ts);
    }
}

} // verus!
