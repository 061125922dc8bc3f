//! The executable lexer, proved to agree with the model in [`crate::model`].
//!
//! `JsonLexer` owns the input bytes and exposes one entry operation,
//! [`JsonLexer::tokenize`], which consumes the whole input and returns either
//! the complete token sequence or the first fatal error — exactly the value
//! [`crate::model::spec_tokenize`] assigns to the input.

use crate::model::{
    is_digit, literal_scan, number_scan, number_start, spec_keyword, spec_tokenize, string_scan,
};
use crate::token::{token_models, ErrorModel, JsonError, JsonNumber, JsonToken, NumberModel, TokenModel};
use vstd::prelude::*;

verus! {

/// Relies on `String::push`: appends exactly the one given character.
#[verifier::external_body]
fn push_char(s: &mut String, c: char)
    ensures
        final(s)@ == old(s)@.push(c),
{
    s.push(c)
}

/// The byte at position `j` of the keyword announced by `first`.
fn keyword_byte(first: u8, j: usize) -> (b: u8)
    requires
        first == 102 || first == 116,
        j < spec_keyword(first).len(),
    ensures
        b == spec_keyword(first)[j as int],
{
    if first == 102 {
        if j == 0 {
            102
        } else if j == 1 {
            97
        } else if j == 2 {
            108
        } else if j == 3 {
            115
        } else {
            101
        }
    } else {
        if j == 0 {
            116
        } else if j == 1 {
            114
        } else if j == 2 {
            117
        } else {
            101
        }
    }
}

/// Mapping a token sequence distributes over appending one token.
proof fn lemma_models_push(tokens: Seq<JsonToken>, t: JsonToken)
    ensures
        token_models(tokens.push(t)) == token_models(tokens).push(t@),
{
    assert(token_models(tokens.push(t)) =~= token_models(tokens).push(t@));
}

/// Appending one model and then a tail is prepending the model to the tail.
proof fn lemma_push_then_append(a: Seq<TokenModel>, x: TokenModel, ts: Seq<TokenModel>)
    ensures
        a.push(x) + ts == a + (seq![x] + ts),
{
    assert(a.push(x) + ts =~= a + (seq![x] + ts));
}

/// The lexer: the input byte sequence, consumed by one tokenization pass.
pub struct JsonLexer {
    input: Vec<u8>,
}

impl View for JsonLexer {
    type V = Seq<u8>;

    closed spec fn view(&self) -> Seq<u8> {
        self.input@
    }
}

impl JsonLexer {
    /// Wraps the input bytes in a lexer.
    pub fn new(input: Vec<u8>) -> (lexer: Self)
        ensures
            lexer@ == input@,
    {
        JsonLexer { input }
    }

    /// Consumes the whole input and returns the token sequence it encodes,
    /// or the first fatal error; no partial sequence is returned on failure.
    #[verifier::loop_isolation(false)]
    pub fn tokenize(self) -> (result: Result<Vec<JsonToken>, JsonError>)
        ensures
            match result {
                Ok(tokens) => spec_tokenize(self@) == Ok::<_, ErrorModel>(token_models(tokens@)),
                Err(e) => spec_tokenize(self@) == Err::<Seq<TokenModel>, _>(e@),
            },
    {
        let input = self.input;
        let mut tokens: Vec<JsonToken> = Vec::new();
        let mut i: usize = 0;
        proof {
            assert(input@.skip(0) =~= input@);
            assert(token_models(tokens@) =~= Seq::<TokenModel>::empty());
            if let Ok(ts) = spec_tokenize(input@) {
                assert(token_models(tokens@) + ts =~= ts);
            }
        }
        while i < input.len()
            invariant
                i <= input@.len(),
                spec_tokenize(input@) == (match spec_tokenize(input@.skip(i as int)) {
                    Ok(ts) => Ok::<Seq<TokenModel>, ErrorModel>(token_models(tokens@) + ts),
                    Err(e) => Err(e),
                }),
            decreases input@.len() - i,
        {
            let ghost s_cur = input@.skip(i as int);
            let ghost prev = tokens@;
            let b = input[i];
            i = i + 1;
            proof {
                assert(s_cur[0] == b);
                assert(s_cur.skip(1) =~= input@.skip(i as int));
            }
            if b == 32 || b == 9 || b == 10 || b == 13 {
                // whitespace: no token
            } else if b == 123 {
                tokens.push(JsonToken::ObjectStart);
                proof {
                    lemma_models_push(prev, JsonToken::ObjectStart);
                    if let Ok(ts) = spec_tokenize(input@.skip(i as int)) {
                        lemma_push_then_append(token_models(prev), TokenModel::ObjectStart, ts);
                    }
                }
            } else if b == 125 {
                tokens.push(JsonToken::ObjectEnd);
                proof {
                    lemma_models_push(prev, JsonToken::ObjectEnd);
                    if let Ok(ts) = spec_tokenize(input@.skip(i as int)) {
                        lemma_push_then_append(token_models(prev), TokenModel::ObjectEnd, ts);
                    }
                }
            } else if b == 58 {
                tokens.push(JsonToken::Colon);
                proof {
                    lemma_models_push(prev, JsonToken::Colon);
                    if let Ok(ts) = spec_tokenize(input@.skip(i as int)) {
                        lemma_push_then_append(token_models(prev), TokenModel::Colon, ts);
                    }
                }
            } else if b == 44 {
                tokens.push(JsonToken::Comma);
                proof {
                    lemma_models_push(prev, JsonToken::Comma);
                    if let Ok(ts) = spec_tokenize(input@.skip(i as int)) {
                        lemma_push_then_append(token_models(prev), TokenModel::Comma, ts);
                    }
                }
            } else if b == 102 || b == 116 {
                let value = match Self::consume_literal(&input, &mut i, b) {
                    Ok(v) => v,
                    Err(e) => {
                        return Err(e);
                    },
                };
                tokens.push(JsonToken::BooleanLiteral(value));
                proof {
                    lemma_models_push(prev, JsonToken::BooleanLiteral(value));
                    if let Ok(ts) = spec_tokenize(input@.skip(i as int)) {
                        lemma_push_then_append(
                            token_models(prev),
                            TokenModel::BooleanLiteral(value),
                            ts,
                        );
                    }
                }
            } else if (b >= 48 && b <= 57) || b == 43 || b == 45 {
                let number = match Self::consume_number(&input, &mut i, b) {
                    Ok(v) => v,
                    Err(e) => {
                        return Err(e);
                    },
                };
                let ghost number_model = number@;
                tokens.push(JsonToken::NumberLiteral(number));
                proof {
                    lemma_models_push(prev, JsonToken::NumberLiteral(number));
                    if let Ok(ts) = spec_tokenize(input@.skip(i as int)) {
                        lemma_push_then_append(
                            token_models(prev),
                            TokenModel::NumberLiteral(number_model),
                            ts,
                        );
                    }
                }
            } else if b == 34 {
                let text = match Self::consume_string(&input, &mut i) {
                    Ok(v) => v,
                    Err(e) => {
                        return Err(e);
                    },
                };
                let ghost text_model = text@;
                tokens.push(JsonToken::StringLiteral(text));
                proof {
                    lemma_models_push(prev, JsonToken::StringLiteral(text));
                    if let Ok(ts) = spec_tokenize(input@.skip(i as int)) {
                        lemma_push_then_append(
                            token_models(prev),
                            TokenModel::StringLiteral(text_model),
                            ts,
                        );
                    }
                }
            } else {
                tokens.push(JsonToken::Invalid);
                proof {
                    lemma_models_push(prev, JsonToken::Invalid);
                    if let Ok(ts) = spec_tokenize(input@.skip(i as int)) {
                        lemma_push_then_append(token_models(prev), TokenModel::Invalid, ts);
                    }
                }
            }
        }
        proof {
            assert(input@.skip(i as int).len() == 0);
            assert(token_models(tokens@) + Seq::<TokenModel>::empty() =~= token_models(tokens@));
        }
        Ok(tokens)
    }

    /// Scans a string body: `*i` is just after the opening quote on entry,
    /// just after the closing quote on success.
    #[verifier::loop_isolation(false)]
    fn consume_string(input: &Vec<u8>, i: &mut usize) -> (result: Result<String, JsonError>)
        requires
            *old(i) <= input@.len(),
        ensures
            match result {
                Ok(text) => {
                    &&& *old(i) <= *final(i) <= input@.len()
                    &&& string_scan(input@.skip(*old(i) as int)) == Ok::<_, ErrorModel>(
                        (text@, input@.skip(*final(i) as int)),
                    )
                },
                Err(e) => string_scan(input@.skip(*old(i) as int)) == Err::<
                    (Seq<char>, Seq<u8>),
                    _,
                >(e@),
            },
    {
        let ghost i0 = *i;
        let mut pos: usize = *i;
        let mut text = String::new();
        while pos < input.len()
            invariant
                i0 <= pos <= input@.len(),
                string_scan(input@.skip(i0 as int)) == (match string_scan(
                    input@.skip(pos as int),
                ) {
                    Ok(p) => Ok::<(Seq<char>, Seq<u8>), ErrorModel>((text@ + p.0, p.1)),
                    Err(e) => Err(e),
                }),
            decreases input@.len() - pos,
        {
            let ghost s_cur = input@.skip(pos as int);
            let b = input[pos];
            pos = pos + 1;
            proof {
                assert(s_cur[0] == b);
                assert(s_cur.skip(1) =~= input@.skip(pos as int));
            }
            if b == 34 {
                proof {
                    assert(text@ + Seq::<char>::empty() =~= text@);
                }
                *i = pos;
                return Ok(text);
            } else if b == 92 {
                if pos >= input.len() {
                    proof {
                        assert(s_cur.len() == 1);
                    }
                    return Err(JsonError::UnexpectedEndOfInput);
                }
                let ghost prev_text = text@;
                let escaped = input[pos];
                pos = pos + 1;
                proof {
                    assert(s_cur[1] == escaped);
                    assert(s_cur.skip(2) =~= input@.skip(pos as int));
                }
                let replacement = if escaped == 34 {
                    '"'
                } else if escaped == 92 {
                    '\\'
                } else if escaped == 98 {
                    '\u{08}'
                } else if escaped == 102 {
                    '\u{0C}'
                } else if escaped == 110 {
                    'n'
                } else if escaped == 114 {
                    'r'
                } else if escaped == 116 {
                    't'
                } else if escaped == 117 {
                    return Err(JsonError::UnsupportedEscape);
                } else {
                    return Err(JsonError::InvalidEscapeSequence(escaped as char));
                };
                push_char(&mut text, replacement);
                proof {
                    if let Ok(p) = string_scan(input@.skip(pos as int)) {
                        assert(text@ + p.0 =~= prev_text + (seq![replacement] + p.0));
                    }
                }
            } else {
                let ghost prev_text = text@;
                push_char(&mut text, b as char);
                proof {
                    if let Ok(p) = string_scan(input@.skip(pos as int)) {
                        assert(text@ + p.0 =~= prev_text + (seq![b as char] + p.0));
                    }
                }
            }
        }
        Err(JsonError::UnexpectedEndOfInput)
    }

    /// Matches the rest of the keyword announced by `first`, whose first
    /// byte has already been consumed; `*i` points at the second byte on
    /// entry and just after the keyword on success.
    #[verifier::loop_isolation(false)]
    fn consume_literal(input: &Vec<u8>, i: &mut usize, first: u8) -> (result: Result<
        bool,
        JsonError,
    >)
        requires
            first == 102 || first == 116,
            *old(i) <= input@.len(),
        ensures
            match result {
                Ok(value) => {
                    &&& *old(i) <= *final(i) <= input@.len()
                    &&& value == (first == 116)
                    &&& literal_scan(input@.skip(*old(i) as int), spec_keyword(first), 1)
                        == Ok::<_, ErrorModel>(input@.skip(*final(i) as int))
                },
                Err(e) => literal_scan(input@.skip(*old(i) as int), spec_keyword(first), 1)
                    == Err::<Seq<u8>, _>(e@),
            },
    {
        let ghost i0 = *i;
        let mut pos: usize = *i;
        let kw_len: usize = if first == 102 {
            5
        } else {
            4
        };
        let mut j: usize = 1;
        while j < kw_len
            invariant
                first == 102 || first == 116,
                kw_len == spec_keyword(first).len(),
                1 <= j <= kw_len,
                i0 <= pos <= input@.len(),
                literal_scan(input@.skip(i0 as int), spec_keyword(first), 1) == literal_scan(
                    input@.skip(pos as int),
                    spec_keyword(first),
                    j as int,
                ),
            decreases kw_len - j,
        {
            if pos >= input.len() {
                proof {
                    assert(input@.skip(pos as int).len() == 0);
                }
                return Err(JsonError::UnexpectedEndOfInput);
            }
            let ghost s_cur = input@.skip(pos as int);
            let b = input[pos];
            let expected = keyword_byte(first, j);
            proof {
                assert(s_cur[0] == b);
            }
            if b != expected {
                return Err(JsonError::InvalidCharacter(b as char));
            }
            pos = pos + 1;
            j = j + 1;
            proof {
                assert(s_cur.skip(1) =~= input@.skip(pos as int));
            }
        }
        *i = pos;
        Ok(first == 116)
    }

    /// Scans the remainder of a number whose first byte (a digit or a sign)
    /// was `first`; `*i` points just after that byte on entry and at the
    /// first byte that does not belong to the number on success.
    #[verifier::loop_isolation(false)]
    fn consume_number(input: &Vec<u8>, i: &mut usize, first: u8) -> (result: Result<
        JsonNumber,
        JsonError,
    >)
        requires
            is_digit(first) || first == 43 || first == 45,
            *old(i) <= input@.len(),
        ensures
            match result {
                Ok(number) => {
                    &&& *old(i) <= *final(i) <= input@.len()
                    &&& number.wf()
                    &&& number_start(first, input@.skip(*old(i) as int)) == Ok::<_, ErrorModel>(
                        (number@, input@.skip(*final(i) as int)),
                    )
                },
                Err(e) => number_start(first, input@.skip(*old(i) as int)) == Err::<
                    (NumberModel, Seq<u8>),
                    _,
                >(e@),
            },
    {
        let ghost i0 = *i;
        let mut pos: usize = *i;
        let negative = first == 45;
        let mut n: u64 = if first >= 48 && first <= 57 {
            (first - 48) as u64
        } else {
            0
        };
        let mut fraction: Vec<u8> = Vec::new();
        let mut in_fraction = false;
        proof {
            assert(fraction@ =~= Seq::<u8>::empty());
        }
        while pos < input.len()
            invariant
                i0 <= pos <= input@.len(),
                forall|k: int| 0 <= k < fraction@.len() ==> fraction@[k] < 10,
                number_start(first, input@.skip(i0 as int)) == number_scan(
                    input@.skip(pos as int),
                    n as int,
                    fraction@,
                    in_fraction,
                    negative,
                ),
            decreases input@.len() - pos,
        {
            let ghost s_cur = input@.skip(pos as int);
            let b = input[pos];
            proof {
                assert(s_cur[0] == b);
            }
            if b >= 48 && b <= 57 && !in_fraction {
                let d = (b - 48) as u64;
                let wide: u128 = (n as u128) * 10 + (d as u128);
                if wide > u64::MAX as u128 {
                    return Err(JsonError::InvalidNumber(JsonNumber { negative, integer: n, fraction }));
                }
                n = wide as u64;
                pos = pos + 1;
                proof {
                    assert(s_cur.skip(1) =~= input@.skip(pos as int));
                }
            } else if b >= 48 && b <= 57 {
                fraction.push(b - 48);
                pos = pos + 1;
                proof {
                    assert(s_cur.skip(1) =~= input@.skip(pos as int));
                }
            } else if b == 46 {
                if in_fraction {
                    return Err(JsonError::InvalidNumber(JsonNumber { negative, integer: n, fraction }));
                }
                in_fraction = true;
                pos = pos + 1;
                proof {
                    assert(s_cur.skip(1) =~= input@.skip(pos as int));
                }
            } else {
                break;
            }
        }
        *i = pos;
        Ok(JsonNumber { negative, integer: n, fraction })
    }
}

} // verus!
