use json_lexer::{JsonError, JsonLexer, JsonNumber, JsonToken};

fn lex(input: &[u8]) -> Result<Vec<JsonToken>, JsonError> {
    JsonLexer::new(input.to_vec()).tokenize()
}

fn number(negative: bool, integer: u64, fraction: &[u8]) -> JsonNumber {
    JsonNumber { negative, integer, fraction: fraction.to_vec() }
}

#[test]
fn whitespace_only_input_yields_no_tokens() {
    assert_eq!(lex(b"  \t\r\n   \t").unwrap(), vec![]);
}

#[test]
fn empty_input_yields_no_tokens() {
    assert_eq!(lex(b"").unwrap(), vec![]);
}

#[test]
fn empty_object_yields_start_and_end() {
    assert_eq!(
        lex(b"{}").unwrap(),
        vec![JsonToken::ObjectStart, JsonToken::ObjectEnd]
    );
}

#[test]
fn simple_string_yields_one_token() {
    assert_eq!(
        lex(b"\"abc\"").unwrap(),
        vec![JsonToken::StringLiteral("abc".to_string())]
    );
}

#[test]
fn true_literal() {
    assert_eq!(lex(b"true").unwrap(), vec![JsonToken::BooleanLiteral(true)]);
}

#[test]
fn false_literal() {
    assert_eq!(lex(b"false").unwrap(), vec![JsonToken::BooleanLiteral(false)]);
}

#[test]
fn truncated_literal_is_end_of_input_error() {
    assert_eq!(lex(b"tru").unwrap_err(), JsonError::UnexpectedEndOfInput);
}

#[test]
fn mismatched_literal_byte_is_invalid_character() {
    assert_eq!(lex(b"tr1e").unwrap_err(), JsonError::InvalidCharacter('1'));
}

#[test]
fn integer_number() {
    assert_eq!(
        lex(b"123").unwrap(),
        vec![JsonToken::NumberLiteral(number(false, 123, &[]))]
    );
}

#[test]
fn negative_fractional_number() {
    assert_eq!(
        lex(b"-12.5").unwrap(),
        vec![JsonToken::NumberLiteral(number(true, 12, &[5]))]
    );
}

#[test]
fn second_decimal_point_is_invalid_number() {
    assert_eq!(
        lex(b"1.2.3").unwrap_err(),
        JsonError::InvalidNumber(number(false, 1, &[2]))
    );
}

#[test]
fn plus_sign_has_no_effect() {
    assert_eq!(
        lex(b"+42").unwrap(),
        vec![JsonToken::NumberLiteral(number(false, 42, &[]))]
    );
}

#[test]
fn lone_minus_is_negative_zero() {
    assert_eq!(
        lex(b"-").unwrap(),
        vec![JsonToken::NumberLiteral(number(true, 0, &[]))]
    );
}

#[test]
fn largest_integer_is_accepted() {
    assert_eq!(
        lex(b"18446744073709551615").unwrap(),
        vec![JsonToken::NumberLiteral(number(false, u64::MAX, &[]))]
    );
}

#[test]
fn overflowing_integer_is_invalid_number() {
    assert_eq!(
        lex(b"18446744073709551616").unwrap_err(),
        JsonError::InvalidNumber(number(false, 1844674407370955161, &[]))
    );
}

#[test]
fn exponent_marker_ends_the_number() {
    assert_eq!(
        lex(b"1e3").unwrap(),
        vec![
            JsonToken::NumberLiteral(number(false, 1, &[])),
            JsonToken::Invalid,
            JsonToken::NumberLiteral(number(false, 3, &[])),
        ]
    );
}

#[test]
fn leading_decimal_point_is_a_stray_byte() {
    assert_eq!(
        lex(b".5").unwrap(),
        vec![JsonToken::Invalid, JsonToken::NumberLiteral(number(false, 5, &[]))]
    );
}

#[test]
fn small_object_yields_nine_tokens() {
    assert_eq!(
        lex(b"{\"a\":1,\"b\":2}").unwrap(),
        vec![
            JsonToken::ObjectStart,
            JsonToken::StringLiteral("a".to_string()),
            JsonToken::Colon,
            JsonToken::NumberLiteral(number(false, 1, &[])),
            JsonToken::Comma,
            JsonToken::StringLiteral("b".to_string()),
            JsonToken::Colon,
            JsonToken::NumberLiteral(number(false, 2, &[])),
            JsonToken::ObjectEnd,
        ]
    );
}

#[test]
fn stray_byte_is_tagged_and_scanning_continues() {
    assert_eq!(
        lex(b"{#1}").unwrap(),
        vec![
            JsonToken::ObjectStart,
            JsonToken::Invalid,
            JsonToken::NumberLiteral(number(false, 1, &[])),
            JsonToken::ObjectEnd,
        ]
    );
}

#[test]
fn quote_escape_is_decoded() {
    assert_eq!(
        lex(b"\"q\\\"w\"").unwrap(),
        vec![JsonToken::StringLiteral("q\"w".to_string())]
    );
}

#[test]
fn backslash_escape_is_decoded() {
    assert_eq!(
        lex(b"\"a\\\\b\"").unwrap(),
        vec![JsonToken::StringLiteral("a\\b".to_string())]
    );
}

#[test]
fn backspace_and_form_feed_escapes_become_control_characters() {
    assert_eq!(
        lex(b"\"\\b\\f\"").unwrap(),
        vec![JsonToken::StringLiteral("\u{08}\u{0C}".to_string())]
    );
}

#[test]
fn letter_escapes_keep_the_letter() {
    assert_eq!(
        lex(b"\"a\\nb\\rc\\td\"").unwrap(),
        vec![JsonToken::StringLiteral("anbrctd".to_string())]
    );
}

#[test]
fn unknown_escape_is_invalid_escape_sequence() {
    assert_eq!(
        lex(b"\"a\\xb\"").unwrap_err(),
        JsonError::InvalidEscapeSequence('x')
    );
}

#[test]
fn unicode_escape_is_unsupported() {
    assert_eq!(lex(b"\"\\u0041\"").unwrap_err(), JsonError::UnsupportedEscape);
}

#[test]
fn unterminated_string_is_end_of_input_error() {
    assert_eq!(lex(b"\"abc").unwrap_err(), JsonError::UnexpectedEndOfInput);
}

#[test]
fn backslash_at_end_of_input_is_end_of_input_error() {
    assert_eq!(lex(b"\"abc\\").unwrap_err(), JsonError::UnexpectedEndOfInput);
}

#[test]
fn high_bytes_are_cast_to_characters_directly() {
    assert_eq!(
        lex(b"\"\xC3\xA9\"").unwrap(),
        vec![JsonToken::StringLiteral("\u{C3}\u{A9}".to_string())]
    );
}

#[test]
fn rendered_tokens_tokenize_back_to_themselves() {
    let original = vec![
        JsonToken::ObjectStart,
        JsonToken::BooleanLiteral(true),
        JsonToken::Comma,
        JsonToken::NumberLiteral(number(true, 7, &[])),
        JsonToken::Colon,
        JsonToken::BooleanLiteral(false),
        JsonToken::NumberLiteral(number(false, 1234567890, &[])),
        JsonToken::ObjectEnd,
    ];
    // The rendered form of those tokens: each one followed by a space.
    let rendered = b"{ true , -7 : false 1234567890 } ";
    assert_eq!(lex(rendered).unwrap(), original);
}

#[test]
fn error_aborts_and_returns_no_partial_sequence() {
    assert_eq!(lex(b"{\"a\":1,tr").unwrap_err(), JsonError::UnexpectedEndOfInput);
}

#[test]
fn whitespace_between_tokens_is_skipped() {
    assert_eq!(
        lex(b" {\t\"a\" :\n1 ,\r\"b\": 2 } ").unwrap(),
        vec![
            JsonToken::ObjectStart,
            JsonToken::StringLiteral("a".to_string()),
            JsonToken::Colon,
            JsonToken::NumberLiteral(number(false, 1, &[])),
            JsonToken::Comma,
            JsonToken::StringLiteral("b".to_string()),
            JsonToken::Colon,
            JsonToken::NumberLiteral(number(false, 2, &[])),
            JsonToken::ObjectEnd,
        ]
    );
}
