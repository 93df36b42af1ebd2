use parsekit::json::error::Error;
use parsekit::json::encoder::to_text;
use parsekit::json::parser::{analyse, is_valid_str_value, parse};
use parsekit::json::token::Token;
use parsekit::json::tokenizer::tokenize;
use parsekit::json::value::{Value, KV};

#[test]
fn empty_object() {
    assert_eq!(analyse("{}"), Ok(Value::Object(vec![])));
}

#[test]
fn single_pair() {
    assert_eq!(
        analyse("{\"key\": \"value\"}"),
        Ok(Value::Object(vec![KV(
            "key".to_string(),
            Value::Str("value".to_string())
        )]))
    );
}

#[test]
fn five_scalar_pairs() {
    let json = analyse(
        "{\"key1\": true, \"key2\": false, \"key3\": null, \"key4\": \"value\", \"key5\": 101}",
    )
    .unwrap();
    let pairs = match json {
        Value::Object(pairs) => pairs,
        _ => panic!("expected an object"),
    };
    assert_eq!(pairs[0], KV("key1".to_string(), Value::Bool(true)));
    assert_eq!(pairs[1], KV("key2".to_string(), Value::Bool(false)));
    assert_eq!(pairs[2], KV("key3".to_string(), Value::Null));
    assert_eq!(pairs[3], KV("key4".to_string(), Value::Str("value".to_string())));
    assert_eq!(pairs[4], KV("key5".to_string(), Value::Number("101".to_string())));
}

#[test]
fn nested_array() {
    assert_eq!(
        analyse("{\"a\": [1, 2, 3]}"),
        Ok(Value::Object(vec![KV(
            "a".to_string(),
            Value::Array(vec![
                Value::Number("1".to_string()),
                Value::Number("2".to_string()),
                Value::Number("3".to_string()),
            ])
        )]))
    );
}

#[test]
fn trailing_comma_fails() {
    assert_eq!(analyse("{\"a\": 1,}"), Err(Error::TrailingComma));
}

#[test]
fn missing_closing_bracket_fails() {
    assert_eq!(analyse("[1, 2"), Err(Error::MissingClosingBracket));
}

#[test]
fn unterminated_string_fails() {
    assert_eq!(analyse("{\"a\": \"unterminated"), Err(Error::MismatchQuote));
}

#[test]
fn top_level_scalar_fails() {
    assert_eq!(analyse("true"), Err(Error::MustBeginWithBracket));
    assert_eq!(analyse("42"), Err(Error::MustBeginWithBracket));
    assert_eq!(analyse(""), Err(Error::MustBeginWithBracket));
    assert_eq!(analyse("\"text\""), Err(Error::MustBeginWithBracket));
}

#[test]
fn leftover_token_fails() {
    assert_eq!(analyse("{} {}"), Err(Error::ExtraValue));
    assert_eq!(analyse("[] 1"), Err(Error::ExtraValue));
}

#[test]
fn unrecognized_character_fails_with_position() {
    assert_eq!(analyse("  @"), Err(Error::UnrecognizedToken('@', 2)));
}

#[test]
fn bad_keyword_fails() {
    assert_eq!(analyse("[tru]"), Err(Error::UnrecognizedToken(']', 4)));
    assert_eq!(analyse("[tru"), Err(Error::ParsingError));
    assert_eq!(analyse("[nulL]"), Err(Error::UnrecognizedToken('L', 4)));
}

#[test]
fn malformed_number_fails() {
    assert_eq!(analyse("[1..2]"), Err(Error::InvalidNumber));
    assert_eq!(analyse("[-]"), Err(Error::InvalidNumber));
    assert_eq!(analyse("[1e]"), Err(Error::InvalidNumber));
}

#[test]
fn permissive_number_shapes_pass() {
    assert_eq!(
        analyse("[1., -0.5, 1e3, 1E+3, 2.5e-1]"),
        Ok(Value::Array(vec![
            Value::Number("1.".to_string()),
            Value::Number("-0.5".to_string()),
            Value::Number("1e3".to_string()),
            Value::Number("1E+3".to_string()),
            Value::Number("2.5e-1".to_string()),
        ]))
    );
}

#[test]
fn line_break_in_string_value_fails() {
    assert_eq!(analyse("[\"a\nb\"]"), Err(Error::LineBreakInLiteral));
    assert_eq!(analyse("[\"a\tb\"]"), Err(Error::LineBreakInLiteral));
}

#[test]
fn syntax_error_carries_offending_token() {
    match analyse("[1:") {
        Err(Error::SyntaxError(Token::Colon, _)) => {}
        other => panic!("expected a syntax error on the colon, got {:?}", other),
    }
    match analyse("{\"a\" 1}") {
        Err(Error::SyntaxError(Token::Number(_), _)) => {}
        other => panic!("expected a syntax error on the number, got {:?}", other),
    }
}

#[test]
fn empty_array_and_duplicate_keys() {
    assert_eq!(analyse("[]"), Ok(Value::Array(vec![])));
    assert_eq!(
        analyse("{\"a\": 1, \"a\": 2}"),
        Ok(Value::Object(vec![
            KV("a".to_string(), Value::Number("1".to_string())),
            KV("a".to_string(), Value::Number("2".to_string())),
        ]))
    );
}

#[test]
fn escapes_are_kept_literally() {
    assert_eq!(
        analyse("{\"k\": \"a\\\"b\"}"),
        Ok(Value::Object(vec![KV(
            "k".to_string(),
            Value::Str("a\\\"b".to_string())
        )]))
    );
}

#[test]
fn tokenize_produces_the_token_sequence() {
    assert_eq!(
        tokenize("{\"k\": [true, null]}"),
        Ok(vec![
            Token::OpenBrace,
            Token::StrLit("k".to_string()),
            Token::Colon,
            Token::OpenBracket,
            Token::True,
            Token::Comma,
            Token::Null,
            Token::CloseBracket,
            Token::CloseBrace,
        ])
    );
}

#[test]
fn parse_requires_leading_bracket() {
    assert_eq!(parse(vec![Token::True]), Err(Error::MustBeginWithBracket));
    assert_eq!(parse(vec![]), Err(Error::MustBeginWithBracket));
    assert_eq!(
        parse(vec![Token::Number("1".to_string()), Token::Comma]),
        Err(Error::MustBeginWithBracket)
    );
}

#[test]
fn string_value_validity() {
    assert!(is_valid_str_value("plain text"));
    assert!(!is_valid_str_value("a\nb"));
    assert!(!is_valid_str_value("a\tb"));
}

#[test]
fn round_trip_through_encoder() {
    let text = "{\"key\": [1, 2, {\"inner\": null}], \"other\": \"v\"}";
    let tree = analyse(text).unwrap();
    let canonical = to_text(&tree);
    assert_eq!(canonical, "{\"key\":[1,2,{\"inner\":null}],\"other\":\"v\"}");
    assert_eq!(analyse(&canonical), Ok(tree));
}

#[test]
fn error_messages_name_the_failure() {
    let e = analyse("{\"a\": \"oops").unwrap_err();
    assert_eq!(e.message(), "Error: a closing quote is missing.");
    let e = analyse("  @").unwrap_err();
    assert_eq!(e.message(), "Error: @ is an invalid token.");
}

#[test]
fn nested_objects_preserve_order() {
    let json = analyse(
        "{\"key\": \"value\", \"key-n\": 101, \"key-o\": {\"inner key\": \"inner value\"}, \"key-l\": [\"list value\"]}",
    )
    .unwrap();
    let pairs = match json {
        Value::Object(pairs) => pairs,
        _ => panic!("expected an object"),
    };
    assert_eq!(pairs[0], KV("key".to_string(), Value::Str("value".to_string())));
    assert_eq!(pairs[1], KV("key-n".to_string(), Value::Number("101".to_string())));
    assert_eq!(
        pairs[2],
        KV(
            "key-o".to_string(),
            Value::Object(vec![KV(
                "inner key".to_string(),
                Value::Str("inner value".to_string())
            )])
        )
    );
    assert_eq!(
        pairs[3],
        KV(
            "key-l".to_string(),
            Value::Array(vec![Value::Str("list value".to_string())])
        )
    );
}
