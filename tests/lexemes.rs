use json_reader::{
    classify_scalar, is_bool, is_float, is_int, is_json_arr, is_json_object, parse_tokens, parse_value_at,
    split_on_commas_preserving_quotes, split_preserving_quotes, tokenize, JsonError, JsonValue,
    Token,
};

#[test]
fn classify_int_and_float() {
    assert!(is_int("5"));
    assert!(!is_float("5"));
    assert!(is_float("5.0"));
    assert!(!is_int("5.0"));
    assert!(is_int("-42"));
    assert!(is_int("+7"));
    assert!(is_float("1e5"));
    assert!(is_float("-2.5E-3"));
    assert!(is_float("99999999999"));
    assert!(!is_int("99999999999"));
    assert!(is_int("-2147483648"));
    assert!(!is_int("2147483648"));
    assert!(!is_int(""));
    assert!(!is_int("-"));
    assert!(!is_float("1."));
    assert!(!is_float(".5"));
    assert!(!is_float("abc"));
}

#[test]
fn classify_bool() {
    assert!(is_bool("true"));
    assert!(is_bool("false"));
    assert!(!is_bool("maybe"));
    assert!(!is_bool("True"));
}

#[test]
fn classify_quoted_structures() {
    assert!(is_json_object("'{ \"a\" : 1 }'"));
    assert!(!is_json_object("{ \"a\" : 1 }"));
    assert!(is_json_arr("'[1, 2]'"));
    assert!(!is_json_arr("'[1, 2'"));
}

#[test]
fn split_on_whitespace_keeps_quoted_parts() {
    let words = split_preserving_quotes(r#"{ "key" : "value is value" }"#);
    assert_eq!(words, vec!["{", "\"key\"", ":", "\"value is value\"", "}"]);
    assert!(split_preserving_quotes("   ").is_empty());
}

#[test]
fn split_on_commas_trims_pieces() {
    let items = split_on_commas_preserving_quotes(r#""value1", 67 , 'a, b',true"#);
    assert_eq!(items, vec!["\"value1\"", "67", "'a, b'", "true"]);
}

#[test]
fn tokenize_document() {
    let tokens = tokenize(r#"{"k": [1, -2.5, "s", true, false, null]}"#).unwrap();
    assert_eq!(tokens.len(), 17);
    assert!(matches!(tokens[0], Token::LBrace));
    assert!(matches!(&tokens[1], Token::Str(k) if k == "k"));
    assert!(matches!(tokens[2], Token::Colon));
    assert!(matches!(&tokens[6], Token::Num(n) if n == "-2.5"));
    assert!(matches!(tokens[14], Token::Null));
    assert!(matches!(tokens[16], Token::RBrace));
    assert!(tokenize("\"open").is_err());
}

#[test]
fn parse_value_reports_consumed_tokens() {
    let tokens = tokenize("[1, [2, 3], 4]").unwrap();
    let (inner, end) = parse_value_at(&tokens, 3, 0, 8).unwrap();
    assert_eq!(inner, JsonValue::JsonArray(vec![JsonValue::JsonInt(2), JsonValue::JsonInt(3)]));
    assert_eq!(end, 8);
    assert_eq!(parse_tokens(&tokens, 8).unwrap(), parse_tokens(&tokens, 2).unwrap());
    assert_eq!(parse_tokens(&tokens, 1), Err(JsonError::DepthExceeded));
}

#[test]
fn classify_scalar_precedence() {
    assert_eq!(classify_scalar("5"), JsonValue::JsonInt(5));
    assert_eq!(classify_scalar("5.0"), JsonValue::JsonFloat("5.0".to_string()));
    assert_eq!(classify_scalar("true"), JsonValue::JsonBoolean(true));
    assert_eq!(classify_scalar("false"), JsonValue::JsonBoolean(false));
    assert_eq!(classify_scalar("\"value1\""), JsonValue::JsonString("value1".to_string()));
    assert_eq!(classify_scalar("'x'"), JsonValue::JsonString("x".to_string()));
    assert_eq!(classify_scalar("maybe"), JsonValue::JsonString("maybe".to_string()));
    assert_eq!(classify_scalar("\"5"), JsonValue::JsonString("\"5".to_string()));
}

#[test]
fn split_on_unicode_whitespace() {
    assert_eq!(split_preserving_quotes("a\u{0C}b"), vec!["a", "b"]);
    assert!(split_preserving_quotes("\u{0C}").is_empty());
    assert_eq!(split_preserving_quotes("x\u{A0}'y\u{3000}z'\u{2028}w"), vec!["x", "'y\u{3000}z'", "w"]);
    assert_eq!(split_on_commas_preserving_quotes("\u{A0}a, b"), vec!["a", "b"]);
    assert_eq!(split_on_commas_preserving_quotes("\u{0C}a"), vec!["a"]);
    assert_eq!(split_on_commas_preserving_quotes("\u{85}c\u{200A},d\u{0B}"), vec!["c", "d"]);
}
