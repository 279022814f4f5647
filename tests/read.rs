use json_reader::JsonValue::{
    JsonArray, JsonBoolean, JsonFloat, JsonInt, JsonNull, JsonObject, JsonString,
};
use json_reader::{read, read_with_depth, JsonError, JsonValue};

fn s(text: &str) -> JsonValue {
    JsonString(text.to_string())
}

fn f(lexeme: &str) -> JsonValue {
    JsonFloat(lexeme.to_string())
}

fn obj(members: Vec<(&str, JsonValue)>) -> JsonValue {
    JsonObject(members.into_iter().map(|(k, v)| (k.to_string(), v)).collect())
}

fn member<'a>(v: &'a JsonValue, key: &str) -> &'a JsonValue {
    match v {
        JsonObject(m) => &m.iter().find(|(k, _)| k == key).expect("missing key").1,
        _ => panic!("not an object"),
    }
}

fn float_of(v: &JsonValue) -> f64 {
    match v {
        JsonFloat(t) => t.parse::<f64>().unwrap(),
        _ => panic!("not a float"),
    }
}

#[test]
fn read_empty_json() {
    let result = read("{}");
    assert_eq!(result, Ok(JsonObject(vec![])));
    assert!(result.is_ok());
}

#[test]
fn read_basic_to_map() {
    let result = read(r#"{ "key" : "value" }"#).unwrap();
    assert_eq!(result, obj(vec![("key", s("value"))]));
}

#[test]
fn read_basic_to_map_long_string() {
    let result = read(r#"{ "key" : "value is value" }"#).unwrap();
    assert_eq!(result, obj(vec![("key", s("value is value"))]));
}

#[test]
fn read_multiple_to_map() {
    let result = read(r#"{ "key1" : "value1" , "key2" : "value2" }"#).unwrap();
    assert_eq!(result, obj(vec![("key1", s("value1")), ("key2", s("value2"))]));
}

#[test]
fn read_multiple_to_map_no_space() {
    let result = read(r#"{ "key1" : "value1", "key2" : "value2"}"#).unwrap();
    assert_eq!(result, obj(vec![("key1", s("value1")), ("key2", s("value2"))]));
}

#[test]
fn read_basic_to_map_with_number() {
    let result = read(r#"{ "key" : 5 }"#).unwrap();
    assert_eq!(result, obj(vec![("key", JsonInt(5))]));
}

#[test]
fn read_basic_to_map_with_float() {
    let result = read(r#"{ "key" : 5.0 }"#).unwrap();
    assert_eq!(result, obj(vec![("key", f("5.0"))]));
    assert_eq!(float_of(member(&result, "key")), 5.0);
}

#[test]
fn read_basic_to_map_with_bool() {
    let result = read(r#"{ "key1" : true, "key2" : false }"#).unwrap();
    assert_eq!(result, obj(vec![("key1", JsonBoolean(true)), ("key2", JsonBoolean(false))]));
}

#[test]
fn read_basic_different_types() {
    let json = r#"{ "key1" : true, "key2" : false, "key3" : 5.0 , "key4" : 5, "key5" : "value5" }"#;
    let result = read(json).unwrap();
    assert_eq!(
        result,
        obj(vec![
            ("key1", JsonBoolean(true)),
            ("key2", JsonBoolean(false)),
            ("key3", f("5.0")),
            ("key4", JsonInt(5)),
            ("key5", s("value5")),
        ])
    );
    assert_eq!(float_of(member(&result, "key3")), 5.0);
}

#[test]
fn read_json_with_inner_obj() {
    let json = r#"{ "key" : { "key1" : true, "key2" : false, "key3" : 5.0 , "key4" : 5, "key5" : "value5" } }"#;
    let result = read(json).unwrap();
    let inner = obj(vec![
        ("key1", JsonBoolean(true)),
        ("key2", JsonBoolean(false)),
        ("key3", f("5.0")),
        ("key4", JsonInt(5)),
        ("key5", s("value5")),
    ]);
    assert_eq!(result, obj(vec![("key", inner)]));
}

#[test]
fn read_json_inner_array() {
    let result = read(r#"{ "key" : ["value1", "value2", "value3"] }"#).unwrap();
    assert_eq!(
        result,
        obj(vec![("key", JsonArray(vec![s("value1"), s("value2"), s("value3")]))])
    );
}

#[test]
fn read_json_inner_array_different_types_no_obj() {
    let result = read(r#"{ "key" : ["value1", 67, 6.7, true, false]}"#).unwrap();
    assert_eq!(
        result,
        obj(vec![(
            "key",
            JsonArray(vec![
                s("value1"),
                JsonInt(67),
                f("6.7"),
                JsonBoolean(true),
                JsonBoolean(false),
            ])
        )])
    );
    match member(&result, "key") {
        JsonArray(items) => assert_eq!(float_of(&items[2]), 6.7),
        _ => panic!("not an array"),
    }
}

#[test]
fn read_json_inner_array_with_obj() {
    let json = r#"{ "key" : [{ "key1" : true, "key2" : false, "key3" : 5.0 , "key4" : 5, "key5" : "value5" }]}"#;
    let result = read(json).unwrap();
    let inner = obj(vec![
        ("key1", JsonBoolean(true)),
        ("key2", JsonBoolean(false)),
        ("key3", f("5.0")),
        ("key4", JsonInt(5)),
        ("key5", s("value5")),
    ]);
    assert_eq!(result, obj(vec![("key", JsonArray(vec![inner]))]));
}

#[test]
fn read_twice_gives_equal_trees() {
    let json = r#"{ "a" : [1, 2.5, {"b": null}], "c" : "d" }"#;
    assert_eq!(read(json), read(json));
    assert_eq!(read("{ \"a\" : }"), read("{ \"a\" : }"));
}

#[test]
fn read_members_in_any_order() {
    let result = read(r#"{ "key1" : "value1" , "key2" : "value2" }"#).unwrap();
    assert_eq!(member(&result, "key2"), &s("value2"));
    assert_eq!(member(&result, "key1"), &s("value1"));
    match result {
        JsonObject(m) => assert_eq!(m.len(), 2),
        _ => panic!("not an object"),
    }
}

#[test]
fn read_nested_object() {
    let result = read(r#"{ "key" : { "a" : 1 } }"#).unwrap();
    assert_eq!(result, obj(vec![("key", obj(vec![("a", JsonInt(1))]))]));
}

#[test]
fn read_missing_value_fails() {
    assert_eq!(read(r#"{ "key" : }"#), Err(JsonError::ParseError));
}

#[test]
fn read_duplicate_key_keeps_last_value_in_first_place() {
    let result = read(r#"{"a": 1, "b": 2, "a": 3}"#).unwrap();
    assert_eq!(result, obj(vec![("a", JsonInt(3)), ("b", JsonInt(2))]));
}

#[test]
fn read_scalars_at_top_level() {
    assert_eq!(read("null"), Ok(JsonNull));
    assert_eq!(read(" -12 "), Ok(JsonInt(-12)));
    assert_eq!(read("[1e3, -0.5, null]"), Ok(JsonArray(vec![f("1e3"), f("-0.5"), JsonNull])));
    assert_eq!(read("[]"), Ok(JsonArray(vec![])));
}

#[test]
fn read_integer_limits() {
    assert_eq!(read("[2147483647, -2147483648]"), Ok(JsonArray(vec![JsonInt(2147483647), JsonInt(-2147483648)])));
    assert_eq!(read("[2147483648]"), Ok(JsonArray(vec![f("2147483648")])));
}

#[test]
fn read_escaped_quote_stays_in_string() {
    let result = read(r#"["a\"b", 'c']"#).unwrap();
    assert_eq!(result, JsonArray(vec![s("a\\\"b"), s("c")]));
}

#[test]
fn read_lex_errors() {
    assert_eq!(read(r#"{ "key" : "value }"#), Err(JsonError::LexError));
    assert_eq!(read("{ @ }"), Err(JsonError::LexError));
    assert_eq!(read("[1.2.3]"), Err(JsonError::LexError));
    assert_eq!(read("[tru]"), Err(JsonError::LexError));
}

#[test]
fn read_parse_errors() {
    assert_eq!(read(""), Err(JsonError::ParseError));
    assert_eq!(read("{ 5 : 1 }"), Err(JsonError::ParseError));
    assert_eq!(read(r#"{ "a" 1 }"#), Err(JsonError::ParseError));
    assert_eq!(read("[1, 2"), Err(JsonError::ParseError));
    assert_eq!(read("{} {}"), Err(JsonError::ParseError));
    assert_eq!(read("[1,]"), Err(JsonError::ParseError));
    assert_eq!(read("}"), Err(JsonError::ParseError));
}

#[test]
fn read_depth_limit() {
    assert_eq!(read_with_depth("[[[]]]", 3), Ok(JsonArray(vec![JsonArray(vec![JsonArray(vec![])])])));
    assert_eq!(read_with_depth("[[[]]]", 2), Err(JsonError::DepthExceeded));
    assert_eq!(read_with_depth("{}", 0), Err(JsonError::DepthExceeded));
    assert_eq!(read_with_depth("5", 0), Ok(JsonInt(5)));
}

#[test]
fn read_very_deep_input_fails_without_crash() {
    let deep = "[".repeat(100_000) + &"]".repeat(100_000);
    assert_eq!(read(&deep), Err(JsonError::DepthExceeded));
    let nested = "{\"a\":".repeat(200) + "1" + &"}".repeat(200);
    assert_eq!(read(&nested), Err(JsonError::DepthExceeded));
}
