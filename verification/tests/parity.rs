use parson::{parse_string, parse_string_with_comments, serialize_to_string, serialize_to_string_pretty, validate};
use parson::{Array, JsonNumber, Object, ParsonError, Value};

fn parses_ok(s: &str) -> Value {
    parse_string(s).unwrap_or_else(|e| panic!("Expected parse success for {s:?}, got {e:?}"))
}

fn parses_err(s: &str) {
    assert!(parse_string(s).is_err(), "Expected parse failure for {s:?}, but it succeeded");
}

fn as_str(v: &Value) -> &str {
    v.as_str().expect("expected string value")
}

fn as_f64(v: &Value) -> f64 {
    v.as_number().expect("expected number value").as_text().parse::<f64>().expect("number text")
}

fn as_bool(v: &Value) -> bool {
    v.as_bool().expect("expected bool value")
}

fn number(text: &str) -> Value {
    Value::Number(JsonNumber::from_text(text).expect("valid number text"))
}

fn string(text: &str) -> Value {
    Value::String(text.to_string())
}

#[test]
fn test_parse_string_with_comments() {
    let input = "{\n  // Single line comment\n  \"key\": /* inline block comment */ \"value\"\n}";
    let parsed = parse_string_with_comments(input).unwrap();
    let obj = parsed.as_object().unwrap();
    assert_eq!(obj.get("key").and_then(|v| v.as_str()), Some("value"));
}

#[test]
fn test_parse_primitives() {
    assert_eq!(parse_string("null"), Ok(Value::Null));
    assert_eq!(parse_string("true"), Ok(Value::Bool(true)));
    assert_eq!(parse_string("false"), Ok(Value::Bool(false)));
    let n = parse_string("123.45e2").unwrap();
    assert_eq!(as_f64(&n), 12345.0);
    assert_eq!(parse_string("\"hello world\\t\\n\""), Ok(string("hello world\t\n")));
}

#[test]
fn test_parse_array() {
    let res = parse_string("[1, 2, \"test\", null]");
    assert!(res.is_ok());
    let val = res.unwrap();
    let arr = val.as_array().unwrap();
    assert_eq!(arr.len(), 4);
    assert_eq!(arr.get(0), Some(&number("1")));
    assert_eq!(arr.get(3), Some(&Value::Null));
}

#[test]
fn test_parse_object() {
    let res = parse_string(r#"{ "name": "Antigravity", "active": true, "count": 10 }"#);
    assert!(res.is_ok());
    let obj = res.unwrap();
    let o = obj.as_object().unwrap();
    assert_eq!(o.get("name"), Some(&string("Antigravity")));
    assert_eq!(o.get("active"), Some(&Value::Bool(true)));
}

#[test]
fn test_comments_and_whitespace() {
    let json = r#"
        // Single-line comment before JSON
        /* Block comment
           multiline */
        {
            "key": "val" // Trailing comment
        }
        /* Ending comment */
        "#;
    let res = parse_string_with_comments(json);
    assert!(res.is_ok());
}

#[test]
fn test_trailing_comment_rejected_in_plain_parser() {
    assert_eq!(parse_string("{\"a\":1}//comment"), Err(ParsonError::Parse));
    assert!(parse_string_with_comments("{\"a\":1}//comment").is_ok());
}

#[test]
fn test_invalid_syntax() {
    assert!(parse_string("[1, 2,]").is_ok());
    assert_eq!(parse_string("{ \"a\": }"), Err(ParsonError::Parse));
    assert_eq!(parse_string("null trailing"), Err(ParsonError::Parse));
}

#[test]
fn test_serialize_primitives() {
    assert_eq!(serialize_to_string(&Value::Null), "null");
    assert_eq!(serialize_to_string(&Value::Bool(true)), "true");
    assert_eq!(serialize_to_string(&number("42.5")), "42.5");
    assert_eq!(
        serialize_to_string(&string("hello \"world\"\n")),
        "\"hello \\\"world\\\"\\n\""
    );
}

#[test]
fn test_serialize_array_and_object() {
    let mut arr = Array::new();
    arr.push(number("1"));
    arr.push(Value::Bool(false));
    assert_eq!(serialize_to_string(&Value::Array(arr)), "[1,false]");

    let mut obj = Object::new();
    obj.set("name".to_string(), string("parson"));
    obj.set("valid".to_string(), Value::Bool(true));
    assert_eq!(
        serialize_to_string(&Value::Object(obj.clone())),
        "{\"name\":\"parson\",\"valid\":true}"
    );

    let pretty = serialize_to_string_pretty(&Value::Object(obj));
    let expected = "{\n    \"name\": \"parson\",\n    \"valid\": true\n}";
    assert_eq!(pretty, expected);
}

#[test]
fn test_validate_primitives() {
    assert!(validate(&Value::Null, &number("42")).is_ok());
    assert!(validate(&number("1"), &number("2")).is_ok());
    assert!(validate(&number("1"), &string("wrong")).is_err());
}

#[test]
fn test_validate_object_and_array() {
    let mut schema_obj = Object::new();
    schema_obj.set("name".to_string(), string(""));
    schema_obj.set("age".to_string(), number("0"));

    let mut valid_obj = Object::new();
    valid_obj.set("name".to_string(), string("Alice"));
    valid_obj.set("age".to_string(), number("30"));

    let mut invalid_obj = Object::new();
    invalid_obj.set("name".to_string(), string("Bob"));

    assert!(validate(&Value::Object(schema_obj.clone()), &Value::Object(valid_obj)).is_ok());
    assert_eq!(
        validate(&Value::Object(schema_obj), &Value::Object(invalid_obj)),
        Err(ParsonError::NotFound)
    );
}

#[test]
fn simple_object() {
    parses_ok(r#"{"lorem":"ipsum"}"#);
}

#[test]
fn simple_array() {
    parses_ok(r#"["lorem"]"#);
}

#[test]
fn null_literal() {
    let v = parses_ok("null");
    assert!(v.is_null());
}

#[test]
fn true_literal() {
    let v = parses_ok("true");
    assert_eq!(as_bool(&v), true);
}

#[test]
fn false_literal() {
    let v = parses_ok("false");
    assert_eq!(as_bool(&v), false);
}

#[test]
fn string_literal() {
    let v = parses_ok(r#""string""#);
    assert_eq!(as_str(&v), "string");
}

#[test]
fn number_literal() {
    let v = parses_ok("123");
    assert!((as_f64(&v) - 123.0).abs() < f64::EPSILON);
}

#[test]
fn trailing_comma_array() {
    let v = parses_ok(r#"["lorem",]"#);
    let arr = v.as_array().expect("array");
    assert_eq!(arr.len(), 1);
}

#[test]
fn trailing_comma_object() {
    let v = parses_ok(r#"{"lorem":"ipsum",}"#);
    let obj = v.as_object().expect("object");
    assert_eq!(obj.len(), 1);
}

#[test]
fn empty_object() {
    let v = parses_ok("{}");
    let obj = v.as_object().expect("object");
    assert_eq!(obj.len(), 0);
}

#[test]
fn empty_array() {
    let v = parses_ok("[]");
    let arr = v.as_array().expect("array");
    assert_eq!(arr.len(), 0);
}

#[test]
fn whitespace_around_value() {
    let v = parses_ok("   { \"a\" : 1 }   ");
    let obj = v.as_object().expect("object");
    assert!((as_f64(obj.get("a").unwrap()) - 1.0).abs() < f64::EPSILON);
}

#[test]
fn negative_number() {
    let v = parses_ok("-1");
    assert!((as_f64(&v) - (-1.0)).abs() < f64::EPSILON);
}

#[test]
fn hard_to_parse_number() {
    let v = parses_ok("-0.000314");
    assert!((as_f64(&v) - (-0.000314)).abs() < 1e-12);
}

#[test]
fn exponent_number() {
    let v = parses_ok("1e2");
    assert!((as_f64(&v) - 100.0).abs() < f64::EPSILON);
}

#[test]
fn nested_object() {
    let v = parses_ok(r#"{"outer":{"inner":42}}"#);
    let obj = v.as_object().unwrap();
    let inner = obj.get("outer").unwrap().as_object().unwrap();
    let n = as_f64(inner.get("inner").unwrap());
    assert!((n - 42.0).abs() < f64::EPSILON);
}

#[test]
fn escaped_chars_in_string() {
    let v = parses_ok(r#""\"\\ \/""#);
    assert_eq!(as_str(&v), "\"\\ /");
}

#[test]
fn all_escape_sequences() {
    let v = parses_ok(r#""\"\\\//\b\f\n\r\t""#);
    let s = as_str(&v);
    assert!(s.contains('"'));
    assert!(s.contains('\\'));
    assert!(s.contains('\n'));
}

#[test]
fn url_with_colon_slash() {
    let v = parses_ok(r#""https://www.example.com/search?q=12345""#);
    assert_eq!(as_str(&v), "https://www.example.com/search?q=12345");
}

#[test]
fn mixed_array() {
    let v = parses_ok(r#"[1, "two", true, null, {}]"#);
    let arr = v.as_array().unwrap();
    assert_eq!(arr.len(), 5);
    assert!((as_f64(arr.get(0).unwrap()) - 1.0).abs() < f64::EPSILON);
    assert_eq!(arr.get(1).unwrap().as_str().unwrap(), "two");
    assert_eq!(arr.get(2).unwrap().as_bool().unwrap(), true);
    assert!(arr.get(3).unwrap().is_null());
    assert!(arr.get(4).unwrap().as_object().is_some());
}

#[test]
fn empty_string() {
    parses_err("");
}

#[test]
fn unquoted_key() {
    parses_err("{lorem:ipsum}");
}

#[test]
fn mismatched_brackets() {
    parses_err(r#"{"lorem":"ipsum",]"#);
}

#[test]
fn double_comma_object() {
    parses_err(r#"{"lorem":"ipsum",,}"#);
}

#[test]
fn leading_comma_array() {
    parses_err("[,]");
}

#[test]
fn unclosed_array() {
    parses_err("[");
}

#[test]
fn orphan_close_bracket() {
    parses_err("]");
}

#[test]
fn duplicate_object_keys() {
    parses_err(r#"{"a":0,"a":0}"#);
}

#[test]
fn colon_without_key() {
    parses_err("{:,}");
}

#[test]
fn comma_without_key() {
    parses_err("{,}");
}

#[test]
fn unclosed_object() {
    parses_err("{");
}

#[test]
fn orphan_close_brace() {
    parses_err("}");
}

#[test]
fn unknown_literal() {
    parses_err("x");
}

#[test]
fn invalid_utf_escape_bad_hex() {
    parses_err(r#"["\u00zz"]"#);
}

#[test]
fn invalid_utf_escape_too_short() {
    parses_err(r#"["\u00"]"#);
}

#[test]
fn invalid_utf_escape_no_digits() {
    parses_err(r#"["\u"]"#);
}

#[test]
fn wrong_order_surrogate_pair() {
    parses_err(r#"["\uDF67\uD834"]"#);
}

#[test]
fn hex_number() {
    parses_err("[0x2]");
}

#[test]
fn hex_number_uppercase() {
    parses_err("[0X2]");
}

#[test]
fn octal_number_07() {
    parses_err("[07]");
}

#[test]
fn octal_number_0070() {
    parses_err("[0070]");
}

#[test]
fn octal_number_negative() {
    parses_err("[-07]");
}

#[test]
fn number_overflow_positive() {
    parses_err("[1.7976931348623157e309]");
}

#[test]
fn number_overflow_negative() {
    parses_err("[-1.7976931348623157e309]");
}

#[test]
fn trailing_garbage() {
    parses_err(r#"{"a":1}garbage"#);
    parses_err(r#"{"a":1}{}"#);
    parses_err(r#"[1,2,3] extra"#);
    parses_ok("{\"a\":1}   ");
}

#[test]
fn control_char_tab_in_string() {
    parses_err("[\"\t\"]");
}

#[test]
fn control_char_newline_in_string_raw() {
    let input = "[\"".to_owned() + "\n" + "\"]";
    parses_err(&input);
}

#[test]
fn unicode_escape_ascii() {
    let v = parses_ok(r#""\u0024x""#);
    assert_eq!(as_str(&v), "$x");
}

#[test]
fn unicode_escape_2byte() {
    let v = parses_ok(r#""\u00A2x""#);
    assert_eq!(as_str(&v), "¢x");
}

#[test]
fn unicode_escape_3byte() {
    let v = parses_ok(r#""\u20ACx""#);
    assert_eq!(as_str(&v), "€x");
}

#[test]
fn unicode_surrogate_pair() {
    let v = parses_ok(r#""\uD801\uDC37x""#);
    assert_eq!(as_str(&v), "𐐷x");
}

#[test]
fn raw_utf8_multibyte() {
    let v = parses_ok(r#""あいうえお""#);
    assert_eq!(as_str(&v), "あいうえお");
}

#[test]
fn surrogate_string_roundtrip() {
    let v = parses_ok(r#""lorem\uD834\uDD1Eipsum\uD834\uDF67lorem""#);
    assert_eq!(as_str(&v), "lorem𝄞ipsum𝍧lorem");
}

#[test]
fn zero() {
    let v = parses_ok("0");
    assert!((as_f64(&v)).abs() < f64::EPSILON);
}

#[test]
fn negative_zero() {
    let v = parses_ok("-0");
    assert!((as_f64(&v)).abs() < f64::EPSILON);
}

#[test]
fn float_with_exponent() {
    let v = parses_ok("1.5e2");
    assert!((as_f64(&v) - 150.0).abs() < f64::EPSILON);
}

#[test]
fn negative_float_exponent() {
    let v = parses_ok("-3.14e-2");
    assert!((as_f64(&v) - (-0.0314)).abs() < 1e-12);
}

#[test]
fn reject_leading_dot() {
    parses_err("[.5]");
}

#[test]
fn reject_octal_with_decimal_point_but_leading_zero() {
    parses_err("[07.0]");
}

#[test]
fn roundtrip_simple_object() {
    let original = r#"{"a":1,"b":"hello","c":true,"d":null}"#;
    let v1 = parses_ok(original);
    let serialized = serialize_to_string(&v1);
    let v2 = parses_ok(&serialized);
    let obj = v2.as_object().unwrap();
    assert!((as_f64(obj.get("a").unwrap()) - 1.0).abs() < f64::EPSILON);
    assert_eq!(obj.get("b").unwrap().as_str().unwrap(), "hello");
    assert_eq!(obj.get("c").unwrap().as_bool().unwrap(), true);
    assert!(obj.get("d").unwrap().is_null());
}

#[test]
fn roundtrip_nested() {
    let original = r#"{"outer":{"inner":[1,2,3]}}"#;
    let v1 = parses_ok(original);
    let ser = serialize_to_string(&v1);
    let v2 = parses_ok(&ser);
    let arr = v2
        .as_object()
        .unwrap()
        .get("outer")
        .unwrap()
        .as_object()
        .unwrap()
        .get("inner")
        .unwrap()
        .as_array()
        .unwrap();
    assert_eq!(arr.len(), 3);
}

#[test]
fn roundtrip_pretty() {
    let original = r#"{"a":1}"#;
    let v1 = parses_ok(original);
    let pretty = serialize_to_string_pretty(&v1);
    let v2 = parse_string(&pretty).unwrap();
    let obj = v2.as_object().unwrap();
    assert!((as_f64(obj.get("a").unwrap()) - 1.0).abs() < f64::EPSILON);
}

#[test]
fn serialize_special_chars_in_string() {
    let original = string("hello\nworld\t!");
    let ser = serialize_to_string(&original);
    assert!(ser.contains("\\n"));
    assert!(ser.contains("\\t"));
    let v2 = parses_ok(&ser);
    assert_eq!(as_str(&v2), "hello\nworld\t!");
}

#[test]
fn serialize_empty_array() {
    let v = parses_ok("[]");
    let s = serialize_to_string(&v);
    assert_eq!(s, "[]");
}

#[test]
fn serialize_empty_object() {
    let v = parses_ok("{}");
    let s = serialize_to_string(&v);
    assert_eq!(s, "{}");
}

fn make_nested_arrays(depth: usize) -> String {
    "[".repeat(depth) + &"]".repeat(depth)
}

#[test]
fn shallow_nesting_ok() {
    let s = make_nested_arrays(5);
    parses_ok(&s);
}

#[test]
fn nesting_at_limit_ok() {
    let s = make_nested_arrays(2048);
    parses_ok(&s);
}

#[test]
fn nesting_over_limit_fails() {
    let s = make_nested_arrays(3000);
    parses_err(&s);
}

#[test]
fn deeply_nested_objects_at_limit() {
    let open: String = r#"{"a":"#.repeat(512);
    let val = "1";
    let close: String = "}".repeat(512);
    let json = open + val + &close;
    parses_ok(&json);
}

fn make_test_obj() -> Value {
    parses_ok(r#"{"outer":{"inner":{"deep":42}}}"#)
}

#[test]
fn dotget_one_level() {
    let v = make_test_obj();
    let obj = v.as_object().unwrap();
    let inner = obj.dotget("outer").unwrap();
    assert!(inner.as_object().is_some());
}

#[test]
fn dotget_two_levels() {
    let v = make_test_obj();
    let obj = v.as_object().unwrap();
    let deep = obj.dotget("outer.inner").unwrap();
    assert!(deep.as_object().is_some());
}

#[test]
fn dotget_three_levels() {
    let v = make_test_obj();
    let obj = v.as_object().unwrap();
    let n = as_f64(obj.dotget("outer.inner.deep").unwrap());
    assert!((n - 42.0).abs() < f64::EPSILON);
}

#[test]
fn dotget_missing_returns_none() {
    let v = make_test_obj();
    let obj = v.as_object().unwrap();
    assert!(obj.dotget("should.be.null").is_none());
}

#[test]
fn dotget_empty_path_returns_none() {
    let v = make_test_obj();
    let obj = v.as_object().unwrap();
    assert!(obj.dotget("").is_none());
}
