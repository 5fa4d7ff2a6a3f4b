use parson::parser::Parser;
use parson::serializer::serialize_internal;
use parson::generate::{fuzz_random_ascii, fuzz_structured, fuzz_valid_json};
use parson::wasm::parse_and_format;
use parson::{parse_string, parse_string_with_comments, serialize_to_string, serialize_to_string_pretty, validate};
use parson::{Array, JsonNumber, Object, ParsonError, Value};

fn number(text: &str) -> Value {
    Value::Number(JsonNumber::from_text(text).expect("valid number text"))
}

fn string(text: &str) -> Value {
    Value::String(text.to_string())
}

fn sample() -> Value {
    let mut inner = Object::new();
    inner.set("deep".to_string(), number("-0.5e-3"));
    inner.set("list".to_string(), Value::Array(Array::from_values(vec![
        Value::Null,
        Value::Bool(true),
        Value::Bool(false),
        string(""),
        Value::Array(Array::new()),
        Value::Object(Object::new()),
    ])));
    let mut obj = Object::new();
    obj.set("text".to_string(), string("quote \" slash / back \\ tab \t nl \n ctl \u{1} é 𝄞"));
    obj.set("inner".to_string(), Value::Object(inner));
    obj.set("n".to_string(), number("12345678901234567890"));
    obj.set("nul in value".to_string(), string("a\u{0}b"));
    Value::Object(obj)
}

#[test]
fn law_read_after_write_compact() {
    let v = sample();
    let text = serialize_to_string(&v);
    assert_eq!(parse_string(&text), Ok(v.clone()));
    assert_eq!(parse_string_with_comments(&text), Ok(v));
}

#[test]
fn law_read_after_write_pretty() {
    let v = sample();
    let text = serialize_to_string_pretty(&v);
    assert_eq!(parse_string(&text), Ok(v.clone()));
    assert_eq!(parse_string_with_comments(&text), Ok(v));
}

#[test]
fn read_after_write_fails_for_nul_in_key() {
    let mut obj = Object::new();
    obj.set("a\u{0}b".to_string(), Value::Null);
    let text = serialize_to_string(&Value::Object(obj));
    assert_eq!(text, "{\"a\\u0000b\":null}");
    assert_eq!(parse_string(&text), Err(ParsonError::Parse));
}

#[test]
fn serialized_escapes_exactly() {
    let v = string("\"\\/\u{8}\u{c}\n\r\t\u{1f}\u{7f}é");
    assert_eq!(serialize_to_string(&v), "\"\\\"\\\\\\/\\b\\f\\n\\r\\t\\u001f\u{7f}é\"");
}

#[test]
fn pretty_nested_layout() {
    let v = parse_string(r#"{"a":[1,{"b":null}],"c":{}}"#).unwrap();
    let expected = "{\n    \"a\": [\n        1,\n        {\n            \"b\": null\n        }\n    ],\n    \"c\": {}\n}";
    assert_eq!(serialize_to_string_pretty(&v), expected);
    assert_eq!(serialize_to_string(&v), r#"{"a":[1,{"b":null}],"c":{}}"#);
}

#[test]
fn law_lookup_after_set() {
    let mut obj = Object::new();
    obj.set("a".to_string(), number("1"));
    obj.set("b".to_string(), number("2"));
    obj.set("a".to_string(), string("x"));
    assert_eq!(obj.get("a"), Some(&string("x")));
    assert_eq!(obj.get("b"), Some(&number("2")));
    assert_eq!(obj.get("c"), None);
}

#[test]
fn law_set_keeps_keys_distinct() {
    let mut obj = Object::new();
    obj.set("a".to_string(), number("1"));
    obj.set("b".to_string(), number("2"));
    assert_eq!(obj.len(), 2);
    obj.set("a".to_string(), number("3"));
    assert_eq!(obj.len(), 2);
    assert_eq!(obj.get_key_at(0), Some("a"));
    assert_eq!(obj.get_value_at(0), Some(&number("3")));
    obj.set("c".to_string(), Value::Null);
    assert_eq!(obj.len(), 3);
    assert_eq!(obj.get_key_at(2), Some("c"));
}

#[test]
fn law_lookup_after_remove() {
    let mut obj = Object::new();
    obj.set("a".to_string(), number("1"));
    obj.set("b".to_string(), number("2"));
    obj.set("c".to_string(), number("3"));
    assert!(obj.remove("a"));
    assert_eq!(obj.get("a"), None);
    assert_eq!(obj.len(), 2);
    assert_eq!(obj.get_key_at(0), Some("c"));
    assert_eq!(obj.get_key_at(1), Some("b"));
    assert_eq!(obj.get("b"), Some(&number("2")));
    assert!(!obj.remove("zzz"));
    assert_eq!(obj.len(), 2);
}

#[test]
fn law_dotted_plain_key() {
    let v = parse_string(r#"{"a":1,"b":{"c":2}}"#).unwrap();
    let obj = v.as_object().unwrap();
    assert_eq!(obj.dotget("a"), obj.get("a"));
    assert_eq!(obj.get_dotted("b"), obj.get("b"));
    assert_eq!(obj.dotget("zz"), None);
}

#[test]
fn law_dotted_step() {
    let v = parse_string(r#"{"a":1,"b":{"c":{"d":true}}}"#).unwrap();
    let obj = v.as_object().unwrap();
    let b = obj.get("b").unwrap().as_object().unwrap();
    assert_eq!(obj.dotget("b.c.d"), b.dotget("c.d"));
    assert_eq!(obj.dotget("b.c.d"), Some(&Value::Bool(true)));
    assert_eq!(obj.dotget("a.x"), None);
    assert_eq!(obj.dotget("b."), None);
}

#[test]
fn object_get_mut_changes_in_place() {
    let mut obj = Object::new();
    obj.set("a".to_string(), number("1"));
    obj.set("b".to_string(), number("2"));
    if let Some(x) = obj.get_mut("b") {
        *x = string("changed");
    }
    assert_eq!(obj.get("b"), Some(&string("changed")));
    assert_eq!(obj.get_key_at(1), Some("b"));
    assert!(obj.get_mut("zz").is_none());
}

#[test]
fn object_iteration_in_order() {
    let v = parse_string(r#"{"z":1,"a":2,"m":3}"#).unwrap();
    let obj = v.as_object().unwrap();
    let keys: Vec<&str> = obj.iter().map(|(k, _)| k.as_str()).collect();
    assert_eq!(keys, vec!["z", "a", "m"]);
    assert_eq!(obj.get_key_at(3), None);
    assert_eq!(obj.get_value_at(3), None);
    assert!(!obj.is_empty());
    assert!(Object::default().is_empty());
}

#[test]
fn array_operations() {
    let mut arr = Array::new();
    assert!(arr.is_empty());
    arr.push(number("1"));
    arr.push(number("2"));
    arr.push(number("3"));
    assert_eq!(arr.len(), 3);
    assert!(arr.remove(0));
    assert_eq!(arr.len(), 2);
    assert_eq!(arr.get(0), Some(&number("2")));
    assert_eq!(arr.get(1), Some(&number("3")));
    assert_eq!(arr.get(2), None);
    assert!(!arr.remove(5));
    let items: Vec<&Value> = arr.iter().collect();
    assert_eq!(items, vec![&number("2"), &number("3")]);
    assert!(Array::default().is_empty());
}

#[test]
fn clone_is_equal() {
    let v = sample();
    assert_eq!(v.clone(), v);
}

#[test]
fn number_text_rules() {
    for good in ["0", "-0", "1", "-12.5", "1e5", "1E+5", "1e-5", "0.5e2", "1.7976931348623158e308"] {
        assert!(JsonNumber::from_text(good).is_some(), "{good}");
        assert_eq!(JsonNumber::from_text(good).unwrap().as_text(), good);
    }
    for bad in ["", "-", "01", "1.", ".5", "+1", "0e5", "1e", "1e+", "0x1", "1 ", " 1", "1.7976931348623159e308", "1e309", "-1e400"] {
        assert!(JsonNumber::from_text(bad).is_none(), "{bad}");
    }
}

#[test]
fn overflow_boundary_matches_binary64() {
    let cases = [
        "179769313486231570814527423731704356798070567525844996598917476803157260780028538760589558632766878171540458953514382464234321326889464182768467546703537516986049910576551282076245490090389328944075868508455133942304583236903222948165808559332123348274797826204144723168738177180919299881250404026184124858368",
        "179769313486231580793728971405303415079934132710037826936173778980444968292764750946649017977587207096330286416692887910946555547851940402630657488671505820681908902000708383676273854845817711531764475730270069855571366959622842914819860834936475292719074168444365510704342711559699508093042880177904174497791",
        "179769313486231580793728971405303415079934132710037826936173778980444968292764750946649017977587207096330286416692887910946555547851940402630657488671505820681908902000708383676273854845817711531764475730270069855571366959622842914819860834936475292719074168444365510704342711559699508093042880177904174497792",
        "1.79769313486231580793728971405303415079934132710037826936173778980444968292764750946649017977587207096330286416692887910946555547851940402630657488671505820681908902000708383676273854845817711531764475730270069855571366959622842914819860834936475292719074168444365510704342711559699508093042880177904174497791e308",
        "0.000000000000000000000000000000000000000000001e353",
        "1e308",
        "1e-400",
        "99999e304",
    ];
    for c in cases {
        let finite = c.parse::<f64>().unwrap().is_finite();
        assert_eq!(JsonNumber::from_text(c).is_some(), finite, "{c}");
        assert_eq!(parse_string(c).is_ok(), finite, "{c}");
    }
}

#[test]
fn comments_only_where_allowed() {
    assert!(parse_string("/* c */ 1").is_err());
    assert_eq!(parse_string_with_comments("/* c */ 1 // end"), Ok(number("1")));
    assert!(parse_string_with_comments("/* unterminated 1").is_err());
    assert!(parse_string_with_comments("1 / 2").is_err());
    assert_eq!(parse_string_with_comments("[1, // one\n 2]").unwrap().as_array().unwrap().len(), 2);
}

#[test]
fn byte_order_mark_is_skipped() {
    assert_eq!(parse_string("\u{feff}[true]").unwrap().as_array().unwrap().get(0), Some(&Value::Bool(true)));
    assert!(parse_string("[\u{feff}true]").is_err());
}

#[test]
fn nul_keys_and_nul_values() {
    assert!(parse_string(r#"{"a\u0000b":1}"#).is_err());
    assert_eq!(parse_string(r#"["a\u0000b"]"#).unwrap().as_array().unwrap().get(0), Some(&string("a\u{0}b")));
}

#[test]
fn lone_surrogates_are_refused() {
    assert!(parse_string(r#""\uD800""#).is_err());
    assert!(parse_string(r#""\uD800\u0041""#).is_err());
    assert!(parse_string(r#""\uDC00""#).is_err());
    assert_eq!(parse_string(r#""\uFFFF""#), Ok(string("\u{ffff}")));
}

#[test]
fn nesting_limit_exact() {
    let ok = "[".repeat(2048) + &"]".repeat(2048);
    assert!(parse_string(&ok).is_ok());
    let over = "[".repeat(2049) + &"]".repeat(2049);
    assert_eq!(parse_string(&over), Err(ParsonError::Parse));
}

#[test]
fn validate_errors() {
    let schema = parse_string(r#"{"a":[0],"b":"","c":null}"#).unwrap();
    let good = parse_string(r#"{"a":[1,2],"b":"x","c":[],"extra":true}"#).unwrap();
    assert_eq!(validate(&schema, &good), Ok(()));
    let missing = parse_string(r#"{"a":[1],"c":1}"#).unwrap();
    assert_eq!(validate(&schema, &missing), Err(ParsonError::NotFound));
    let wrong = parse_string(r#"{"a":[1,"x"],"b":"x","c":1}"#).unwrap();
    assert_eq!(validate(&schema, &wrong), Err(ParsonError::TypeError));
    assert_eq!(validate(&number("1"), &Value::Null), Err(ParsonError::TypeError));
}

#[test]
fn error_messages() {
    assert_eq!(ParsonError::Parse.message(), "JSON parse error");
    assert_eq!(ParsonError::NotFound.message(), "key or index not found");
    assert_eq!(ParsonError::TypeError.message(), "type mismatch");
    assert_eq!(ParsonError::InvalidOperation.message(), "invalid operation");
    assert_eq!(ParsonError::Parse.name(), "Parse");
    assert_eq!(ParsonError::NotFound.name(), "NotFound");
    assert_eq!(ParsonError::TypeError.name(), "TypeError");
    assert_eq!(ParsonError::InvalidOperation.name(), "InvalidOperation");
}

#[test]
fn parse_and_format_output() {
    assert_eq!(parse_and_format(r#"{"a":[1,true]}"#), "{\n    \"a\": [\n        1,\n        true\n    ]\n}");
    assert_eq!(parse_and_format("{"), "Error parsing JSON: Parse");
}

#[test]
fn value_accessors() {
    let v = parse_string(r#"[null, 1, "s", [], {}]"#).unwrap();
    let arr = v.as_array().unwrap();
    assert!(arr.get(0).unwrap().is_null());
    assert_eq!(arr.get(1).unwrap().as_number().unwrap().as_text(), "1");
    assert_eq!(arr.get(2).unwrap().as_str(), Some("s"));
    assert!(arr.get(3).unwrap().as_array().unwrap().is_empty());
    assert!(arr.get(4).unwrap().as_object().unwrap().is_empty());
    assert_eq!(arr.get(2).unwrap().as_bool(), None);
    assert!(v.as_object().is_none());
    assert!(v.as_number().is_none());
}

#[test]
fn law_write_after_read() {
    let docs = [
        "\u{feff} { \"a\" : [1, 2.50, -0, 1E+2, {\"b\":\"\\u00e9\\/\"},], \"c\": {} , } ",
        "[\"\\uD834\\uDD1E\", \"\\u0000\", true, false, null, 0.1e-5]",
        "/* c */ {\"k\": [[[]]]} // end",
    ];
    for doc in docs {
        let v = parse_string_with_comments(doc).unwrap();
        for text in [serialize_to_string(&v), serialize_to_string_pretty(&v)] {
            assert_eq!(parse_string(&text), Ok(v.clone()));
            assert_eq!(parse_string_with_comments(&text), Ok(v.clone()));
        }
    }
}

#[test]
fn law_comments_extend() {
    let docs = ["{\"a\": [1, \"/*\", {\"//\": null}], \"b\":true}", " [ ] ", "\"a/b\"", "-1.5e3", "{\"x\":{},}"];
    for doc in docs {
        let plain = parse_string(doc);
        assert!(plain.is_ok(), "{doc}");
        assert_eq!(parse_string_with_comments(doc), plain);
    }
}

#[test]
fn parser_steps() {
    let mut p = Parser::new("  /* c */ \"ab\\u0041\\n\" 00e9", true);
    assert_eq!(p.skip_whitespace_and_comments(), Ok(()));
    assert_eq!(p.parse_string_raw(), Ok("abA\n".to_string()));
    assert_eq!(p.skip_whitespace_and_comments(), Ok(()));
    assert_eq!(p.parse_hex4(), Ok(0x00e9));
    assert_eq!(p.parse_value(), Err(ParsonError::Parse));

    let mut q = Parser::new("x\"y\"", false);
    assert_eq!(q.parse_string_value(), Err(ParsonError::Parse));
    let mut r = Parser::new("/* c */ 1", false);
    assert_eq!(r.skip_whitespace_and_comments(), Ok(()));
    assert_eq!(r.parse_value(), Err(ParsonError::Parse));
    let mut t = Parser::new("/* open", true);
    assert_eq!(t.skip_whitespace_and_comments(), Err(ParsonError::Parse));
    let mut u = Parser::new("12g4", false);
    assert_eq!(u.parse_hex4(), Err(ParsonError::Parse));
}

#[test]
fn serialize_internal_appends() {
    let v = parse_string(r#"{"a":[1]}"#).unwrap();
    let mut out = String::from("prefix:");
    serialize_internal(&v, &mut out, false, 3);
    assert_eq!(out, "prefix:{\"a\":[1]}");
    let mut pretty = String::from(">");
    serialize_internal(&v, &mut pretty, true, 1);
    assert_eq!(pretty, ">{\n        \"a\": [\n            1\n        ]\n    }");
}

#[test]
fn validation_first_failure_decides() {
    let schema = parse_string(r#"{"b":"","a":0}"#).unwrap();
    let both_bad = parse_string(r#"{"a":"x"}"#).unwrap();
    assert_eq!(validate(&schema, &both_bad), Err(ParsonError::NotFound));
    let items = parse_string(r#"[[0]]"#).unwrap();
    let bad_items = parse_string(r#"[[1, "x", null]]"#).unwrap();
    assert_eq!(validate(&items, &bad_items), Err(ParsonError::TypeError));
    assert_eq!(validate(&Value::Null, &bad_items), Ok(()));
}

#[test]
fn whitespace_around_value_changes_nothing() {
    let bodies = [
        r#"{"a":[1, true, null], "b": {"c": "d"}}"#,
        "[1,2,]",
        "\"text\"",
        "-0.5e3",
        "nul",
        "{\"a\" 1}",
        "",
        "[1] x",
    ];
    let pads = [("", ""), ("  ", ""), ("", "\n\t "), ("\r\n", "  \r"), (" \t", "\n")];
    for body in bodies.iter() {
        let alone = parse_string(body);
        for (before, after) in pads.iter() {
            let padded = format!("{}{}{}", before, body, after);
            assert_eq!(parse_string(&padded), alone, "{:?}", padded);
        }
    }
    assert!(parse_string("  { \"a\" : 1 }\n\t ").is_ok());
    assert!(parse_string(" ").is_err());
}

#[test]
fn generated_documents_parse() {
    let mut rng = rand::thread_rng();
    for depth in 0..5 {
        for _ in 0..50 {
            let doc = fuzz_valid_json(&mut rng, depth);
            assert!(parse_string(&doc).is_ok(), "{:?}", doc);
            assert!(parse_string_with_comments(&doc).is_ok(), "{:?}", doc);
        }
    }
    let leaf = fuzz_valid_json(&mut rng, 0);
    assert!(!leaf.starts_with('[') && !leaf.starts_with('{'));
    let deep = fuzz_valid_json(&mut rng, 2);
    assert!(deep.starts_with('[') || deep.starts_with('{'));
}

#[test]
fn generated_noise_shapes() {
    let mut rng = rand::thread_rng();
    for len in 0..30 {
        let s = fuzz_random_ascii(&mut rng, len);
        assert_eq!(s.chars().count(), len);
        assert!(s.chars().all(|c| (' '..='~').contains(&c) && c != '/'));
    }
    let tokens = [
        "{", "}", "[", "]", ":", ",", "\"", "a", "1", "-0", "true", "false", "null", "\\u0020",
        " ", "\n", "\\\"", "0.125",
    ];
    for _ in 0..20 {
        let s = fuzz_structured(&mut rng);
        assert!(!s.is_empty());
        assert!(s.chars().all(|c| tokens.iter().any(|t| t.contains(c))));
    }
}
