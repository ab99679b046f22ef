use docdb::document::Document;
use docdb::document::Value;
use docdb::float::Float;
use docdb::json;
use docdb::json::is_whitespace;

fn float(x: f64) -> Float {
    Float::from_bits(x.to_bits())
}

fn convert(text: String) -> Option<Float> {
    text.parse::<f64>().ok().map(float)
}

fn show(f: Float) -> String {
    f64::from_bits(f.to_bits()).to_string()
}

fn parse_document(input: &str) -> Result<Document, String> {
    json::parse_document(input, &convert)
}

fn parse_value(input: &str) -> Result<Value, String> {
    json::parse_value(input, &convert)
}

fn to_json_string(doc: &Document) -> String {
    json::to_json_string(doc, &show)
}

fn written(value: Value) -> String {
    let mut doc = Document::new();
    doc.insert("v", value);
    let text = to_json_string(&doc);
    text[6..text.len() - 1].to_string()
}

#[test]
fn parses_flat_object() {
    let doc = parse_document(r#"{"name": "Alice", "age": 30, "active": true}"#).unwrap();
    assert_eq!(doc.get("name"), Some(&Value::Str("Alice".to_string())));
    assert_eq!(doc.get("age"), Some(&Value::Int(30)));
    assert_eq!(doc.get("active"), Some(&Value::Bool(true)));
}

#[test]
fn parses_nested_object_and_array() {
    let doc = parse_document(r#"{"tags": ["a", "b"], "address": {"city": "Bengaluru"}}"#).unwrap();
    assert_eq!(
        doc.get("tags"),
        Some(&Value::Array(vec![Value::Str("a".to_string()), Value::Str("b".to_string())]))
    );
    match doc.get("address") {
        Some(Value::Document(inner)) => {
            assert_eq!(inner.get("city"), Some(&Value::Str("Bengaluru".to_string())))
        }
        _ => panic!("expected nested document"),
    }
}

#[test]
fn parses_negative_and_float_numbers() {
    let doc = parse_document(r#"{"a": -5, "b": 3.14}"#).unwrap();
    assert_eq!(doc.get("a"), Some(&Value::Int(-5)));
    assert_eq!(doc.get("b"), Some(&Value::Float(float(3.14))));
}

#[test]
fn parses_null_and_escaped_strings() {
    let doc = parse_document(r#"{"a": null, "b": "line1\nline2"}"#).unwrap();
    assert_eq!(doc.get("a"), Some(&Value::Null));
    assert_eq!(doc.get("b"), Some(&Value::Str("line1\nline2".to_string())));
}

#[test]
fn rejects_malformed_input() {
    assert!(parse_document(r#"{"name": "Alice""#).is_err()); // missing closing brace
    assert!(parse_document(r#"not json at all"#).is_err());
    assert!(parse_document(r#"{"a": 1,}"#).is_err()); // trailing comma
}

#[test]
fn round_trips_through_to_json_string() {
    let mut doc = Document::new();
    doc.insert("name", "Alice");
    doc.insert("age", 30);

    let json_text = to_json_string(&doc);
    let reparsed = parse_document(&json_text).unwrap();
    assert_eq!(reparsed, doc);
}

#[test]
fn whitespace_is_that_of_the_standard_library() {
    for code in 0..=0x10FFFF {
        if let Some(c) = char::from_u32(code) {
            assert_eq!(is_whitespace(c), c.is_whitespace(), "{code:x}");
        }
    }
}

#[test]
fn every_failure_has_its_message() {
    let cases = [
        ("", "unexpected end of input"),
        ("   ", "unexpected end of input"),
        ("not json", "expected 'null'"),
        ("nul", "expected 'null'"),
        ("tru", "expected 'true' or 'false'"),
        ("fals", "expected 'true' or 'false'"),
        ("?", "unexpected character '?'"),
        ("{", "expected '\"', found end of input"),
        ("{a: 1}", "expected '\"', found 'a'"),
        ("{\"a\" 1}", "expected ':', found '1'"),
        ("{\"a\"", "expected ':', found end of input"),
        ("{\"a\": 1", "unexpected end of input inside object"),
        ("{\"a\": 1]", "expected ',' or '}', found ']'"),
        ("{\"a\": 1,}", "expected '\"', found '}'"),
        ("[1", "unexpected end of input inside array"),
        ("[1}", "expected ',' or ']', found '}'"),
        ("[1,]", "unexpected character ']'"),
        ("\"abc", "unterminated string"),
        ("\"abc\\", "unexpected end of input in string escape"),
        ("\"\\u0041\"", "unsupported escape sequence '\\u'"),
        ("-", "invalid number '-'"),
        ("1.2.3", "invalid number '1.2.3'"),
        ("1-2", "invalid number '1-2'"),
        ("--5", "invalid number '--5'"),
        ("9223372036854775808", "invalid number '9223372036854775808'"),
        ("-9223372036854775809", "invalid number '-9223372036854775809'"),
        ("99999999999999999999999999999999999999999999", "invalid number '99999999999999999999999999999999999999999999'"),
        ("1 2", "unexpected trailing characters after JSON value"),
        ("{} x", "unexpected trailing characters after JSON value"),
    ];
    for (input, message) in cases {
        assert_eq!(parse_value(input), Err(message.to_string()), "{input}");
    }
    assert_eq!(
        parse_document("[1]"),
        Err("expected a JSON object, e.g. {\"field\": value}".to_string())
    );
    assert_eq!(parse_document("{"), Err("expected '\"', found end of input".to_string()));
}

#[test]
fn values_of_every_kind() {
    assert_eq!(parse_value(" null "), Ok(Value::Null));
    assert_eq!(parse_value("true"), Ok(Value::Bool(true)));
    assert_eq!(parse_value("false"), Ok(Value::Bool(false)));
    assert_eq!(parse_value("0"), Ok(Value::Int(0)));
    assert_eq!(parse_value("-0"), Ok(Value::Int(0)));
    assert_eq!(parse_value("007"), Ok(Value::Int(7)));
    assert_eq!(parse_value("9223372036854775807"), Ok(Value::Int(i64::MAX)));
    assert_eq!(parse_value("-9223372036854775808"), Ok(Value::Int(i64::MIN)));
    assert_eq!(parse_value("1e3"), Ok(Value::Float(float(1000.0))));
    assert_eq!(parse_value("-2.5E-1"), Ok(Value::Float(float(-0.25))));
    assert_eq!(parse_value("[ ]"), Ok(Value::Array(vec![])));
    assert_eq!(parse_value("{ }"), Ok(Value::Document(Document::new())));
    assert_eq!(
        parse_value("\t[ 1 ,\u{2003}[ ] , \"x\" ]\n"),
        Ok(Value::Array(vec![Value::Int(1), Value::Array(vec![]), Value::from("x")]))
    );
    assert_eq!(parse_value(r#""\"\\\/\n\t\ré€""#), Ok(Value::from("\"\\/\n\t\ré€")));
}

#[test]
fn a_repeated_key_sets_the_field_again() {
    let doc = parse_document(r#"{"a": 1, "b": 2, "a": 3}"#).unwrap();
    assert_eq!(to_json_string(&doc), r#"{"a": 3, "b": 2}"#);
}

#[test]
fn values_are_written() {
    assert_eq!(written(Value::Null), "null");
    assert_eq!(written(Value::Bool(true)), "true");
    assert_eq!(written(Value::Bool(false)), "false");
    for n in [0, 7, -7, 10, -10, 1234567890, i64::MAX, i64::MIN] {
        assert_eq!(written(Value::Int(n)), n.to_string());
    }
    assert_eq!(written(Value::Float(float(3.25))), "3.25");
    assert_eq!(written(Value::Array(vec![])), "[]");
    assert_eq!(written(Value::Array(vec![Value::Int(1), Value::Null])), "[1, null]");
    assert_eq!(written(Value::Document(Document::new())), "{}");
    assert_eq!(to_json_string(&Document::new()), "{}");
}

/// Strings are written in their `Debug` form.
#[test]
fn strings_are_written_as_debug_does() {
    let mut texts: Vec<String> = vec![
        "".to_string(),
        "Alice".to_string(),
        "it's \"quoted\" \\ here".to_string(),
        "line\nline\ttab\rend".to_string(),
        "é € 漢字".to_string(),
        "\u{301}combining".to_string(),
        "zero \0 width \u{200b}".to_string(),
    ];
    for code in 0..0x300 {
        if let Some(c) = char::from_u32(code) {
            texts.push(format!("a{c}b"));
        }
    }
    for text in texts {
        assert_eq!(written(Value::from(text.as_str())), format!("{text:?}"));
    }
}

#[test]
fn documents_read_back() {
    let mut inner = Document::new();
    inner.insert("quote \" and \\", "tab\tnewline\n");
    inner.insert("empty", Document::new());
    let mut doc = Document::new();
    doc.insert("min", i64::MIN);
    doc.insert("pi", float(3.14159));
    doc.insert("tiny", float(5e-324));
    doc.insert("list", vec![Value::Null, Value::Bool(false), Value::Array(vec![])]);
    doc.insert("inner", inner);
    doc.insert("text", "é €");
    assert_eq!(parse_document(&to_json_string(&doc)), Ok(doc));
}

#[test]
fn a_float_without_a_fraction_reads_back_as_an_integer() {
    let mut doc = Document::new();
    doc.insert("x", float(1.0));
    let text = to_json_string(&doc);
    assert_eq!(text, r#"{"x": 1}"#);
    assert_eq!(parse_document(&text).unwrap().get("x"), Some(&Value::Int(1)));
}

#[test]
fn plain_documents_read_back() {
    let mut inner = Document::new();
    inner.insert("quote \" and \\", "tab\t, line\n, return\r");
    inner.insert("half", Value::Float(float(-0.5)));
    let mut doc = Document::new();
    doc.insert("name", "Alice");
    doc.insert("age", 30);
    doc.insert("none", Value::Null);
    doc.insert("list", Value::Array(vec![Value::Bool(true), Value::Document(inner)]));
    let text = json::to_json_string(&doc, &show);
    let read = parse_document(&text).unwrap();
    assert_eq!(read, doc);
    assert_eq!(read.to_bytes(), doc.to_bytes());
    // A whole number is written without a point, and read as an integer.
    let mut whole = Document::new();
    whole.insert("x", Value::Float(float(3.0)));
    let text = json::to_json_string(&whole, &show);
    assert_eq!(text, "{\"x\": 3}");
    assert!(matches!(parse_document(&text).unwrap().get("x"), Some(Value::Int(3))));
}
