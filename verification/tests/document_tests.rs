use docdb::document::Document;
use docdb::document::Value;
use docdb::float::Float;

fn float(x: f64) -> Float {
    Float::from_bits(x.to_bits())
}

#[test]
fn insert_and_get() {
    let mut doc = Document::new();
    doc.insert("name", "Alice");
    doc.insert("age", 30);
    doc.insert("active", true);

    assert_eq!(doc.get("name"), Some(&Value::Str("Alice".to_string())));
    assert_eq!(doc.get("age"), Some(&Value::Int(30)));
    assert_eq!(doc.get("missing"), None);
}

#[test]
fn insert_overwrites_and_returns_old_value() {
    let mut doc = Document::new();
    doc.insert("age", 30);
    let old = doc.insert("age", 31);

    assert_eq!(old, Some(Value::Int(30)));
    assert_eq!(doc.get("age"), Some(&Value::Int(31)));
    assert_eq!(doc.len(), 1); // still one field, not two
}

#[test]
fn nested_documents() {
    let mut address = Document::new();
    address.insert("city", "Bengaluru");

    let mut person = Document::new();
    person.insert("name", "Alice");
    person.insert("address", address);

    match person.get("address") {
        Some(Value::Document(inner)) => {
            assert_eq!(inner.get("city"), Some(&Value::Str("Bengaluru".to_string())));
        }
        _ => panic!("expected a nested document"),
    }
}

#[test]
fn fields_keep_their_order() {
    let mut doc = Document::default();
    assert!(doc.is_empty());
    doc.insert("z", 1);
    doc.insert("a", 2);
    doc.insert(String::from("m"), 3);
    doc.insert("a", 4);
    let names: Vec<&str> = doc.iter().iter().map(|(k, _)| k.as_str()).collect();
    assert_eq!(names, ["z", "a", "m"]);
    assert_eq!(doc.remove("z"), Some(Value::Int(1)));
    assert_eq!(doc.remove("z"), None);
    assert_eq!(doc.get("z"), None);
    let names: Vec<&str> = doc.iter().iter().map(|(k, _)| k.as_str()).collect();
    assert_eq!(names, ["a", "m"]);
    assert_eq!(doc.len(), 2);
    assert!(!doc.is_empty());
}

#[test]
fn conversions_into_values() {
    assert_eq!(Value::from("x"), Value::Str("x".to_string()));
    assert_eq!(Value::from(String::from("y")), Value::Str("y".to_string()));
    assert_eq!(Value::from(5i64), Value::Int(5));
    assert_eq!(Value::from(-5i32), Value::Int(-5));
    assert_eq!(Value::from(float(1.5)), Value::Float(float(1.5)));
    assert_eq!(Value::from(false), Value::Bool(false));
    assert_eq!(Value::from(vec![Value::Null]), Value::Array(vec![Value::Null]));
    assert_eq!(Value::from(Document::new()), Value::Document(Document::new()));
}

#[test]
fn equality_is_that_of_the_contents() {
    let mut a = Document::new();
    a.insert("x", 1);
    a.insert("y", 2);
    let mut b = Document::new();
    b.insert("y", 2);
    b.insert("x", 1);
    assert_ne!(a, b);
    assert_eq!(a, a.clone());
    assert_ne!(Value::Int(1), Value::Float(float(1.0)));
    assert_ne!(Value::Int(1), Value::Bool(true));
    assert_eq!(Value::Float(float(0.0)), Value::Float(float(-0.0)));
    assert_ne!(Value::Float(float(f64::NAN)), Value::Float(float(f64::NAN)));
    assert_ne!(Value::Array(vec![Value::Null]), Value::Array(vec![]));
}
