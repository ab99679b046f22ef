use docdb::document::Document;
use docdb::document::Value;
use docdb::float::Float;
use docdb::query::exists_;
use docdb::query::gt;
use docdb::query::gte;
use docdb::query::in_;
use docdb::query::lt;
use docdb::query::lte;
use docdb::query::ne;

fn float(x: f64) -> Float {
    Float::from_bits(x.to_bits())
}

fn person(name: &str, age: i64) -> Document {
    let mut doc = Document::new();
    doc.insert("name", name);
    doc.insert("age", age);
    doc
}

/// A document with one field.
fn one(key: &str, value: Value) -> Document {
    let mut doc = Document::new();
    doc.insert(key, value);
    doc
}

/// A condition with one operator.
fn op(name: &str, value: Value) -> Value {
    Value::Document(one(name, value))
}

#[test]
fn plain_equality() {
    let doc = person("Alice", 30);
    let mut query = Document::new();
    query.insert("name", "Alice");
    assert!(docdb::query::matches(&doc, &query));

    let mut query2 = Document::new();
    query2.insert("name", "Bob");
    assert!(!docdb::query::matches(&doc, &query2));
}

#[test]
fn comparison_operators() {
    let doc = person("Alice", 30);

    let mut gt_query = Document::new();
    gt_query.insert("age", gt(25));
    assert!(docdb::query::matches(&doc, &gt_query));

    let mut lt_query = Document::new();
    lt_query.insert("age", lt(25));
    assert!(!docdb::query::matches(&doc, &lt_query));

    let mut gte_query = Document::new();
    gte_query.insert("age", gte(30));
    assert!(docdb::query::matches(&doc, &gte_query));

    let mut lte_query = Document::new();
    lte_query.insert("age", lte(29));
    assert!(!docdb::query::matches(&doc, &lte_query));
}

#[test]
fn implicit_and_across_fields() {
    let doc = person("Alice", 30);

    let mut query = Document::new();
    query.insert("name", "Alice");
    query.insert("age", gt(25));
    assert!(docdb::query::matches(&doc, &query));

    let mut failing_query = Document::new();
    failing_query.insert("name", "Alice");
    failing_query.insert("age", gt(100));
    assert!(!docdb::query::matches(&doc, &failing_query));
}

#[test]
fn in_and_nin() {
    let doc = person("Alice", 30);

    let mut in_query = Document::new();
    in_query.insert("name", in_(vec![Value::from("Alice"), Value::from("Bob")]));
    assert!(docdb::query::matches(&doc, &in_query));

    let mut nin_query = Document::new();
    nin_query.insert("name", Value::Document({
        let mut d = Document::new();
        d.insert("$nin", Value::Array(vec![Value::from("Bob"), Value::from("Carol")]));
        d
    }));
    assert!(docdb::query::matches(&doc, &nin_query));
}

#[test]
fn exists_operator() {
    let doc = person("Alice", 30);

    let mut has_age = Document::new();
    has_age.insert("age", exists_(true));
    assert!(docdb::query::matches(&doc, &has_age));

    let mut has_email = Document::new();
    has_email.insert("email", exists_(true));
    assert!(!docdb::query::matches(&doc, &has_email));

    let mut no_email = Document::new();
    no_email.insert("email", exists_(false));
    assert!(docdb::query::matches(&doc, &no_email));
}

#[test]
fn or_combinator() {
    let doc = person("Alice", 30);

    let mut young_query = Document::new();
    young_query.insert("age", lt(20));

    let mut alice_query = Document::new();
    alice_query.insert("name", "Alice");

    let mut or_query = Document::new();
    or_query.insert(
        "$or",
        Value::Array(vec![Value::Document(young_query), Value::Document(alice_query)]),
    );
    assert!(docdb::query::matches(&doc, &or_query));
}

#[test]
fn and_combinator() {
    let doc = person("Alice", 30);

    let mut adult_query = Document::new();
    adult_query.insert("age", gte(18));

    let mut named_alice = Document::new();
    named_alice.insert("name", "Alice");

    let mut and_query = Document::new();
    and_query.insert(
        "$and",
        Value::Array(vec![Value::Document(adult_query), Value::Document(named_alice)]),
    );
    assert!(docdb::query::matches(&doc, &and_query));
}

#[test]
fn cross_type_numeric_comparison() {
    let mut doc = Document::new();
    doc.insert("score", float(90.5));

    let mut query = Document::new();
    query.insert("score", gt(90)); // Int compared against a Float field
    assert!(docdb::query::matches(&doc, &query));
}

#[test]
fn the_builders_make_operator_documents() {
    assert_eq!(gt(1), op("$gt", Value::Int(1)));
    assert_eq!(gte(1), op("$gte", Value::Int(1)));
    assert_eq!(lt("x"), op("$lt", Value::from("x")));
    assert_eq!(lte(true), op("$lte", Value::Bool(true)));
    assert_eq!(ne(Value::Null), op("$ne", Value::Null));
    assert_eq!(exists_(true), op("$exists", Value::Bool(true)));
    assert_eq!(in_(vec![Value::Int(1)]), op("$in", Value::Array(vec![Value::Int(1)])));
}

#[test]
fn an_empty_query_matches_everything() {
    assert!(docdb::query::matches(&Document::new(), &Document::new()));
    assert!(docdb::query::matches(&person("Alice", 30), &Document::new()));
}

#[test]
fn values_of_different_kinds_have_no_order() {
    let doc = person("Alice", 30);
    for condition in [gt("x"), lt("x"), gte("x"), lte("x")] {
        assert!(!docdb::query::matches(&doc, &one("age", condition)));
    }
    assert!(docdb::query::matches(&doc, &one("name", gt("Alic"))));
    assert!(docdb::query::matches(&doc, &one("name", lt("Bob"))));
    assert!(docdb::query::matches(&doc, &one("name", lte("Alice"))));
}

#[test]
fn several_operators_must_all_hold() {
    let doc = person("Alice", 30);
    let mut range = Document::new();
    range.insert("$gte", 18);
    range.insert("$lte", 65);
    assert!(docdb::query::matches(&doc, &one("age", Value::Document(range.clone()))));
    range.insert("$ne", 30);
    assert!(!docdb::query::matches(&doc, &one("age", Value::Document(range))));
    assert!(docdb::query::matches(&doc, &one("age", op("$eq", Value::Int(30)))));
    assert!(!docdb::query::matches(&doc, &one("age", op("$eq", Value::Int(31)))));
}

#[test]
fn combinators_without_an_array() {
    let doc = person("Alice", 30);
    let none: Vec<Value> = Vec::new();
    assert!(docdb::query::matches(&doc, &one("$and", Value::Array(none.clone()))));
    assert!(!docdb::query::matches(&doc, &one("$or", Value::Array(none))));
    assert!(!docdb::query::matches(&doc, &one("$or", Value::Int(1))));
    assert!(docdb::query::matches(&doc, &one("$and", Value::Int(1))));
    // What is no document in the array does not count.
    assert!(docdb::query::matches(&doc, &one("$and", Value::Array(vec![Value::Int(1)]))));
    assert!(!docdb::query::matches(&doc, &one("$or", Value::Array(vec![Value::Int(1)]))));
}

#[test]
fn an_unknown_operator_matches_nothing() {
    let doc = person("Alice", 30);
    assert!(!docdb::query::matches(&doc, &one("age", op("$near", Value::Int(30)))));
    assert!(!docdb::query::matches(&doc, &one("email", op("$near", Value::Null))));
}

#[test]
fn missing_fields() {
    let doc = person("Alice", 30);
    assert!(docdb::query::matches(&doc, &one("email", ne("x"))));
    assert!(!docdb::query::matches(&doc, &one("email", gt(1))));
    assert!(!docdb::query::matches(&doc, &one("email", in_(vec![Value::Null]))));
    assert!(docdb::query::matches(&doc, &one("email", op("$nin", Value::Array(vec![Value::Null])))));
    assert!(!docdb::query::matches(&doc, &one("email", Value::Null)));
}

#[test]
fn a_document_without_operators_is_a_plain_value() {
    let address = one("city", Value::from("Bengaluru"));
    let doc = one("address", Value::Document(address.clone()));
    assert!(docdb::query::matches(&doc, &one("address", Value::Document(address))));
    assert!(!docdb::query::matches(&doc, &one("address", Value::Document(one("city", Value::Null)))));
}

#[test]
fn large_integers_against_floats() {
    let doc = one("n", Value::Int(9007199254740993));
    assert!(docdb::query::matches(&doc, &one("n", gt(float(9007199254740992.0)))));
    assert!(docdb::query::matches(&doc, &one("n", lt(float(9007199254740994.0)))));
    assert!(!docdb::query::matches(&doc, &one("n", lte(float(9007199254740992.0)))));
    assert!(!docdb::query::matches(&doc, &one("n", gt(float(f64::NAN)))));
    assert!(!docdb::query::matches(&doc, &one("n", lte(float(f64::NAN)))));
    let other = one("n", Value::Float(float(9007199254740992.0)));
    assert!(docdb::query::matches(&other, &one("n", lt(Value::Int(9007199254740993)))));
    assert!(!docdb::query::matches(&other, &one("n", gte(Value::Int(9007199254740993)))));
}

#[test]
fn opposite_operators_complete_each_other() {
    let list = Value::Array(vec![Value::Int(1), Value::Int(2)]);
    let fields = [None, Some(Value::Int(1)), Some(Value::Int(3)), Some(Value::from("x"))];
    for field in &fields {
        let field = field.as_ref();
        let two = Value::Int(2);
        let met = |op: &str| docdb::query::apply_operator(field, op, &two);
        assert_eq!(met("$ne"), !met("$eq"));
        assert_eq!(
            docdb::query::apply_operator(field, "$nin", &list),
            !docdb::query::apply_operator(field, "$in", &list)
        );
        assert!(!(met("$gt") && met("$lt")));
        if matches!(field, Some(Value::Int(_))) {
            assert_eq!(met("$gte"), !met("$lt"));
            assert_eq!(met("$lte"), !met("$gt"));
        } else {
            assert!(!met("$gt") && !met("$gte") && !met("$lt") && !met("$lte"));
        }
    }
    assert!(docdb::query::apply_operator(None, "$ne", &list));
    assert!(docdb::query::apply_operator(None, "$nin", &list));
}
