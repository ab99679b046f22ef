//! Queries: documents that say what other documents have to look like.
//!
//! The fields of a query must all be met. A plain value asks for equality, a
//! document of operators asks for each of them, and `$and` and `$or` take
//! lists of queries.

use crate::document::Document;
use crate::document::DocumentView;
use crate::document::Value;
use crate::document::ValueView;
use crate::document::doc_get;
use crate::document::fields_view;
use crate::document::value_eq;
use crate::document::values_view;
use crate::float::Float;
use crate::float::int_order;
use crate::text::Order;
use crate::text::chars_of;
use crate::text::compare_strings;
use crate::text::lex_order;
use crate::text::same_string;
use vstd::arithmetic::power2::pow2;
use vstd::prelude::*;
use vstd::utf8::encode_utf8;

verus! {

broadcast use Value::lemma_view;

/// The order seen from the other side.
pub open spec fn reversed(order: Order) -> Order {
    match order {
        Order::Less => Order::Greater,
        Order::Equal => Order::Equal,
        Order::Greater => Order::Less,
    }
}

/// How two values compare. Numbers compare with each other, strings by their
/// bytes, and false comes before true; other pairs do not compare.
pub open spec fn value_order(a: ValueView, b: ValueView) -> Option<Order> {
    match (a, b) {
        (ValueView::Int(x), ValueView::Int(y)) => Some(int_order(x as int, y as int)),
        (ValueView::Float(x), ValueView::Float(y)) => x.order(y),
        (ValueView::Float(x), ValueView::Int(y)) => x.order_to_int(y as int),
        (ValueView::Int(x), ValueView::Float(y)) => match y.order_to_int(x as int) {
            Some(order) => Some(reversed(order)),
            None => None,
        },
        (ValueView::Str(x), ValueView::Str(y)) => Some(
            lex_order(encode_utf8(x), encode_utf8(y)),
        ),
        (ValueView::Bool(x), ValueView::Bool(y)) => Some(
            if x == y {
                Order::Equal
            } else if y {
                Order::Less
            } else {
                Order::Greater
            },
        ),
        _ => None,
    }
}

/// The field is there and equal to `value`.
pub open spec fn field_equals(field: Option<ValueView>, value: ValueView) -> bool {
    field matches Some(found) && value_eq(found, value)
}

/// The field is there and equal to one of the values of a list.
pub open spec fn field_in(field: Option<ValueView>, list: ValueView) -> bool {
    list matches ValueView::Array(items) && field matches Some(found) && exists|i: int|
        0 <= i < items.len() && value_eq(#[trigger] items[i], found)
}

/// How the field compares to `value`, if it is there.
pub open spec fn field_order(field: Option<ValueView>, value: ValueView) -> Option<Order> {
    match field {
        Some(found) => value_order(found, value),
        None => None,
    }
}

/// The field meets one operator. An operator that is not known is never met.
pub open spec fn operator_met(
    field: Option<ValueView>,
    op: Seq<char>,
    operand: ValueView,
) -> bool {
    if op == "$eq"@ {
        field_equals(field, operand)
    } else if op == "$ne"@ {
        !field_equals(field, operand)
    } else if op == "$exists"@ {
        (field is Some) == (operand == ValueView::Bool(true))
    } else if op == "$in"@ {
        field_in(field, operand)
    } else if op == "$nin"@ {
        !field_in(field, operand)
    } else if op == "$gt"@ {
        field_order(field, operand) == Some(Order::Greater)
    } else if op == "$gte"@ {
        field_order(field, operand) matches Some(order) && order != Order::Less
    } else if op == "$lt"@ {
        field_order(field, operand) == Some(Order::Less)
    } else if op == "$lte"@ {
        field_order(field, operand) matches Some(order) && order != Order::Greater
    } else {
        false
    }
}

/// A document of operators: the first name starts with a dollar sign.
pub open spec fn is_operators(doc: DocumentView) -> bool {
    doc.len() > 0 && doc[0].0.len() > 0 && doc[0].0[0] == '$'
}

/// The field meets a condition: all operators, or equality.
pub open spec fn field_meets(field: Option<ValueView>, condition: ValueView) -> bool {
    match condition {
        ValueView::Document(ops) => if is_operators(ops) {
            forall|i: int|
                0 <= i < ops.len() ==> operator_met(field, (#[trigger] ops[i]).0, ops[i].1)
        } else {
            field_equals(field, condition)
        },
        _ => field_equals(field, condition),
    }
}

/// The document satisfies the query.
pub open spec fn satisfies(doc: DocumentView, query: DocumentView) -> bool
    decreases query,
{
    forall|i: int|
        0 <= i < query.len() ==> satisfies_field(doc, (#[trigger] query[i]).0, query[i].1)
}

/// The document satisfies one field of a query. Of the lists of `$and` and
/// `$or` only the documents count.
pub open spec fn satisfies_field(
    doc: DocumentView,
    key: Seq<char>,
    condition: ValueView,
) -> bool
    decreases condition,
{
    if key == "$and"@ {
        match condition {
            ValueView::Array(items) => forall|i: int|
                0 <= i < items.len() ==> match #[trigger] items[i] {
                    ValueView::Document(query) => satisfies(doc, query),
                    _ => true,
                },
            _ => true,
        }
    } else if key == "$or"@ {
        match condition {
            ValueView::Array(items) => exists|i: int|
                0 <= i < items.len() && match #[trigger] items[i] {
                    ValueView::Document(query) => satisfies(doc, query),
                    _ => false,
                },
            _ => false,
        }
    } else {
        field_meets(doc_get(doc, key), condition)
    }
}

/// What an optional reference to a value is.
pub open spec fn option_view(value: Option<&Value>) -> Option<ValueView> {
    match value {
        Some(found) => Some(found.view()),
        None => None,
    }
}

/// Compares two values.
fn compare(a: &Value, b: &Value) -> (order: Option<Order>)
    ensures
        order == value_order(a.view(), b.view()),
{
    match (a, b) {
        (Value::Int(x), Value::Int(y)) => Some(
            if *x < *y {
                Order::Less
            } else if *x == *y {
                Order::Equal
            } else {
                Order::Greater
            },
        ),
        (Value::Float(x), Value::Float(y)) => x.compare(*y),
        (Value::Float(x), Value::Int(y)) => x.compare_int(*y),
        (Value::Int(x), Value::Float(y)) => match y.compare_int(*x) {
            Some(Order::Less) => Some(Order::Greater),
            Some(Order::Equal) => Some(Order::Equal),
            Some(Order::Greater) => Some(Order::Less),
            None => None,
        },
        (Value::Str(x), Value::Str(y)) => Some(compare_strings(x.as_str(), y.as_str())),
        (Value::Bool(x), Value::Bool(y)) => Some(
            if *x == *y {
                Order::Equal
            } else if *y {
                Order::Less
            } else {
                Order::Greater
            },
        ),
        _ => None,
    }
}

fn equals_field(field: Option<&Value>, value: &Value) -> (equal: bool)
    ensures
        equal == field_equals(option_view(field), value.view()),
{
    match field {
        Some(found) => *found == *value,
        None => false,
    }
}

fn is_in_list(field: Option<&Value>, list: &Value) -> (found: bool)
    ensures
        found == field_in(option_view(field), list.view()),
{
    match (list, field) {
        (Value::Array(items), Some(value)) => {
            let ghost all = values_view(items@);
            let mut i: usize = 0;
            while i < items.len()
                invariant
                    i <= items@.len(),
                    all == values_view(items@),
                    list.view() == ValueView::Array(all),
                    option_view(field) == Some(value.view()),
                    forall|j: int| 0 <= j < i ==> !value_eq(#[trigger] all[j], value.view()),
                decreases items@.len() - i,
            {
                if items[i] == *value {
                    assert(value_eq(list.view()->Array_0[i as int], value.view()));
                    return true;
                }
                i += 1;
            }
            false
        },
        _ => false,
    }
}

fn order_of_field(field: Option<&Value>, value: &Value) -> (order: Option<Order>)
    ensures
        order == field_order(option_view(field), value.view()),
{
    match field {
        Some(found) => compare(found, value),
        None => None,
    }
}

/// Whether a field meets one operator.
pub fn apply_operator(field: Option<&Value>, op: &str, operand: &Value) -> (met: bool)
    ensures
        met == operator_met(option_view(field), op@, operand.view()),
{
    if same_string(op, "$eq") {
        equals_field(field, operand)
    } else if same_string(op, "$ne") {
        !equals_field(field, operand)
    } else if same_string(op, "$exists") {
        let should_exist = match operand {
            Value::Bool(b) => *b,
            _ => false,
        };
        field.is_some() == should_exist
    } else if same_string(op, "$in") {
        is_in_list(field, operand)
    } else if same_string(op, "$nin") {
        !is_in_list(field, operand)
    } else if same_string(op, "$gt") {
        match order_of_field(field, operand) {
            Some(Order::Greater) => true,
            _ => false,
        }
    } else if same_string(op, "$gte") {
        match order_of_field(field, operand) {
            Some(Order::Greater) => true,
            Some(Order::Equal) => true,
            _ => false,
        }
    } else if same_string(op, "$lt") {
        match order_of_field(field, operand) {
            Some(Order::Less) => true,
            _ => false,
        }
    } else if same_string(op, "$lte") {
        match order_of_field(field, operand) {
            Some(Order::Less) => true,
            Some(Order::Equal) => true,
            _ => false,
        }
    } else {
        false
    }
}

/// Whether a document consists of operators.
fn is_operator_doc(doc: &Document) -> (operators: bool)
    ensures
        operators == is_operators(doc.view()),
{
    let fields = doc.iter();
    if fields.len() == 0 {
        return false;
    }
    assert(fields_view(fields@)[0].0 == fields@[0].0@);
    let name = chars_of(fields[0].0.as_str());
    name.len() > 0 && name[0] == '$'
}

/// Whether a field meets a condition.
fn matches_field(field: Option<&Value>, condition: &Value) -> (met: bool)
    ensures
        met == field_meets(option_view(field), condition.view()),
{
    match condition {
        Value::Document(ops) => {
            if !is_operator_doc(ops) {
                return equals_field(field, condition);
            }
            let fields = ops.iter();
            let ghost all = ops.view();
            let mut i: usize = 0;
            while i < fields.len()
                invariant
                    i <= fields@.len(),
                    all == fields_view(fields@),
                    condition.view() == ValueView::Document(all),
                    is_operators(all),
                    forall|j: int|
                        0 <= j < i ==> operator_met(
                            option_view(field),
                            (#[trigger] all[j]).0,
                            all[j].1,
                        ),
                decreases fields@.len() - i,
            {
                assert(all[i as int] == (fields@[i as int].0@, fields@[i as int].1.view()));
                if !apply_operator(field, fields[i].0.as_str(), &fields[i].1) {
                    return false;
                }
                i += 1;
            }
            true
        },
        _ => equals_field(field, condition),
    }
}

/// Whether a document satisfies a query.
pub fn matches(doc: &Document, query: &Document) -> (met: bool)
    ensures
        met == satisfies(doc.view(), query.view()),
    decreases query,
{
    let fields = query.iter();
    let ghost all = query.view();
    let mut i: usize = 0;
    while i < fields.len()
        invariant
            i <= fields@.len(),
            all == fields_view(fields@),
            all == query.view(),
            decreases_to!(query => fields@),
            forall|j: int|
                0 <= j < i ==> satisfies_field(doc.view(), (#[trigger] all[j]).0, all[j].1),
        decreases fields@.len() - i,
    {
        assert(all[i as int] == (fields@[i as int].0@, fields@[i as int].1.view()));
        if !matches_condition(doc, fields[i].0.as_str(), &fields[i].1) {
            return false;
        }
        i += 1;
    }
    true
}

/// Whether a document satisfies one field of a query.
fn matches_condition(doc: &Document, key: &str, condition: &Value) -> (met: bool)
    ensures
        met == satisfies_field(doc.view(), key@, condition.view()),
    decreases condition,
{
    if same_string(key, "$and") {
        match condition {
            Value::Array(items) => {
                let ghost all = values_view(items@);
                let mut i: usize = 0;
                while i < items.len()
                    invariant
                        i <= items@.len(),
                        all == values_view(items@),
                        condition.view() == ValueView::Array(all),
                        key@ == "$and"@,
                        decreases_to!(condition => items),
                        forall|j: int|
                            0 <= j < i ==> match #[trigger] all[j] {
                                ValueView::Document(query) => satisfies(doc.view(), query),
                                _ => true,
                            },
                    decreases items@.len() - i,
                {
                    assert(all[i as int] == items@[i as int].view());
                    match &items[i] {
                        Value::Document(query) => {
                            if !matches(doc, query) {
                                return false;
                            }
                        },
                        _ => {},
                    }
                    i += 1;
                }
                true
            },
            _ => true,
        }
    } else if same_string(key, "$or") {
        match condition {
            Value::Array(items) => {
                let ghost all = values_view(items@);
                let mut i: usize = 0;
                while i < items.len()
                    invariant
                        i <= items@.len(),
                        all == values_view(items@),
                        condition.view() == ValueView::Array(all),
                        key@ == "$or"@,
                        key@ != "$and"@,
                        decreases_to!(condition => items),
                        forall|j: int|
                            0 <= j < i ==> match #[trigger] all[j] {
                                ValueView::Document(query) => !satisfies(doc.view(), query),
                                _ => true,
                            },
                    decreases items@.len() - i,
                {
                    assert(all[i as int] == items@[i as int].view());
                    match &items[i] {
                        Value::Document(query) => {
                            if matches(doc, query) {
                                return true;
                            }
                        },
                        _ => {},
                    }
                    i += 1;
                }
                false
            },
            _ => false,
        }
    } else {
        matches_field(doc.get(key), condition)
    }
}

/// A condition with one operator.
pub open spec fn condition_view(name: Seq<char>, operand: ValueView) -> ValueView {
    ValueView::Document(seq![(name, operand)])
}

/// A condition with one operator.
fn operator(name: &str, operand: Value) -> (condition: Value)
    ensures
        condition.view() == condition_view(name@, operand.view()),
{
    let mut doc = Document::new();
    doc.insert(name, operand);
    assert(doc.view() =~= seq![(name@, operand.view())]);
    Value::Document(doc)
}

/// Asks for a field that is greater than `value`.
pub fn gt<V: Into<Value>>(value: V) -> (condition: Value)
    ensures
        exists|operand: Value| #[trigger]
            call_ensures(V::into, (value,), operand) && condition.view() == condition_view(
                "$gt"@,
                operand.view(),
            ),
{
    let operand: Value = value.into();
    operator("$gt", operand)
}

/// Asks for a field that is not less than `value`.
pub fn gte<V: Into<Value>>(value: V) -> (condition: Value)
    ensures
        exists|operand: Value| #[trigger]
            call_ensures(V::into, (value,), operand) && condition.view() == condition_view(
                "$gte"@,
                operand.view(),
            ),
{
    let operand: Value = value.into();
    operator("$gte", operand)
}

/// Asks for a field that is less than `value`.
pub fn lt<V: Into<Value>>(value: V) -> (condition: Value)
    ensures
        exists|operand: Value| #[trigger]
            call_ensures(V::into, (value,), operand) && condition.view() == condition_view(
                "$lt"@,
                operand.view(),
            ),
{
    let operand: Value = value.into();
    operator("$lt", operand)
}

/// Asks for a field that is not greater than `value`.
pub fn lte<V: Into<Value>>(value: V) -> (condition: Value)
    ensures
        exists|operand: Value| #[trigger]
            call_ensures(V::into, (value,), operand) && condition.view() == condition_view(
                "$lte"@,
                operand.view(),
            ),
{
    let operand: Value = value.into();
    operator("$lte", operand)
}

/// Asks for a field that is missing or not equal to `value`.
pub fn ne<V: Into<Value>>(value: V) -> (condition: Value)
    ensures
        exists|operand: Value| #[trigger]
            call_ensures(V::into, (value,), operand) && condition.view() == condition_view(
                "$ne"@,
                operand.view(),
            ),
{
    let operand: Value = value.into();
    operator("$ne", operand)
}

/// Asks for a field to be there, or not to be.
pub fn exists_(should_exist: bool) -> (condition: Value)
    ensures
        condition.view() == condition_view("$exists"@, ValueView::Bool(should_exist)),
{
    operator("$exists", Value::Bool(should_exist))
}

/// Asks for a field that is equal to one of several values.
pub fn in_(values: Vec<Value>) -> (condition: Value)
    ensures
        condition.view() == condition_view("$in"@, ValueView::Array(values_view(values@))),
{
    operator("$in", Value::Array(values))
}

/// A query without fields is satisfied by every document, and the fields of
/// two queries together ask for both.
pub proof fn law_fields_conjoin(doc: DocumentView, a: DocumentView, b: DocumentView)
    ensures
        satisfies(doc, Seq::empty()),
        satisfies(doc, a + b) == (satisfies(doc, a) && satisfies(doc, b)),
{
    let all = a + b;
    if satisfies(doc, all) {
        assert forall|i: int| 0 <= i < a.len() implies satisfies_field(
            doc,
            (#[trigger] a[i]).0,
            a[i].1,
        ) by {
            assert(all[i] == a[i]);
        }
        assert forall|i: int| 0 <= i < b.len() implies satisfies_field(
            doc,
            (#[trigger] b[i]).0,
            b[i].1,
        ) by {
            assert(all[a.len() + i] == b[i]);
        }
    }
    if satisfies(doc, a) && satisfies(doc, b) {
        assert forall|i: int| 0 <= i < all.len() implies satisfies_field(
            doc,
            (#[trigger] all[i]).0,
            all[i].1,
        ) by {
            if i < a.len() {
                assert(all[i] == a[i]);
            } else {
                assert(all[i] == b[i - a.len()]);
            }
        }
    }
}

/// Values compare the same way from both sides, whether as integers or as
/// floating-point numbers.
pub proof fn law_order_from_both_sides(a: ValueView, b: ValueView)
    ensures
        value_order(b, a) == match value_order(a, b) {
            Some(order) => Some(reversed(order)),
            None => None,
        },
{
    match (a, b) {
        (ValueView::Str(x), ValueView::Str(y)) => {
            crate::text::law_lex_strict_total_order(encode_utf8(x), encode_utf8(y), encode_utf8(x));
        },
        _ => {},
    }
}

/// The operators that compare a field exclude or complete each other, and
/// none of the ordering ones is met where the values do not compare or the
/// field is missing. A missing field is equal to nothing and in no list.
pub proof fn law_operators_agree(field: Option<ValueView>, operand: ValueView)
    ensures
        operator_met(field, "$ne"@, operand) == !operator_met(field, "$eq"@, operand),
        operator_met(field, "$nin"@, operand) == !operator_met(field, "$in"@, operand),
        field_order(field, operand) is Some ==> {
            &&& operator_met(field, "$gte"@, operand) == !operator_met(field, "$lt"@, operand)
            &&& operator_met(field, "$lte"@, operand) == !operator_met(field, "$gt"@, operand)
        },
        !(operator_met(field, "$gt"@, operand) && operator_met(field, "$lt"@, operand)),
        field is None ==> {
            &&& operator_met(field, "$ne"@, operand)
            &&& operator_met(field, "$nin"@, operand)
            &&& !operator_met(field, "$eq"@, operand)
            &&& !operator_met(field, "$in"@, operand)
        },
        field_order(field, operand) is None ==> {
            &&& !operator_met(field, "$gt"@, operand)
            &&& !operator_met(field, "$gte"@, operand)
            &&& !operator_met(field, "$lt"@, operand)
            &&& !operator_met(field, "$lte"@, operand)
        },
{
    reveal_strlit("$eq");
    reveal_strlit("$ne");
    reveal_strlit("$exists");
    reveal_strlit("$in");
    reveal_strlit("$nin");
    reveal_strlit("$gt");
    reveal_strlit("$gte");
    reveal_strlit("$lt");
    reveal_strlit("$lte");
    assert("$eq"@[1] == 'e');
    assert("$ne"@[1] == 'n' && "$ne"@[2] == 'e');
    assert("$exists"@.len() == 7);
    assert("$in"@[1] == 'i');
    assert("$nin"@[1] == 'n' && "$nin"@[2] == 'i');
    assert("$gt"@[1] == 'g' && "$gte"@[1] == 'g');
    assert("$lt"@[1] == 'l' && "$lte"@[1] == 'l');
    assert("$gt"@.len() == 3 && "$gte"@.len() == 4);
    assert("$lt"@.len() == 3 && "$lte"@.len() == 4);
}

/// A query with one operator on one field.
pub open spec fn query_view(
    name: Seq<char>,
    op: Seq<char>,
    operand: ValueView,
) -> DocumentView {
    seq![(name, condition_view(op, operand))]
}

/// A query with one operator on one field asks for that operator.
pub proof fn law_one_operator(
    doc: DocumentView,
    name: Seq<char>,
    op: Seq<char>,
    operand: ValueView,
)
    requires
        name != "$and"@,
        name != "$or"@,
        op.len() > 0,
        op[0] == '$',
    ensures
        satisfies(doc, query_view(name, op, operand)) == operator_met(
            doc_get(doc, name),
            op,
            operand,
        ),
{
    let query = query_view(name, op, operand);
    let ops = seq![(op, operand)];
    assert(is_operators(ops));
    assert(ops[0] == (op, operand));
    assert(query[0] == (name, condition_view(op, operand)));
    assert(field_meets(doc_get(doc, name), condition_view(op, operand)) == operator_met(
        doc_get(doc, name),
        op,
        operand,
    ));
}

/// Of two queries with opposite operators on one field, a document satisfies
/// exactly one: with `$ne` and `$eq`, with `$nin` and `$in`, and where the
/// field compares to the value, with `$gte` and `$lt` and with `$lte` and
/// `$gt`.
pub proof fn law_opposite_queries(doc: DocumentView, name: Seq<char>, operand: ValueView)
    requires
        name != "$and"@,
        name != "$or"@,
    ensures
        satisfies(doc, query_view(name, "$ne"@, operand)) == !satisfies(
            doc,
            query_view(name, "$eq"@, operand),
        ),
        satisfies(doc, query_view(name, "$nin"@, operand)) == !satisfies(
            doc,
            query_view(name, "$in"@, operand),
        ),
        field_order(doc_get(doc, name), operand) is Some ==> {
            &&& satisfies(doc, query_view(name, "$gte"@, operand)) == !satisfies(
                doc,
                query_view(name, "$lt"@, operand),
            )
            &&& satisfies(doc, query_view(name, "$lte"@, operand)) == !satisfies(
                doc,
                query_view(name, "$gt"@, operand),
            )
        },
{
    reveal_strlit("$eq");
    reveal_strlit("$ne");
    reveal_strlit("$in");
    reveal_strlit("$nin");
    reveal_strlit("$gt");
    reveal_strlit("$gte");
    reveal_strlit("$lt");
    reveal_strlit("$lte");
    law_one_operator(doc, name, "$eq"@, operand);
    law_one_operator(doc, name, "$ne"@, operand);
    law_one_operator(doc, name, "$in"@, operand);
    law_one_operator(doc, name, "$nin"@, operand);
    law_one_operator(doc, name, "$gt"@, operand);
    law_one_operator(doc, name, "$gte"@, operand);
    law_one_operator(doc, name, "$lt"@, operand);
    law_one_operator(doc, name, "$lte"@, operand);
    law_operators_agree(doc_get(doc, name), operand);
}

/// A query with a list of queries under `$and` is satisfied exactly if each of
/// them is, and one with a list under `$or` exactly if one of them is. What is
/// no query in the list does not count.
pub proof fn law_lists_of_queries(doc: DocumentView, items: Seq<ValueView>)
    ensures
        satisfies(doc, seq![("$and"@, ValueView::Array(items))]) <==> forall|i: int|
            0 <= i < items.len() ==> (#[trigger] items[i] matches ValueView::Document(query)
                ==> satisfies(doc, query)),
        satisfies(doc, seq![("$or"@, ValueView::Array(items))]) <==> exists|i: int|
            0 <= i < items.len() && (#[trigger] items[i] matches ValueView::Document(query)
                && satisfies(doc, query)),
{
    reveal_strlit("$and");
    reveal_strlit("$or");
    assert("$and"@.len() != "$or"@.len());
    let list = ValueView::Array(items);
    let all = seq![("$and"@, list)];
    let any = seq![("$or"@, list)];
    assert(all[0] == ("$and"@, list));
    assert(any[0] == ("$or"@, list));
    assert(satisfies(doc, all) == satisfies_field(doc, "$and"@, list));
    assert(satisfies(doc, any) == satisfies_field(doc, "$or"@, list));
    if satisfies(doc, all) {
        assert forall|i: int| 0 <= i < items.len() implies (
        #[trigger] items[i] matches ValueView::Document(query) ==> satisfies(doc, query)) by {
        }
    }
    if satisfies(doc, any) {
        let i = choose|i: int|
            0 <= i < items.len() && match #[trigger] items[i] {
                ValueView::Document(query) => satisfies(doc, query),
                _ => false,
            };
        assert(items[i] matches ValueView::Document(query) && satisfies(doc, query));
    }
}

/// Something else than a list under `$and` asks for nothing, and under `$or` is
/// satisfied by no document.
pub proof fn law_no_list_of_queries(doc: DocumentView, condition: ValueView)
    requires
        !(condition is Array),
    ensures
        satisfies(doc, seq![("$and"@, condition)]),
        !satisfies(doc, seq![("$or"@, condition)]),
{
    reveal_strlit("$and");
    reveal_strlit("$or");
    assert("$and"@.len() != "$or"@.len());
    assert(seq![("$and"@, condition)][0] == ("$and"@, condition));
    assert(seq![("$or"@, condition)][0] == ("$or"@, condition));
}

/// A value in a query that is no document of operators asks for a field that
/// is there and equal to it.
pub proof fn law_plain_values_ask_for_equality(
    doc: DocumentView,
    name: Seq<char>,
    value: ValueView,
)
    requires
        name != "$and"@,
        name != "$or"@,
        value matches ValueView::Document(ops) ==> !(ops.len() > 0 && ops[0].0.len() > 0
            && ops[0].0[0] == '$'),
    ensures
        satisfies(doc, seq![(name, value)]) <==> (doc_get(doc, name) matches Some(found)
            && value_eq(found, value)),
{
    assert(seq![(name, value)][0] == (name, value));
}

/// Several operators on a field ask for each of them. The first name decides
/// that they are operators; one without a dollar sign is never met.
pub proof fn law_operators_conjoin(doc: DocumentView, name: Seq<char>, ops: DocumentView)
    requires
        name != "$and"@,
        name != "$or"@,
        ops.len() > 0,
        ops[0].0.len() > 0,
        ops[0].0[0] == '$',
    ensures
        satisfies(doc, seq![(name, ValueView::Document(ops))]) <==> forall|i: int|
            0 <= i < ops.len() ==> (#[trigger] ops[i]).0.len() > 0 && ops[i].0[0] == '$'
                && satisfies(doc, seq![(name, ValueView::Document(seq![ops[i]]))]),
{
    let condition = ValueView::Document(ops);
    assert(seq![(name, condition)][0] == (name, condition));
    let field = doc_get(doc, name);
    reveal_strlit("$eq");
    reveal_strlit("$ne");
    reveal_strlit("$exists");
    reveal_strlit("$in");
    reveal_strlit("$nin");
    reveal_strlit("$gt");
    reveal_strlit("$gte");
    reveal_strlit("$lt");
    reveal_strlit("$lte");
    assert forall|i: int| 0 <= i < ops.len() implies operator_met(
        field,
        (#[trigger] ops[i]).0,
        ops[i].1,
    ) == (ops[i].0.len() > 0 && ops[i].0[0] == '$' && satisfies(
        doc,
        seq![(name, ValueView::Document(seq![ops[i]]))],
    )) by {
        if ops[i].0.len() > 0 && ops[i].0[0] == '$' {
            law_one_operator(doc, name, ops[i].0, ops[i].1);
            assert(seq![(ops[i].0, ops[i].1)] =~= seq![ops[i]]);
        }
    }
    assert(satisfies(doc, seq![(name, condition)]) == field_meets(field, condition));
}

/// What each operator asks of a field, and that no other operator is ever met.
pub proof fn law_meaning_of_operators(
    doc: DocumentView,
    name: Seq<char>,
    op: Seq<char>,
    operand: ValueView,
)
    requires
        name != "$and"@,
        name != "$or"@,
        op.len() > 0,
        op[0] == '$',
    ensures
        ({
            let met = satisfies(doc, seq![(name, ValueView::Document(seq![(op, operand)]))]);
            let field = doc_get(doc, name);
            let order = match field {
                Some(found) => value_order(found, operand),
                None => None,
            };
            let equal = field matches Some(found) && value_eq(found, operand);
            let listed = operand matches ValueView::Array(items) && exists|i: int|
                0 <= i < items.len() && (field matches Some(found) && value_eq(
                    #[trigger] items[i],
                    found,
                ));
            &&& op =~= seq!['$', 'e', 'q'] ==> met == equal
            &&& op =~= seq!['$', 'n', 'e'] ==> met == !equal
            &&& op =~= seq!['$', 'i', 'n'] ==> met == listed
            &&& op =~= seq!['$', 'n', 'i', 'n'] ==> met == !listed
            &&& op =~= seq!['$', 'e', 'x', 'i', 's', 't', 's'] ==> met == ((field is Some) == (
            operand == ValueView::Bool(true)))
            &&& op =~= seq!['$', 'g', 't'] ==> met == (order == Some(Order::Greater))
            &&& op =~= seq!['$', 'l', 't'] ==> met == (order == Some(Order::Less))
            &&& op =~= seq!['$', 'g', 't', 'e'] ==> met == (order == Some(Order::Greater) || order
                == Some(Order::Equal))
            &&& op =~= seq!['$', 'l', 't', 'e'] ==> met == (order == Some(Order::Less) || order
                == Some(Order::Equal))
            &&& met ==> op =~= seq!['$', 'e', 'q'] || op =~= seq!['$', 'n', 'e'] || op =~= seq![
                '$',
                'i',
                'n',
            ] || op =~= seq!['$', 'n', 'i', 'n'] || op =~= seq![
                '$',
                'e',
                'x',
                'i',
                's',
                't',
                's',
            ] || op =~= seq!['$', 'g', 't'] || op =~= seq!['$', 'l', 't'] || op =~= seq![
                '$',
                'g',
                't',
                'e',
            ] || op =~= seq!['$', 'l', 't', 'e']
        }),
{
    reveal_strlit("$eq");
    reveal_strlit("$ne");
    reveal_strlit("$exists");
    reveal_strlit("$in");
    reveal_strlit("$nin");
    reveal_strlit("$gt");
    reveal_strlit("$gte");
    reveal_strlit("$lt");
    reveal_strlit("$lte");
    assert("$eq"@ =~= seq!['$', 'e', 'q']);
    assert("$ne"@ =~= seq!['$', 'n', 'e']);
    assert("$in"@ =~= seq!['$', 'i', 'n']);
    assert("$nin"@ =~= seq!['$', 'n', 'i', 'n']);
    assert("$exists"@ =~= seq!['$', 'e', 'x', 'i', 's', 't', 's']);
    assert("$gt"@ =~= seq!['$', 'g', 't']);
    assert("$lt"@ =~= seq!['$', 'l', 't']);
    assert("$gte"@ =~= seq!['$', 'g', 't', 'e']);
    assert("$lte"@ =~= seq!['$', 'l', 't', 'e']);
    assert("$eq"@[1] == 'e' && "$ne"@[1] == 'n' && "$in"@[1] == 'i' && "$gt"@[1] == 'g'
        && "$lt"@[1] == 'l' && "$nin"@[2] == 'i' && "$gte"@[1] == 'g' && "$lte"@[1] == 'l');
    law_one_operator(doc, name, op, operand);
    let field = doc_get(doc, name);
    assert(field_in(field, operand) == (operand matches ValueView::Array(items) && exists|i: int|
        0 <= i < items.len() && (field matches Some(found) && value_eq(
            #[trigger] items[i],
            found,
        ))));
}

/// Which values compare, and how: numbers by their size, strings by their
/// bytes, false before true, and no others.
pub proof fn law_order_of_values(a: ValueView, b: ValueView)
    ensures
        forall|x: i64, y: i64|
            a == ValueView::Int(x) && b == ValueView::Int(y) ==> value_order(a, b) == Some(
                if x < y {
                    Order::Less
                } else if x > y {
                    Order::Greater
                } else {
                    Order::Equal
                },
            ),
        forall|x: Float, y: Float|
            a == ValueView::Float(x) && b == ValueView::Float(y) ==> value_order(a, b)
                == #[trigger] x.order(y),
        forall|x: Float, n: i64|
            a == ValueView::Float(x) && b == ValueView::Int(n) ==> value_order(a, b)
                == #[trigger] x.order_to_int(n as int),
        forall|x: Seq<char>, y: Seq<char>|
            a == ValueView::Str(x) && b == ValueView::Str(y) ==> value_order(a, b) == Some(
                if #[trigger] crate::text::lex_lt(encode_utf8(x), encode_utf8(y)) {
                    Order::Less
                } else if x == y {
                    Order::Equal
                } else {
                    Order::Greater
                },
            ),
        forall|x: bool, y: bool|
            a == ValueView::Bool(x) && b == ValueView::Bool(y) ==> value_order(a, b) == Some(
                if x == y {
                    Order::Equal
                } else if x {
                    Order::Greater
                } else {
                    Order::Less
                },
            ),
        value_order(a, b) is Some ==> (a is Int || a is Float) && (b is Int || b is Float) || a
            is Str && b is Str || a is Bool && b is Bool,
{
    match (a, b) {
        (ValueView::Str(x), ValueView::Str(y)) => {
            if encode_utf8(x) == encode_utf8(y) {
                crate::text::lemma_utf8_injective(x, y);
            }
        },
        _ => {},
    }
}

/// Of three values that compare, if the first is less than the second and the
/// second less than the third, the first is less than the third, whether they
/// are integers or floating-point numbers.
pub proof fn law_order_carries_over(a: ValueView, b: ValueView, c: ValueView)
    requires
        value_order(a, b) == Some(Order::Less) || value_order(a, b) == Some(Order::Equal),
        value_order(b, c) == Some(Order::Less) || value_order(b, c) == Some(Order::Equal),
    ensures
        value_order(a, c) == Some(
            if value_order(a, b) == Some(Order::Equal) && value_order(b, c) == Some(Order::Equal) {
                Order::Equal
            } else {
                Order::Less
            },
        ),
{
    match (a, b, c) {
        (ValueView::Str(x), ValueView::Str(y), ValueView::Str(z)) => {
            crate::text::law_lex_strict_total_order(
                encode_utf8(x),
                encode_utf8(y),
                encode_utf8(z),
            );
        },
        (ValueView::Bool(_), ValueView::Bool(_), ValueView::Bool(_)) => {},
        _ => {
            lemma_number_order(a, b);
            lemma_number_order(b, c);
            lemma_number_order(a, c);
        },
    }
}

/// A number in units of 2 to the power -1074.
spec fn size_of(a: ValueView) -> int {
    match a {
        ValueView::Int(n) => n * pow2(1074),
        ValueView::Float(x) => x.scaled(),
        _ => 0,
    }
}

proof fn lemma_number_order(a: ValueView, b: ValueView)
    requires
        a is Int || a is Float,
        b is Int || b is Float,
    ensures
        value_order(a, b) is Some <==> !(a matches ValueView::Float(x) && x.is_nan()) && !(
        b matches ValueView::Float(y) && y.is_nan()),
        value_order(a, b) is Some ==> value_order(a, b) == Some(
            int_order(size_of(a), size_of(b)),
        ),
{
    vstd::arithmetic::power2::lemma_pow2_pos(1074);
    match (a, b) {
        (ValueView::Int(x), ValueView::Int(y)) => {
            let u = pow2(1074) as int;
            if x < y {
                assert(x * u < y * u) by (nonlinear_arith)
                    requires
                        x < y,
                        u > 0,
                ;
            } else if y < x {
                assert(y * u < x * u) by (nonlinear_arith)
                    requires
                        y < x,
                        u > 0,
                ;
            }
        },
        _ => {},
    }
}

} // verus!
