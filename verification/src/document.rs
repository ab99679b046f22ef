//! The data model: values, and documents as ordered lists of named values.

use crate::float::Float;
use crate::text::same_string;
use vstd::prelude::*;

verus! {

/// A single value in a document.
#[derive(Debug)]
pub enum Value {
    Null,
    Bool(bool),
    Int(i64),
    Float(Float),
    Str(String),
    Array(Vec<Value>),
    Document(Document),
}

/// An ordered collection of fields. The order in which fields were added is
/// kept.
#[derive(Debug)]
pub struct Document {
    fields: Vec<(String, Value)>,
}

/// What a value is.
pub enum ValueView {
    Null,
    Bool(bool),
    Int(i64),
    Float(Float),
    Str(Seq<char>),
    Array(Seq<ValueView>),
    Document(Seq<(Seq<char>, ValueView)>),
}

/// What a document is: its fields in order.
pub type DocumentView = Seq<(Seq<char>, ValueView)>;

impl Value {
    /// What the value is.
    pub closed spec fn view(&self) -> ValueView
        decreases self,
    {
        match self {
            Value::Null => ValueView::Null,
            Value::Bool(b) => ValueView::Bool(*b),
            Value::Int(n) => ValueView::Int(*n),
            Value::Float(f) => ValueView::Float(*f),
            Value::Str(s) => ValueView::Str(s@),
            Value::Array(items) => ValueView::Array(
                Seq::new(
                    items@.len(),
                    |i: int|
                        if 0 <= i < items@.len() {
                            items@[i].view()
                        } else {
                            ValueView::Null
                        },
                ),
            ),
            Value::Document(doc) => ValueView::Document(doc.view()),
        }
    }
}

impl Document {
    /// The fields in order.
    pub closed spec fn view(&self) -> DocumentView
        decreases self,
    {
        Seq::new(
            self.fields@.len(),
            |i: int|
                if 0 <= i < self.fields@.len() {
                    (self.fields@[i].0@, self.fields@[i].1.view())
                } else {
                    (Seq::empty(), ValueView::Null)
                },
        )
    }
}

/// The value of the first field named `key`.
pub open spec fn doc_get(doc: DocumentView, key: Seq<char>) -> Option<ValueView>
    decreases doc.len(),
{
    if doc.len() == 0 {
        None
    } else if doc[0].0 == key {
        Some(doc[0].1)
    } else {
        doc_get(doc.drop_first(), key)
    }
}

/// The document with the first field named `key` set to `value`, or with a
/// new field at the end if there is none.
pub open spec fn doc_insert(doc: DocumentView, key: Seq<char>, value: ValueView) -> DocumentView
    decreases doc.len(),
{
    if doc.len() == 0 {
        seq![(key, value)]
    } else if doc[0].0 == key {
        doc.update(0, (key, value))
    } else {
        seq![doc[0]] + doc_insert(doc.drop_first(), key, value)
    }
}

/// The document without the first field named `key`.
pub open spec fn doc_remove(doc: DocumentView, key: Seq<char>) -> DocumentView
    decreases doc.len(),
{
    if doc.len() == 0 {
        doc
    } else if doc[0].0 == key {
        doc.drop_first()
    } else {
        seq![doc[0]] + doc_remove(doc.drop_first(), key)
    }
}

/// No two fields have the same name.
pub open spec fn distinct(doc: DocumentView) -> bool {
    forall|i: int, j: int|
        0 <= i < j < doc.len() ==> (#[trigger] doc[i]).0 != (#[trigger] doc[j]).0
}

/// In the value and everything inside it, no document has two fields with
/// the same name.
pub open spec fn proper(value: ValueView) -> bool
    decreases value,
{
    match value {
        ValueView::Array(items) => forall|i: int|
            0 <= i < items.len() ==> proper(#[trigger] items[i]),
        ValueView::Document(doc) => {
            &&& distinct(doc)
            &&& forall|i: int| 0 <= i < doc.len() ==> proper((#[trigger] doc[i]).1)
        },
        _ => true,
    }
}

/// Two values are equal: of the same kind, with equal contents in the same
/// order. Floating-point numbers are equal as numbers.
pub open spec fn value_eq(a: ValueView, b: ValueView) -> bool
    decreases a,
{
    match (a, b) {
        (ValueView::Null, ValueView::Null) => true,
        (ValueView::Bool(x), ValueView::Bool(y)) => x == y,
        (ValueView::Int(x), ValueView::Int(y)) => x == y,
        (ValueView::Float(x), ValueView::Float(y)) => x.equals(y),
        (ValueView::Str(x), ValueView::Str(y)) => x == y,
        (ValueView::Array(x), ValueView::Array(y)) => {
            &&& x.len() == y.len()
            &&& forall|i: int| 0 <= i < x.len() ==> value_eq(#[trigger] x[i], y[i])
        },
        (ValueView::Document(x), ValueView::Document(y)) => {
            &&& x.len() == y.len()
            &&& forall|i: int|
                0 <= i < x.len() ==> (#[trigger] x[i]).0 == y[i].0 && value_eq(x[i].1, y[i].1)
        },
        _ => false,
    }
}

/// The fields of a document, as a list.
pub open spec fn fields_view(fields: Seq<(String, Value)>) -> DocumentView {
    Seq::new(fields.len(), |i: int| (fields[i].0@, fields[i].1.view()))
}

/// Several values, as a list.
pub open spec fn values_view(items: Seq<Value>) -> Seq<ValueView> {
    Seq::new(items.len(), |i: int| items[i].view())
}

impl Value {
    /// What each kind of value is.
    pub broadcast proof fn lemma_view(value: Value)
        ensures
            #[trigger] value.view() == (match value {
                Value::Null => ValueView::Null,
                Value::Bool(b) => ValueView::Bool(b),
                Value::Int(n) => ValueView::Int(n),
                Value::Float(f) => ValueView::Float(f),
                Value::Str(s) => ValueView::Str(s@),
                Value::Array(items) => ValueView::Array(values_view(items@)),
                Value::Document(doc) => ValueView::Document(doc.view()),
            }),
    {
        match value {
            Value::Array(items) => {
                assert(value.view()->Array_0 =~= values_view(items@));
            },
            _ => {},
        }
    }
}

/// What is found, set and removed at the first field with a name.
pub proof fn lemma_first_field(doc: DocumentView, key: Seq<char>, i: int, value: ValueView)
    requires
        0 <= i <= doc.len(),
        forall|j: int| 0 <= j < i ==> (#[trigger] doc[j]).0 != key,
        i < doc.len() ==> doc[i].0 == key,
    ensures
        doc_get(doc, key) == if i < doc.len() {
            Some(doc[i].1)
        } else {
            None
        },
        doc_insert(doc, key, value) == if i < doc.len() {
            doc.update(i, (key, value))
        } else {
            doc.push((key, value))
        },
        doc_remove(doc, key) == if i < doc.len() {
            doc.remove(i)
        } else {
            doc
        },
    decreases doc.len(),
{
    if doc.len() == 0 {
        assert(doc_insert(doc, key, value) =~= doc.push((key, value)));
    } else if i == 0 {
        assert(doc.drop_first() =~= doc.remove(0));
    } else {
        let rest = doc.drop_first();
        assert forall|j: int| 0 <= j < i - 1 implies (#[trigger] rest[j]).0 != key by {
            assert(rest[j] == doc[j + 1]);
        }
        assert(doc[0].0 != key);
        lemma_first_field(rest, key, i - 1, value);
        if i < doc.len() {
            assert(seq![doc[0]] + rest.update(i - 1, (key, value)) =~= doc.update(
                i,
                (key, value),
            ));
            assert(seq![doc[0]] + rest.remove(i - 1) =~= doc.remove(i));
        } else {
            assert(seq![doc[0]] + rest.push((key, value)) =~= doc.push((key, value)));
            assert(seq![doc[0]] + rest =~= doc);
        }
    }
}

/// The place of the first field with a name, or the number of fields.
pub open spec fn first_field(doc: DocumentView, key: Seq<char>) -> int
    decreases doc.len(),
{
    if doc.len() == 0 || doc[0].0 == key {
        0
    } else {
        1 + first_field(doc.drop_first(), key)
    }
}

pub proof fn lemma_first_field_place(doc: DocumentView, key: Seq<char>)
    ensures
        0 <= first_field(doc, key) <= doc.len(),
        forall|j: int| 0 <= j < first_field(doc, key) ==> (#[trigger] doc[j]).0 != key,
        first_field(doc, key) < doc.len() ==> doc[first_field(doc, key)].0 == key,
    decreases doc.len(),
{
    if doc.len() > 0 && doc[0].0 != key {
        let rest = doc.drop_first();
        lemma_first_field_place(rest, key);
        assert forall|j: int| 0 <= j < first_field(doc, key) implies (#[trigger] doc[j]).0
            != key by {
            if j > 0 {
                assert(rest[j - 1] == doc[j]);
            }
        }
    }
}

/// After a field was set it has the new value, every other field has the
/// value it had, and fields keep their places: a new one comes last.
pub proof fn law_insert(doc: DocumentView, key: Seq<char>, value: ValueView, other: Seq<char>)
    ensures
        doc_get(doc_insert(doc, key, value), key) == Some(value),
        other != key ==> doc_get(doc_insert(doc, key, value), other) == doc_get(doc, other),
        doc_insert(doc, key, value).len() == doc.len() + if doc_get(doc, key) is None {
            1int
        } else {
            0
        },
        forall|i: int|
            0 <= i < doc.len() ==> (#[trigger] doc_insert(doc, key, value)[i]).0 == doc[i].0,
{
    let new = doc_insert(doc, key, value);
    let i = first_field(doc, key);
    lemma_first_field_place(doc, key);
    lemma_first_field(doc, key, i, value);
    lemma_first_field(new, key, i, value);
    let j = first_field(doc, other);
    lemma_first_field_place(doc, other);
    lemma_first_field(doc, other, j, value);
    if other != key {
        let k = if j == doc.len() {
            new.len() as int
        } else {
            j
        };
        lemma_first_field(new, other, k, value);
    }
}

/// Setting a field to a value without repeated names keeps a document free
/// of them, and so does removing one; a removed field is gone.
pub proof fn law_names_stay_distinct(doc: DocumentView, key: Seq<char>, value: ValueView)
    requires
        proper(ValueView::Document(doc)),
        proper(value),
    ensures
        proper(ValueView::Document(doc_insert(doc, key, value))),
        proper(ValueView::Document(doc_remove(doc, key))),
        doc_get(doc_remove(doc, key), key) is None,
{
    let i = first_field(doc, key);
    lemma_first_field_place(doc, key);
    lemma_first_field(doc, key, i, value);
    let new = doc_insert(doc, key, value);
    let rest = doc_remove(doc, key);
    assert forall|a: int, b: int| 0 <= a < b < new.len() implies (#[trigger] new[a]).0 != (
    #[trigger] new[b]).0 by {
        if b < doc.len() {
            assert(doc[a].0 != doc[b].0);
        }
    }
    assert forall|a: int, b: int| 0 <= a < b < rest.len() implies (#[trigger] rest[a]).0 != (
    #[trigger] rest[b]).0 by {
        let a2 = if a < i {
            a
        } else {
            a + 1
        };
        let b2 = if b < i {
            b
        } else {
            b + 1
        };
        if i < doc.len() {
            assert(doc[a2].0 != doc[b2].0);
        } else {
            assert(doc[a].0 != doc[b].0);
        }
    }
    assert forall|a: int| 0 <= a < new.len() implies proper((#[trigger] new[a]).1) by {
        if a < doc.len() && a != i {
            assert(proper(doc[a].1));
        }
    }
    assert forall|a: int| 0 <= a < rest.len() implies proper((#[trigger] rest[a]).1) by {
        if i < doc.len() && a >= i {
            assert(proper(doc[a + 1].1));
        } else {
            assert(proper(doc[a].1));
        }
    }
    assert forall|a: int| 0 <= a < rest.len() implies (#[trigger] rest[a]).0 != key by {
        if i < doc.len() && a >= i {
            assert(doc[i].0 != doc[a + 1].0);
        }
    }
    lemma_first_field(rest, key, rest.len() as int, value);
}

impl Document {
    /// A document without fields.
    pub fn new() -> (doc: Self)
        ensures
            doc.view() == Seq::<(Seq<char>, ValueView)>::empty(),
    {
        let doc = Document { fields: Vec::new() };
        assert(doc.view() =~= Seq::empty());
        doc
    }

    /// The place of the first field named `key`, or the number of fields.
    fn position(&self, key: &str) -> (i: usize)
        ensures
            i <= self.fields@.len(),
            self.view().len() == self.fields@.len(),
            forall|j: int| 0 <= j < i ==> (#[trigger] self.view()[j]).0 != key@,
            i < self.view().len() ==> self.view()[i as int].0 == key@,
    {
        let mut i: usize = 0;
        while i < self.fields.len()
            invariant
                i <= self.fields@.len(),
                forall|j: int| 0 <= j < i ==> (#[trigger] self.view()[j]).0 != key@,
            decreases self.fields@.len() - i,
        {
            assert(self.view()[i as int].0 == self.fields@[i as int].0@);
            if same_string(self.fields[i].0.as_str(), key) {
                return i;
            }
            i += 1;
        }
        i
    }

    /// Sets the field named `key`, or adds it at the end. Returns the value
    /// that it had before.
    pub fn put(&mut self, key: String, value: Value) -> (previous: Option<Value>)
        ensures
            final(self).view() == doc_insert(old(self).view(), key@, value.view()),
            match previous {
                Some(before) => doc_get(old(self).view(), key@) == Some(before.view()),
                None => doc_get(old(self).view(), key@) is None,
            },
    {
        let i: usize = self.position(key.as_str());
        let ghost doc = self.view();
        proof {
            lemma_first_field(doc, key@, i as int, value.view());
        }
        if i < self.fields.len() {
            let (name, before) = self.fields.remove(i);
            self.fields.insert(i, (name, value));
            assert(doc[i as int] == (name@, before.view()));
            assert(self.view() =~= doc.update(i as int, (key@, value.view())));
            Some(before)
        } else {
            self.fields.push((key, value));
            assert(self.view() =~= doc.push((key@, value.view())));
            None
        }
    }

    /// Sets the field named `key`, or adds it at the end. Returns the value
    /// that it had before. Takes whatever converts into a name and a value.
    pub fn insert<K: Into<String>, V: Into<Value>>(&mut self, key: K, value: V) -> (previous:
        Option<Value>)
        ensures
            exists|name: String, new: Value|
                {
                    &&& #[trigger] call_ensures(K::into, (key,), name)
                    &&& #[trigger] call_ensures(V::into, (value,), new)
                    &&& final(self).view() == doc_insert(old(self).view(), name@, new.view())
                    &&& match previous {
                        Some(before) => doc_get(old(self).view(), name@) == Some(before.view()),
                        None => doc_get(old(self).view(), name@) is None,
                    }
                },
    {
        let name: String = key.into();
        let new: Value = value.into();
        self.put(name, new)
    }

    /// The value of the field named `key`.
    pub fn get(&self, key: &str) -> (value: Option<&Value>)
        ensures
            match value {
                Some(found) => doc_get(self.view(), key@) == Some(found.view()),
                None => doc_get(self.view(), key@) is None,
            },
    {
        let i: usize = self.position(key);
        proof {
            lemma_first_field(self.view(), key@, i as int, ValueView::Null);
        }
        if i < self.fields.len() {
            Some(&self.fields[i].1)
        } else {
            None
        }
    }

    /// Removes the field named `key` and returns its value.
    pub fn remove(&mut self, key: &str) -> (value: Option<Value>)
        ensures
            final(self).view() == doc_remove(old(self).view(), key@),
            match value {
                Some(found) => doc_get(old(self).view(), key@) == Some(found.view()),
                None => doc_get(old(self).view(), key@) is None,
            },
    {
        let i: usize = self.position(key);
        let ghost doc = self.view();
        proof {
            lemma_first_field(doc, key@, i as int, ValueView::Null);
        }
        if i < self.fields.len() {
            let (name, found) = self.fields.remove(i);
            assert(doc[i as int] == (name@, found.view()));
            assert(self.view() =~= doc.remove(i as int));
            Some(found)
        } else {
            None
        }
    }

    /// The fields in order.
    pub fn iter(&self) -> (fields: &[(String, Value)])
        ensures
            fields_view(fields@) == self.view(),
            decreases_to!(self => fields@),
    {
        assert(fields_view(self.fields@) =~= self.view());
        self.fields.as_slice()
    }

    /// The number of fields.
    pub fn len(&self) -> (len: usize)
        ensures
            len == self.view().len(),
    {
        self.fields.len()
    }

    /// Whether there are no fields.
    pub fn is_empty(&self) -> (empty: bool)
        ensures
            empty == (self.view().len() == 0),
    {
        self.fields.len() == 0
    }
}

impl Default for Document {
    fn default() -> (doc: Self)
        ensures
            doc.view() == Seq::<(Seq<char>, ValueView)>::empty(),
    {
        Document::new()
    }
}

impl From<&str> for Value {
    fn from(s: &str) -> (value: Self)
        ensures
            value.view() == ValueView::Str(s@),
    {
        Value::Str(s.to_owned())
    }
}

impl vstd::std_specs::convert::FromSpecImpl<&str> for Value {
    open spec fn obeys_from_spec() -> bool {
        false
    }

    open spec fn from_spec(s: &str) -> Self {
        Value::Null
    }
}

impl From<String> for Value {
    fn from(s: String) -> (value: Self)
        ensures
            value.view() == ValueView::Str(s@),
    {
        Value::Str(s)
    }
}

impl vstd::std_specs::convert::FromSpecImpl<String> for Value {
    open spec fn obeys_from_spec() -> bool {
        true
    }

    open spec fn from_spec(s: String) -> Self {
        Value::Str(s)
    }
}

impl From<i64> for Value {
    fn from(n: i64) -> (value: Self)
        ensures
            value.view() == ValueView::Int(n),
    {
        Value::Int(n)
    }
}

impl vstd::std_specs::convert::FromSpecImpl<i64> for Value {
    open spec fn obeys_from_spec() -> bool {
        true
    }

    open spec fn from_spec(n: i64) -> Self {
        Value::Int(n)
    }
}

impl From<i32> for Value {
    fn from(n: i32) -> (value: Self)
        ensures
            value.view() == ValueView::Int(n as i64),
    {
        Value::Int(n as i64)
    }
}

impl vstd::std_specs::convert::FromSpecImpl<i32> for Value {
    open spec fn obeys_from_spec() -> bool {
        true
    }

    open spec fn from_spec(n: i32) -> Self {
        Value::Int(n as i64)
    }
}

impl From<Float> for Value {
    fn from(f: Float) -> (value: Self)
        ensures
            value.view() == ValueView::Float(f),
    {
        Value::Float(f)
    }
}

impl vstd::std_specs::convert::FromSpecImpl<Float> for Value {
    open spec fn obeys_from_spec() -> bool {
        true
    }

    open spec fn from_spec(f: Float) -> Self {
        Value::Float(f)
    }
}

impl From<bool> for Value {
    fn from(b: bool) -> (value: Self)
        ensures
            value.view() == ValueView::Bool(b),
    {
        Value::Bool(b)
    }
}

impl vstd::std_specs::convert::FromSpecImpl<bool> for Value {
    open spec fn obeys_from_spec() -> bool {
        true
    }

    open spec fn from_spec(b: bool) -> Self {
        Value::Bool(b)
    }
}

impl From<Vec<Value>> for Value {
    fn from(items: Vec<Value>) -> (value: Self)
        ensures
            value.view() == ValueView::Array(values_view(items@)),
    {
        broadcast use Value::lemma_view;

        Value::Array(items)
    }
}

impl vstd::std_specs::convert::FromSpecImpl<Vec<Value>> for Value {
    open spec fn obeys_from_spec() -> bool {
        true
    }

    open spec fn from_spec(items: Vec<Value>) -> Self {
        Value::Array(items)
    }
}

impl From<Document> for Value {
    fn from(doc: Document) -> (value: Self)
        ensures
            value.view() == ValueView::Document(doc.view()),
    {
        Value::Document(doc)
    }
}

impl vstd::std_specs::convert::FromSpecImpl<Document> for Value {
    open spec fn obeys_from_spec() -> bool {
        true
    }

    open spec fn from_spec(doc: Document) -> Self {
        Value::Document(doc)
    }
}

/// A copy of a value.
fn copy_value(value: &Value) -> (copy: Value)
    ensures
        copy.view() == value.view(),
    decreases value,
{
    broadcast use Value::lemma_view;

    match value {
        Value::Null => Value::Null,
        Value::Bool(b) => Value::Bool(*b),
        Value::Int(n) => Value::Int(*n),
        Value::Float(f) => Value::Float(*f),
        Value::Str(s) => Value::Str(s.clone()),
        Value::Array(items) => {
            let mut copies: Vec<Value> = Vec::new();
            let mut i: usize = 0;
            while i < items.len()
                invariant
                    i <= items@.len(),
                    copies@.len() == i,
                    forall|j: int|
                        0 <= j < i ==> (#[trigger] copies@[j]).view() == items@[j].view(),
                    decreases_to!(value => items),
                decreases items@.len() - i,
            {
                let copy = copy_value(&items[i]);
                copies.push(copy);
                i += 1;
            }
            assert(values_view(copies@) =~= values_view(items@));
            Value::Array(copies)
        },
        Value::Document(doc) => Value::Document(copy_document(doc)),
    }
}

/// A copy of a document.
fn copy_document(doc: &Document) -> (copy: Document)
    ensures
        copy.view() == doc.view(),
    decreases doc,
{
    let mut fields: Vec<(String, Value)> = Vec::new();
    let mut i: usize = 0;
    while i < doc.fields.len()
        invariant
            i <= doc.fields@.len(),
            fields@.len() == i,
            forall|j: int|
                0 <= j < i ==> (#[trigger] fields@[j]).0@ == doc.fields@[j].0@
                    && fields@[j].1.view() == doc.fields@[j].1.view(),
        decreases doc.fields@.len() - i,
    {
        let copy = copy_value(&doc.fields[i].1);
        fields.push((doc.fields[i].0.clone(), copy));
        i += 1;
    }
    let copy = Document { fields };
    assert(copy.view() =~= doc.view());
    copy
}

impl Clone for Value {
    fn clone(&self) -> (copy: Self)
        ensures
            copy.view() == self.view(),
    {
        copy_value(self)
    }
}

impl Clone for Document {
    fn clone(&self) -> (copy: Self)
        ensures
            copy.view() == self.view(),
    {
        copy_document(self)
    }
}

/// Whether two values are equal.
fn same_value(a: &Value, b: &Value) -> (same: bool)
    ensures
        same == value_eq(a.view(), b.view()),
    decreases a,
{
    broadcast use Value::lemma_view;

    match (a, b) {
        (Value::Null, Value::Null) => true,
        (Value::Bool(x), Value::Bool(y)) => *x == *y,
        (Value::Int(x), Value::Int(y)) => *x == *y,
        (Value::Float(x), Value::Float(y)) => *x == *y,
        (Value::Str(x), Value::Str(y)) => same_string(x.as_str(), y.as_str()),
        (Value::Array(x), Value::Array(y)) => {
            if x.len() != y.len() {
                return false;
            }
            let ghost xs = values_view(x@);
            let ghost ys = values_view(y@);
            let mut i: usize = 0;
            while i < x.len()
                invariant
                    i <= x@.len(),
                    x@.len() == y@.len(),
                    xs == values_view(x@),
                    ys == values_view(y@),
                    a.view() == ValueView::Array(xs),
                    b.view() == ValueView::Array(ys),
                    forall|j: int| 0 <= j < i ==> value_eq(#[trigger] xs[j], ys[j]),
                    decreases_to!(a => x),
                decreases x@.len() - i,
            {
                if !same_value(&x[i], &y[i]) {
                    assert(!value_eq(xs[i as int], ys[i as int]));
                    return false;
                }
                i += 1;
            }
            true
        },
        (Value::Document(x), Value::Document(y)) => same_document(x, y),
        _ => false,
    }
}

/// Whether two documents are equal.
fn same_document(a: &Document, b: &Document) -> (same: bool)
    ensures
        same == value_eq(ValueView::Document(a.view()), ValueView::Document(b.view())),
    decreases a,
{
    if a.fields.len() != b.fields.len() {
        return false;
    }
    let ghost xs = a.view();
    let ghost ys = b.view();
    let mut i: usize = 0;
    while i < a.fields.len()
        invariant
            i <= a.fields@.len(),
            a.fields@.len() == b.fields@.len(),
            xs == a.view(),
            ys == b.view(),
            forall|j: int|
                0 <= j < i ==> (#[trigger] xs[j]).0 == ys[j].0 && value_eq(xs[j].1, ys[j].1),
        decreases a.fields@.len() - i,
    {
        assert(xs[i as int] == (a.fields@[i as int].0@, a.fields@[i as int].1.view()));
        assert(ys[i as int] == (b.fields@[i as int].0@, b.fields@[i as int].1.view()));
        if !same_string(a.fields[i].0.as_str(), b.fields[i].0.as_str()) {
            return false;
        }
        if !same_value(&a.fields[i].1, &b.fields[i].1) {
            return false;
        }
        i += 1;
    }
    true
}

impl PartialEq for Value {
    fn eq(&self, other: &Value) -> (same: bool) {
        same_value(self, other)
    }
}

impl vstd::std_specs::cmp::PartialEqSpecImpl for Value {
    open spec fn obeys_eq_spec() -> bool {
        true
    }

    open spec fn eq_spec(&self, other: &Value) -> bool {
        value_eq(self.view(), other.view())
    }
}

impl PartialEq for Document {
    fn eq(&self, other: &Document) -> (same: bool) {
        same_document(self, other)
    }
}

impl vstd::std_specs::cmp::PartialEqSpecImpl for Document {
    open spec fn obeys_eq_spec() -> bool {
        true
    }

    open spec fn eq_spec(&self, other: &Document) -> bool {
        value_eq(ValueView::Document(self.view()), ValueView::Document(other.view()))
    }
}

/// Specifies `String::from` on a string slice: the string has the same
/// characters.
pub assume_specification<'a>[ <String as From<&'a str>>::from ](s: &str) -> (res: String)
    ensures
        res@ == s@,
;

/// Specifies the conversion of a type into itself: the value is handed back
/// unchanged.
pub assume_specification<T>[ <T as From<T>>::from ](t: T) -> (res: T)
    ensures
        res == t,
;

/// A document has a field of a name exactly if one of its fields bears the
/// name, and its value is that of the first one.
pub proof fn law_get(doc: DocumentView, key: Seq<char>)
    ensures
        doc_get(doc, key) is Some <==> exists|i: int|
            0 <= i < doc.len() && (#[trigger] doc[i]).0 == key,
        forall|i: int|
            0 <= i < doc.len() && (#[trigger] doc[i]).0 == key && (forall|j: int|
                0 <= j < i ==> (#[trigger] doc[j]).0 != key) ==> doc_get(doc, key) == Some(
                doc[i].1,
            ),
{
    let k = first_field(doc, key);
    lemma_first_field_place(doc, key);
    lemma_first_field(doc, key, k, ValueView::Null);
    assert forall|i: int|
        0 <= i < doc.len() && (#[trigger] doc[i]).0 == key && (forall|j: int|
            0 <= j < i ==> (#[trigger] doc[j]).0 != key) implies doc_get(doc, key) == Some(
        doc[i].1,
    ) by {
        if k < i {
            assert(doc[k].0 != key);
        }
    }
}

/// Setting a field changes the first one of its name where it stands, or adds
/// it behind all others. Removing a field takes out the first one of its name.
/// Nothing else changes.
pub proof fn law_field_is_set_in_place(
    doc: DocumentView,
    key: Seq<char>,
    value: ValueView,
    i: int,
)
    requires
        0 <= i <= doc.len(),
        forall|j: int| 0 <= j < i ==> (#[trigger] doc[j]).0 != key,
        i < doc.len() ==> doc[i].0 == key,
    ensures
        i < doc.len() ==> doc_insert(doc, key, value) == doc.update(i, (key, value)),
        i == doc.len() ==> doc_insert(doc, key, value) == doc.push((key, value)),
        i < doc.len() ==> doc_remove(doc, key) == doc.remove(i),
        i == doc.len() ==> doc_remove(doc, key) == doc,
{
    lemma_first_field(doc, key, i, value);
}

/// There is no floating-point number in the value.
pub open spec fn without_floats(value: ValueView) -> bool
    decreases value,
{
    match value {
        ValueView::Float(_) => false,
        ValueView::Array(items) => forall|i: int|
            0 <= i < items.len() ==> without_floats(#[trigger] items[i]),
        ValueView::Document(doc) => forall|i: int|
            0 <= i < doc.len() ==> without_floats((#[trigger] doc[i]).1),
        _ => true,
    }
}

/// Values without floating-point numbers are equal exactly if they are the
/// same. Of floating-point numbers, those are equal that compare as equal.
pub proof fn law_equal_values_are_the_same(a: ValueView, b: ValueView)
    ensures
        without_floats(a) ==> (value_eq(a, b) <==> a == b),
        forall|x: Float, y: Float|
            a == ValueView::Float(x) && b == ValueView::Float(y) ==> (value_eq(a, b)
                <==> #[trigger] x.order(y) == Some(crate::text::Order::Equal)),
    decreases a,
{
    match (a, b) {
        (ValueView::Array(x), ValueView::Array(y)) => {
            if without_floats(a) && x.len() == y.len() {
                assert forall|i: int| 0 <= i < x.len() implies (value_eq(#[trigger] x[i], y[i])
                    <==> x[i] == y[i]) by {
                    assert(without_floats(x[i]));
                    law_equal_values_are_the_same(x[i], y[i]);
                }
                if value_eq(a, b) {
                    assert(x =~= y);
                }
            }
        },
        (ValueView::Document(x), ValueView::Document(y)) => {
            if without_floats(a) && x.len() == y.len() {
                assert forall|i: int| 0 <= i < x.len() implies (value_eq(
                    (#[trigger] x[i]).1,
                    y[i].1,
                ) <==> x[i].1 == y[i].1) by {
                    assert(without_floats(x[i].1));
                    law_equal_values_are_the_same(x[i].1, y[i].1);
                }
                if value_eq(a, b) {
                    assert forall|i: int| 0 <= i < x.len() implies x[i] == y[i] by {
                        assert(x[i].0 == y[i].0 && value_eq(x[i].1, y[i].1));
                    }
                    assert(x =~= y);
                }
            }
        },
        _ => {},
    }
}

/// Equality goes through lists and documents place by place.
pub proof fn law_equality_of_contents(a: Seq<ValueView>, b: Seq<ValueView>, x: DocumentView, y: DocumentView)
    ensures
        value_eq(ValueView::Array(a), ValueView::Array(b)) <==> a.len() == b.len() && forall|i: int|
            0 <= i < a.len() ==> value_eq(#[trigger] a[i], b[i]),
        value_eq(ValueView::Document(x), ValueView::Document(y)) <==> x.len() == y.len()
            && forall|i: int|
            0 <= i < x.len() ==> (#[trigger] x[i]).0 == y[i].0 && value_eq(x[i].1, y[i].1),
{
}

/// Lists of values and of fields are what each of their members is, place by
/// place, and a value is what it holds.
pub proof fn law_contents(
    value: Value,
    items: Seq<Value>,
    fields: Seq<(String, Value)>,
    i: int,
)
    ensures
        values_view(items).len() == items.len(),
        0 <= i < items.len() ==> values_view(items)[i] == items[i].view(),
        fields_view(fields).len() == fields.len(),
        0 <= i < fields.len() ==> fields_view(fields)[i] == (fields[i].0@, fields[i].1.view()),
        value matches Value::Null ==> value.view() == ValueView::Null,
        value matches Value::Bool(b) ==> value.view() == ValueView::Bool(b),
        value matches Value::Int(n) ==> value.view() == ValueView::Int(n),
        value matches Value::Float(f) ==> value.view() == ValueView::Float(f),
        value matches Value::Str(s) ==> value.view() == ValueView::Str(s@),
        value matches Value::Array(v) ==> value.view() == ValueView::Array(values_view(v@)),
        value matches Value::Document(doc) ==> value.view() == ValueView::Document(doc.view()),
{
    Value::lemma_view(value);
}

} // verus!
