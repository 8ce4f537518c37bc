//! Values by what they hold, and copies and changes of documents stated over
//! that.

use vstd::prelude::*;

use crate::bytes::copy_bytes;
use crate::sorted_map::ascending;
use crate::sorted_map::holds_key;
use crate::sorted_map::lemma_entry_at;
use crate::sorted_map::place_of;
use crate::sorted_map::SortKey;
use crate::sorted_map::SortedMap;
use crate::text::pieces;
use crate::text::split;
use crate::text::views;
use crate::value::Document;
use crate::value::Value;

verus! {

/// What a value holds. Two values that hold the same are one value to every
/// reader.
pub enum ValueView {
    Null,
    Bool(bool),
    Int(i64),
    Float(u64),
    Decimal(Seq<char>),
    String(Seq<char>),
    Bytes(Seq<u8>),
    Uuid(Seq<u8>),
    Timestamp(i64),
    Array(Seq<ValueView>),
    Document(Map<Seq<char>, ValueView>),
}

/// What a document holds, by field.
pub type Fields = Map<Seq<char>, ValueView>;

/// What a value holds.
pub open spec fn value_view(v: Value) -> ValueView
    decreases v,
{
    match v {
        Value::Null => ValueView::Null,
        Value::Bool(b) => ValueView::Bool(b),
        Value::Int(n) => ValueView::Int(n),
        Value::Float(bits) => ValueView::Float(bits),
        Value::Decimal(s) => ValueView::Decimal(s@),
        Value::String(s) => ValueView::String(s@),
        Value::Bytes(b) => ValueView::Bytes(b@),
        Value::Uuid(b) => ValueView::Uuid(b@),
        Value::Timestamp(n) => ValueView::Timestamp(n),
        Value::Array(items) => ValueView::Array(
            Seq::new(
                items@.len(),
                |i: int|
                    if 0 <= i < items@.len() {
                        value_view(items@[i])
                    } else {
                        ValueView::Null
                    },
            ),
        ),
        Value::Document(d) => ValueView::Document(fields_view(d.fields.entries@)),
    }
}

/// What a run of fields holds.
pub open spec fn fields_view(es: Seq<(String, Value)>) -> Fields
    decreases es,
{
    Map::new(
        |k: Seq<char>| holds_key(es, k),
        |k: Seq<char>|
            {
                let i = place_of(es, k);
                if 0 <= i < es.len() {
                    value_view(es[i].1)
                } else {
                    ValueView::Null
                }
            },
    )
}

/// What a document holds.
pub open spec fn doc_view(d: Document) -> Fields {
    fields_view(d.fields.entries@)
}

/// Whether the fields of a value's documents are in order, all the way down.
pub open spec fn value_wf(v: Value) -> bool
    decreases v,
{
    match v {
        Value::Array(items) => forall|i: int|
            0 <= i < items@.len() ==> value_wf(#[trigger] items@[i]),
        Value::Document(d) => fields_wf(d.fields.entries@),
        _ => true,
    }
}

/// Whether a run of fields is in order, all the way down.
pub open spec fn fields_wf(es: Seq<(String, Value)>) -> bool
    decreases es,
{
    ascending(es) && forall|i: int| 0 <= i < es.len() ==> value_wf((#[trigger] es[i]).1)
}

/// Whether a document's fields are in order, all the way down.
pub open spec fn doc_wf(d: Document) -> bool {
    fields_wf(d.fields.entries@)
}

/// A document holds what its field map holds.
pub proof fn lemma_doc_view(d: Document)
    ensures
        doc_view(d) == d.fields@.map_values(|v: Value| value_view(v)),
{
    let es = d.fields.entries@;
    assert forall|k: Seq<char>| holds_key(es, k) implies 0 <= #[trigger] place_of(es, k) < es.len() by {
    }
    assert(doc_view(d) =~= d.fields@.map_values(|v: Value| value_view(v)));
}

/// A document's fields that are in order are so one by one.
pub proof fn lemma_field_wf(d: Document, k: Seq<char>)
    requires
        doc_wf(d),
        d.fields@.dom().contains(k),
    ensures
        value_wf(d.fields@[k]),
{
    let es = d.fields.entries@;
    let p = place_of(es, k);
    assert(0 <= p < es.len());
    assert(value_wf(es[p].1));
}

/// A copy of a value.
pub fn copy_value(v: &Value) -> (r: Value)
    requires
        value_wf(*v),
    ensures
        value_view(r) == value_view(*v),
        value_wf(r),
    decreases *v,
{
    match v {
        Value::Null => Value::Null,
        Value::Bool(b) => Value::Bool(*b),
        Value::Int(n) => Value::Int(*n),
        Value::Float(bits) => Value::Float(*bits),
        Value::Decimal(s) => Value::Decimal(s.clone()),
        Value::String(s) => Value::String(s.clone()),
        Value::Bytes(b) => Value::Bytes(copy_bytes(b.as_slice())),
        Value::Uuid(b) => Value::Uuid(copy_bytes(b.as_slice())),
        Value::Timestamp(n) => Value::Timestamp(*n),
        Value::Array(items) => {
            let out = copy_items(items);
            let r = Value::Array(out);
            proof {
                assert(value_view(r)->Array_0 =~= value_view(*v)->Array_0);
            }
            r
        },
        Value::Document(d) => {
            let out = copy_fields(&d.fields.entries);
            Value::Document(Document { fields: SortedMap { entries: out } })
        },
    }
}

fn copy_items(items: &Vec<Value>) -> (r: Vec<Value>)
    requires
        forall|i: int| 0 <= i < items@.len() ==> value_wf(#[trigger] items@[i]),
    ensures
        r@.len() == items@.len(),
        forall|i: int|
            0 <= i < items@.len() ==> value_view(#[trigger] r@[i]) == value_view(items@[i])
                && value_wf(r@[i]),
    decreases items@,
{
    let mut out: Vec<Value> = Vec::new();
    let mut i: usize = 0;
    while i < items.len()
        invariant
            forall|i: int| 0 <= i < items@.len() ==> value_wf(#[trigger] items@[i]),
            i <= items@.len(),
            out@.len() == i,
            forall|k: int|
                0 <= k < i ==> value_view(#[trigger] out@[k]) == value_view(items@[k]) && value_wf(
                    out@[k],
                ),
        decreases items@.len() - i,
    {
        proof {
            assert(decreases_to!(items@ => items@[i as int]));
        }
        out.push(copy_value(&items[i]));
        i = i + 1;
    }
    out
}

fn copy_fields(es: &Vec<(String, Value)>) -> (r: Vec<(String, Value)>)
    requires
        fields_wf(es@),
    ensures
        fields_wf(r@),
        fields_view(r@) == fields_view(es@),
    decreases es@,
{
    let mut out: Vec<(String, Value)> = Vec::new();
    let mut i: usize = 0;
    while i < es.len()
        invariant
            fields_wf(es@),
            i <= es@.len(),
            out@.len() == i,
            forall|k: int|
                0 <= k < i ==> (#[trigger] out@[k]).0@ == es@[k].0@ && value_view(out@[k].1)
                    == value_view(es@[k].1) && value_wf(out@[k].1),
        decreases es@.len() - i,
    {
        proof {
            assert(value_wf(es@[i as int].1));
            assert(decreases_to!(es@ => es@[i as int]));
            assert(decreases_to!(es@[i as int] => es@[i as int].1));
        }
        let name = es[i].0.clone();
        let value = copy_value(&es[i].1);
        out.push((name, value));
        i = i + 1;
    }
    proof {
        lemma_same_fields(out@, es@);
    }
    out
}

/// Fields with the same names that hold the same stand for the same document.
proof fn lemma_same_fields(a: Seq<(String, Value)>, b: Seq<(String, Value)>)
    requires
        a.len() == b.len(),
        fields_wf(b),
        forall|k: int|
            0 <= k < a.len() ==> (#[trigger] a[k]).0@ == b[k].0@ && value_view(a[k].1) == value_view(
                b[k].1,
            ) && value_wf(a[k].1),
    ensures
        fields_wf(a),
        fields_view(a) == fields_view(b),
{
    assert(ascending(a)) by {
        assert forall|i: int, j: int| 0 <= i < j < a.len() implies crate::text::seq_lt(
            (#[trigger] a[i]).0@,
            (#[trigger] a[j]).0@,
        ) by {
            assert(a[i].0@ == b[i].0@);
            assert(a[j].0@ == b[j].0@);
            assert(<String as SortKey>::below(b[i].0.model(), b[j].0.model()));
        }
    }
    assert forall|k: Seq<char>| holds_key(a, k) <==> holds_key(b, k) by {
        if holds_key(a, k) {
            assert(b[place_of(a, k)].0@ == k);
        }
        if holds_key(b, k) {
            assert(a[place_of(b, k)].0@ == k);
        }
    }
    assert forall|k: Seq<char>| #[trigger] holds_key(a, k) implies fields_view(a)[k] == fields_view(b)[k] by {
        let p = place_of(b, k);
        assert(holds_key(b, k));
        assert(a[p].0@ == k);
        lemma_entry_at(a, p);
    }
    assert(fields_view(a) =~= fields_view(b));
}

/// A copy of a document.
pub fn copy_document(d: &Document) -> (r: Document)
    requires
        doc_wf(*d),
    ensures
        doc_view(r) == doc_view(*d),
        doc_wf(r),
{
    Document { fields: SortedMap { entries: copy_fields(&d.fields.entries) } }
}

impl Document {
    /// The document without fields.
    pub fn new() -> (r: Document)
        ensures
            doc_wf(r),
            doc_view(r) == Map::<Seq<char>, ValueView>::empty(),
    {
        let r = Document { fields: SortedMap { entries: Vec::new() } };
        proof {
            assert(doc_view(r) =~= Map::<Seq<char>, ValueView>::empty());
        }
        r
    }

    /// Sets a field.
    pub fn put_field(&mut self, name: String, value: Value)
        requires
            doc_wf(*old(self)),
            value_wf(value),
        ensures
            doc_wf(*final(self)),
            doc_view(*final(self)) == doc_view(*old(self)).insert(name@, value_view(value)),
    {
        let ghost before = *self;
        self.fields.insert(name, value);
        proof {
            lemma_doc_view(before);
            lemma_doc_view(*self);
            assert(doc_view(*self) =~= doc_view(before).insert(name@, value_view(value)));
            let es = self.fields.entries@;
            assert forall|i: int| 0 <= i < es.len() implies value_wf((#[trigger] es[i]).1) by {
                lemma_entry_at(es, i);
                let k = es[i].0@;
                if k != name@ {
                    lemma_field_wf(before, k);
                }
            }
        }
    }

    /// The value of a field.
    pub fn field(&self, name: &str) -> (r: Option<&Value>)
        requires
            doc_wf(*self),
        ensures
            r is Some <==> doc_view(*self).dom().contains(name@),
            r matches Some(v) ==> value_view(*v) == doc_view(*self)[name@] && value_wf(*v),
    {
        proof {
            lemma_doc_view(*self);
        }
        let r = self.fields.get(&name.to_owned());
        proof {
            if r is Some {
                lemma_field_wf(*self, name@);
            }
        }
        r
    }

    /// Takes a field out.
    pub fn take_field(&mut self, name: &str) -> (r: Option<Value>)
        requires
            doc_wf(*old(self)),
        ensures
            doc_wf(*final(self)),
            r is Some <==> doc_view(*old(self)).dom().contains(name@),
            r matches Some(v) ==> value_view(v) == doc_view(*old(self))[name@] && value_wf(v),
            doc_view(*final(self)) == doc_view(*old(self)).remove(name@),
    {
        let ghost before = *self;
        let r = self.fields.remove(&name.to_owned());
        proof {
            lemma_doc_view(before);
            lemma_doc_view(*self);
            assert(doc_view(*self) =~= doc_view(before).remove(name@));
            if r is Some {
                lemma_field_wf(before, name@);
            }
            let es = self.fields.entries@;
            assert forall|i: int| 0 <= i < es.len() implies value_wf((#[trigger] es[i]).1) by {
                lemma_entry_at(es, i);
                lemma_field_wf(before, es[i].0@);
            }
        }
        r
    }
}

/// A document with the value at a path set: each step but the last goes into a
/// document, which is put there where there is none.
pub open spec fn with_path(m: Fields, parts: Seq<Seq<char>>, v: ValueView) -> Fields
    decreases parts.len(),
{
    if parts.len() <= 1 {
        m.insert(parts[0], v)
    } else {
        let child = if m.dom().contains(parts[0]) {
            match m[parts[0]] {
                ValueView::Document(c) => c,
                _ => Map::empty(),
            }
        } else {
            Map::empty()
        };
        m.insert(parts[0], ValueView::Document(with_path(child, parts.skip(1), v)))
    }
}

fn set_path_parts(doc: &mut Document, parts: &Vec<String>, at: usize, val: Value)
    requires
        doc_wf(*old(doc)),
        value_wf(val),
        at < parts@.len(),
    ensures
        doc_wf(*final(doc)),
        doc_view(*final(doc)) == with_path(
            doc_view(*old(doc)),
            views(parts@).skip(at as int),
            value_view(val),
        ),
    decreases parts@.len() - at,
{
    let ghost rest = views(parts@).skip(at as int);
    proof {
        assert(views(parts@).len() == parts@.len());
        assert(rest[0] == parts@[at as int]@);
    }
    if at == parts.len() - 1 {
        doc.put_field(parts[at].clone(), val);
        return;
    }
    let mut child = match doc.take_field(parts[at].as_str()) {
        Some(Value::Document(d)) => d,
        _ => Document::new(),
    };
    proof {
        assert(rest.skip(1) =~= views(parts@).skip(at + 1));
    }
    set_path_parts(&mut child, parts, at + 1, val);
    doc.put_field(parts[at].clone(), Value::Document(child));
    proof {
        assert(doc_view(*doc) =~= with_path(doc_view(*old(doc)), rest, value_view(val)));
    }
}

/// Sets the value at a dotted path, putting in documents on the way.
pub fn set_path(doc: &mut Document, path: &str, val: Value)
    requires
        doc_wf(*old(doc)),
        value_wf(val),
    ensures
        doc_wf(*final(doc)),
        doc_view(*final(doc)) == with_path(
            doc_view(*old(doc)),
            pieces(path@, '.'),
            value_view(val),
        ),
{
    let parts = split(path, '.');
    proof {
        assert(pieces(path@, '.').len() > 0);
        assert(views(parts@).len() == parts@.len());
        assert(views(parts@).skip(0) =~= views(parts@));
    }
    set_path_parts(doc, &parts, 0, val);
}

/// What is at a path of a document.
pub open spec fn at_path(m: Fields, parts: Seq<Seq<char>>) -> Option<ValueView>
    decreases parts.len(),
{
    if parts.len() == 0 || !m.dom().contains(parts[0]) {
        None
    } else if parts.len() == 1 {
        Some(m[parts[0]])
    } else {
        match m[parts[0]] {
            ValueView::Document(c) => at_path(c, parts.skip(1)),
            _ => None,
        }
    }
}

/// What was set at a path is read there.
pub proof fn set_path_is_read_back(m: Fields, parts: Seq<Seq<char>>, v: ValueView)
    requires
        parts.len() > 0,
    ensures
        at_path(with_path(m, parts, v), parts) == Some(v),
    decreases parts.len(),
{
    if parts.len() > 1 {
        let child = if m.dom().contains(parts[0]) {
            match m[parts[0]] {
                ValueView::Document(c) => c,
                _ => Map::empty(),
            }
        } else {
            Map::empty()
        };
        set_path_is_read_back(child, parts.skip(1), v);
    }
}

/// Setting a path leaves every field of other names as it was.
pub proof fn set_path_touches_one_field(m: Fields, parts: Seq<Seq<char>>, v: ValueView, other: Seq<char>)
    requires
        parts.len() > 0,
        other != parts[0],
    ensures
        with_path(m, parts, v).dom().contains(other) <==> m.dom().contains(other),
        m.dom().contains(other) ==> with_path(m, parts, v)[other] == m[other],
{
}

} // verus!
