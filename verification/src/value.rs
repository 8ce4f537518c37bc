//! Document values as the planner and the executor read them.

use vstd::prelude::*;

use crate::sorted_map::SortedMap;

verus! {

/// A value. A float is held by its IEEE-754 bits and a decimal by its
/// canonical text: nothing here computes with either.
pub enum Value {
    Null,
    Bool(bool),
    Int(i64),
    Float(u64),
    Decimal(String),
    String(String),
    Bytes(Vec<u8>),
    Uuid(Vec<u8>),
    Timestamp(i64),
    Array(Vec<Value>),
    Document(Document),
}

/// A document: its fields by name.
pub struct Document {
    pub fields: SortedMap<String, Value>,
}

impl Value {
    /// Whether this is `NULL`.
    pub fn is_null(&self) -> (r: bool)
        ensures
            r == (*self is Null),
    {
        match self {
            Value::Null => true,
            _ => false,
        }
    }
}

/// The lowercase type tag of a value.
pub open spec fn type_label(v: Value) -> Seq<char> {
    match v {
        Value::Null => "null"@,
        Value::Bool(_) => "bool"@,
        Value::Int(_) => "int"@,
        Value::Float(_) => "float"@,
        Value::Decimal(_) => "decimal"@,
        Value::String(_) => "string"@,
        Value::Bytes(_) => "bytes"@,
        Value::Uuid(_) => "uuid"@,
        Value::Timestamp(_) => "timestamp"@,
        Value::Array(_) => "array"@,
        Value::Document(_) => "document"@,
    }
}

/// The lowercase type tag of a value, as shown for a field whose type is
/// discovered from the data.
pub fn value_type_label(v: &Value) -> (r: &'static str)
    ensures
        r@ == type_label(*v),
{
    match v {
        Value::Null => "null",
        Value::Bool(_) => "bool",
        Value::Int(_) => "int",
        Value::Float(_) => "float",
        Value::Decimal(_) => "decimal",
        Value::String(_) => "string",
        Value::Bytes(_) => "bytes",
        Value::Uuid(_) => "uuid",
        Value::Timestamp(_) => "timestamp",
        Value::Array(_) => "array",
        Value::Document(_) => "document",
    }
}

} // verus!
