//! The values that a document's fields hold.
use vstd::prelude::*;

verus! {

/// A value of a field. A floating-point number is held as its 64 bits.
#[derive(Debug)]
pub enum Value {
    Null,
    Bool(bool),
    Int(i64),
    Float(u64),
    String(String),
    Binary(Vec<u8>),
    BlobLink { offset: u64, len: u32 },
    Reference { collection: String, doc_id: String },
    Timestamp(i64),
    ServerTimestamp,
    Object(Vec<(String, Value)>),
    Array(Vec<Value>),
}

/// What a value stands for.
#[verifier::ext_equal]
pub enum Val {
    Null,
    Bool(bool),
    Int(i64),
    Float(u64),
    String(Seq<char>),
    Binary(Seq<u8>),
    BlobLink { offset: u64, len: u32 },
    Reference { collection: Seq<char>, doc_id: Seq<char> },
    Timestamp(i64),
    ServerTimestamp,
    Object(Seq<(Seq<char>, Val)>),
    Array(Seq<Val>),
}

/// What a value stands for.
pub open spec fn value_model(v: Value) -> Val
    decreases v,
{
    match v {
        Value::Null => Val::Null,
        Value::Bool(b) => Val::Bool(b),
        Value::Int(i) => Val::Int(i),
        Value::Float(f) => Val::Float(f),
        Value::String(s) => Val::String(s@),
        Value::Binary(b) => Val::Binary(b@),
        Value::BlobLink { offset, len } => Val::BlobLink { offset: offset, len: len },
        Value::Reference { collection, doc_id } => Val::Reference { collection: collection@, doc_id: doc_id@ },
        Value::Timestamp(t) => Val::Timestamp(t),
        Value::ServerTimestamp => Val::ServerTimestamp,
        Value::Object(fields) => Val::Object(
            Seq::new(
                fields@.len(),
                |i: int|
                    if 0 <= i < fields@.len() {
                        (fields@[i].0@, value_model(fields@[i].1))
                    } else {
                        arbitrary()
                    },
            ),
        ),
        Value::Array(items) => Val::Array(
            Seq::new(
                items@.len(),
                |i: int|
                    if 0 <= i < items@.len() {
                        value_model(items@[i])
                    } else {
                        arbitrary()
                    },
            ),
        ),
    }
}

impl View for Value {
    type V = Val;

    open spec fn view(&self) -> Val {
        value_model(*self)
    }
}

/// What a list of fields stands for.
pub open spec fn fields_view(fields: Seq<(String, Value)>) -> Seq<(Seq<char>, Val)> {
    Seq::new(fields.len(), |i: int| (fields[i].0@, fields[i].1@))
}

/// What a list of values stands for.
pub open spec fn items_view(items: Seq<Value>) -> Seq<Val> {
    Seq::new(items.len(), |i: int| items[i]@)
}

/// The model of a value with parts is made of the models of its parts.
pub proof fn parts_view(v: Value)
    ensures
        v matches Value::Object(fields) ==> v@ == Val::Object(fields_view(fields@)),
        v matches Value::Array(items) ==> v@ == Val::Array(items_view(items@)),
{
    reveal_with_fuel(value_model, 2);
    match v {
        Value::Object(fields) => {
            assert(v@->Object_0 =~= fields_view(fields@));
        },
        Value::Array(items) => {
            assert(v@->Array_0 =~= items_view(items@));
        },
        _ => {},
    }
}

/// Another byte string with the same bytes.
pub fn copy_bytes(b: &[u8]) -> (r: Vec<u8>)
    ensures
        r@ == b@,
{
    let mut r: Vec<u8> = Vec::new();
    r.extend_from_slice(b);
    proof {
        assert(r@ =~= b@);
    }
    r
}

/// Another list of fields that stands for the same.
pub fn copy_fields(fields: &Vec<(String, Value)>) -> (r: Vec<(String, Value)>)
    ensures
        fields_view(r@) == fields_view(fields@),
    decreases fields,
{
    let mut r: Vec<(String, Value)> = Vec::new();
    let mut i: usize = 0;
    while i < fields.len()
        invariant
            i <= fields@.len(),
            r@.len() == i,
            forall|k: int| 0 <= k < i ==> #[trigger] r@[k].0@ == fields@[k].0@ && r@[k].1@ == fields@[k].1@,
        decreases fields@.len() - i,
    {
        r.push((fields[i].0.clone(), fields[i].1.clone()));
        i = i + 1;
    }
    proof {
        assert(fields_view(r@) =~= fields_view(fields@));
    }
    r
}

/// Another list of values that stands for the same.
pub fn copy_items(items: &Vec<Value>) -> (r: Vec<Value>)
    ensures
        items_view(r@) == items_view(items@),
    decreases items,
{
    let mut r: Vec<Value> = Vec::new();
    let mut i: usize = 0;
    while i < items.len()
        invariant
            i <= items@.len(),
            r@.len() == i,
            forall|k: int| 0 <= k < i ==> #[trigger] r@[k]@ == items@[k]@,
        decreases items@.len() - i,
    {
        r.push(items[i].clone());
        i = i + 1;
    }
    proof {
        assert(items_view(r@) =~= items_view(items@));
    }
    r
}

impl Clone for Value {
    fn clone(&self) -> (r: Value)
        ensures
            r@ == self@,
        decreases self,
    {
        proof {
            parts_view(*self);
        }
        let r = match self {
            Value::Null => Value::Null,
            Value::Bool(b) => Value::Bool(*b),
            Value::Int(i) => Value::Int(*i),
            Value::Float(f) => Value::Float(*f),
            Value::String(s) => Value::String(s.clone()),
            Value::Binary(b) => Value::Binary(copy_bytes(b.as_slice())),
            Value::BlobLink { offset, len } => Value::BlobLink { offset: *offset, len: *len },
            Value::Reference { collection, doc_id } => Value::Reference {
                collection: collection.clone(),
                doc_id: doc_id.clone(),
            },
            Value::Timestamp(t) => Value::Timestamp(*t),
            Value::ServerTimestamp => Value::ServerTimestamp,
            Value::Object(fields) => Value::Object(copy_fields(fields)),
            Value::Array(items) => Value::Array(copy_items(items)),
        };
        proof {
            parts_view(r);
        }
        r
    }
}

} // verus!
