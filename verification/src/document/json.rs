//! Values and documents as JSON: a tree of the library's own, whose numbers and sorted
//! objects are those of the JSON texts that callers exchange.
use vstd::prelude::*;
use vstd::string::*;

use crate::document::compare::text_order;
use crate::document::firelite_doc::{Doc, FireLiteDoc};
use crate::document::number::{bits_of_int, is_finite_bits, magnitude_of, unsigned_to_bits};
use crate::document::value::{fields_view, items_view, parts_view, Val, Value};
use crate::order::Order;
use crate::text::{chars_of, compare_text, text_of};

verus! {

/// A number: an integer that is not negative, a negative integer, or the bits of a
/// floating-point number.
#[derive(Debug, Clone, Copy, PartialEq, Eq, Structural)]
pub enum JsonNumber {
    PosInt(u64),
    NegInt(i64),
    Float(u64),
}

/// A JSON value. The entries of an object ascend by key.
#[derive(Debug)]
pub enum Json {
    Null,
    Bool(bool),
    Number(JsonNumber),
    Text(String),
    List(Vec<Json>),
    Object(Vec<(String, Json)>),
}

/// What a JSON value stands for.
#[verifier::ext_equal]
pub enum Js {
    Null,
    Bool(bool),
    Number(JsonNumber),
    Text(Seq<char>),
    List(Seq<Js>),
    Object(Seq<(Seq<char>, Js)>),
}

/// What a JSON value stands for.
pub open spec fn json_model(j: Json) -> Js
    decreases j,
{
    match j {
        Json::Null => Js::Null,
        Json::Bool(b) => Js::Bool(b),
        Json::Number(n) => Js::Number(n),
        Json::Text(s) => Js::Text(s@),
        Json::List(items) => Js::List(
            Seq::new(
                items@.len(),
                |i: int|
                    if 0 <= i < items@.len() {
                        json_model(items@[i])
                    } else {
                        arbitrary()
                    },
            ),
        ),
        Json::Object(entries) => Js::Object(
            Seq::new(
                entries@.len(),
                |i: int|
                    if 0 <= i < entries@.len() {
                        (entries@[i].0@, json_model(entries@[i].1))
                    } else {
                        arbitrary()
                    },
            ),
        ),
    }
}

impl View for Json {
    type V = Js;

    open spec fn view(&self) -> Js {
        json_model(*self)
    }
}

/// What a list of JSON values stands for.
pub open spec fn list_view(items: Seq<Json>) -> Seq<Js> {
    Seq::new(items.len(), |i: int| items[i]@)
}

/// What the entries of an object stand for.
pub open spec fn entries_view(entries: Seq<(String, Json)>) -> Seq<(Seq<char>, Js)> {
    Seq::new(entries.len(), |i: int| (entries[i].0@, entries[i].1@))
}

/// The model of a JSON value with parts is made of the models of its parts.
pub proof fn json_parts_view(j: Json)
    ensures
        j matches Json::List(items) ==> j@ == Js::List(list_view(items@)),
        j matches Json::Object(entries) ==> j@ == Js::Object(entries_view(entries@)),
{
    reveal_with_fuel(json_model, 2);
    match j {
        Json::List(items) => {
            assert(j@->List_0 =~= list_view(items@));
        },
        Json::Object(entries) => {
            assert(j@->Object_0 =~= entries_view(entries@));
        },
        _ => {},
    }
}

/// The entries with `v` under `k`: in place of what stood there, or before the first
/// greater key.
pub open spec fn put(entries: Seq<(Seq<char>, Js)>, k: Seq<char>, v: Js) -> Seq<(Seq<char>, Js)>
    decreases entries.len(),
{
    if entries.len() == 0 {
        seq![(k, v)]
    } else {
        match text_order(entries[0].0, k) {
            Order::Less => seq![entries[0]] + put(entries.drop_first(), k, v),
            Order::Equal => seq![(k, v)] + entries.drop_first(),
            Order::Greater => seq![(k, v)] + entries,
        }
    }
}

/// What an object holds of a key: the first entry under it.
pub open spec fn lookup(entries: Seq<(Seq<char>, Js)>, k: Seq<char>) -> Option<Js>
    decreases entries.len(),
{
    if entries.len() == 0 {
        None
    } else if entries[0].0 == k {
        Some(entries[0].1)
    } else {
        lookup(entries.drop_first(), k)
    }
}

/// The number that a signed integer is.
pub open spec fn int_number(i: i64) -> JsonNumber {
    if i >= 0 {
        JsonNumber::PosInt(i as u64)
    } else {
        JsonNumber::NegInt(i)
    }
}

/// The JSON value of a value.
pub open spec fn val_json(v: Val) -> Js
    decreases v,
{
    match v {
        Val::Null => Js::Null,
        Val::ServerTimestamp => Js::Null,
        Val::Bool(b) => Js::Bool(b),
        Val::Int(i) => Js::Number(int_number(i)),
        Val::Float(bits) => if is_finite_bits(bits) {
            Js::Number(JsonNumber::Float(bits))
        } else {
            Js::Null
        },
        Val::String(s) => Js::Text(s),
        Val::Binary(b) => Js::List(Seq::new(b.len(), |i: int| Js::Number(JsonNumber::PosInt(b[i] as u64)))),
        Val::Timestamp(t) => Js::Number(int_number(t)),
        Val::Reference { collection, doc_id } => Js::Object(
            seq![("__ref__"@, Js::Text(collection + "/"@ + doc_id))],
        ),
        Val::BlobLink { offset, len } => Js::Object(
            seq![
                (
                    "__blob__"@,
                    Js::Object(
                        seq![
                            ("len"@, Js::Number(JsonNumber::PosInt(len as u64))),
                            ("offset"@, Js::Number(JsonNumber::PosInt(offset))),
                        ],
                    ),
                ),
            ],
        ),
        Val::Object(fields) => Js::Object(fields_json(fields)),
        Val::Array(items) => Js::List(items_json(items)),
    }
}

/// The entries that fields become: each put in turn, so that the last of one key stays.
pub open spec fn fields_json(fields: Seq<(Seq<char>, Val)>) -> Seq<(Seq<char>, Js)>
    decreases fields,
{
    if fields.len() == 0 {
        Seq::empty()
    } else {
        put(fields_json(fields.drop_last()), fields.last().0, val_json(fields.last().1))
    }
}

/// The JSON values of values.
pub open spec fn items_json(items: Seq<Val>) -> Seq<Js>
    decreases items,
{
    if items.len() == 0 {
        Seq::empty()
    } else {
        items_json(items.drop_last()).push(val_json(items.last()))
    }
}

/// The entries of a document: its fields, put over its time.
pub open spec fn doc_json(d: Doc) -> Seq<(Seq<char>, Js)> {
    put_fields(seq![("_time"@, Js::Number(int_number(d.time)))], d.fields)
}

/// The entries with fields put in turn.
pub open spec fn put_fields(entries: Seq<(Seq<char>, Js)>, fields: Seq<(Seq<char>, Val)>) -> Seq<(Seq<char>, Js)>
    decreases fields.len(),
{
    if fields.len() == 0 {
        entries
    } else {
        put(put_fields(entries, fields.drop_last()), fields.last().0, val_json(fields.last().1))
    }
}

/// Where a character first stands.
pub open spec fn first_index(s: Seq<char>, c: char) -> Option<nat>
    decreases s.len(),
{
    if s.len() == 0 {
        None
    } else if s[0] == c {
        Some(0)
    } else {
        match first_index(s.drop_first(), c) {
            None => None,
            Some(i) => Some(i + 1),
        }
    }
}

/// The integer that an object holds under a key, where it is not negative; else 0.
pub open spec fn unsigned_at(entries: Seq<(Seq<char>, Js)>, k: Seq<char>) -> u64 {
    match lookup(entries, k) {
        Some(Js::Number(JsonNumber::PosInt(n))) => n,
        _ => 0,
    }
}

/// The value of a number.
pub open spec fn number_val(n: JsonNumber) -> Val {
    match n {
        JsonNumber::PosInt(u) => if u <= i64::MAX {
            Val::Int(u as i64)
        } else {
            Val::Float(bits_of_int(u as int) as u64)
        },
        JsonNumber::NegInt(i) => Val::Int(i),
        JsonNumber::Float(bits) => Val::Float(bits),
    }
}

/// The value of a JSON value. An object with a path under `__ref__` is a reference, one
/// with an object under `__blob__` a link to a blob.
pub open spec fn json_val(j: Js) -> Val
    decreases j,
{
    match j {
        Js::Null => Val::Null,
        Js::Bool(b) => Val::Bool(b),
        Js::Number(n) => number_val(n),
        Js::Text(s) => Val::String(s),
        Js::List(items) => Val::Array(
            Seq::new(
                items.len(),
                |i: int|
                    if 0 <= i < items.len() {
                        json_val(items[i])
                    } else {
                        arbitrary()
                    },
            ),
        ),
        Js::Object(entries) => match special_val(entries) {
            Some(v) => v,
            None => Val::Object(
                Seq::new(
                    entries.len(),
                    |i: int|
                        if 0 <= i < entries.len() {
                            (entries[i].0, json_val(entries[i].1))
                        } else {
                            arbitrary()
                        },
                ),
            ),
        },
    }
}

/// The reference or the blob that an object describes, if it describes one.
pub open spec fn special_val(entries: Seq<(Seq<char>, Js)>) -> Option<Val> {
    match (lookup(entries, "__ref__"@), lookup(entries, "__blob__"@)) {
        (Some(Js::Text(path)), b) => match first_index(path, '/') {
            Some(i) => Some(
                Val::Reference { collection: path.take(i as int), doc_id: path.skip(i as int + 1) },
            ),
            None => blob_val(b),
        },
        (_, b) => blob_val(b),
    }
}

/// The link that the object under `__blob__` describes.
pub open spec fn blob_val(b: Option<Js>) -> Option<Val> {
    match b {
        Some(Js::Object(meta)) => Some(
            Val::BlobLink { offset: unsigned_at(meta, "offset"@), len: unsigned_at(meta, "len"@) as u32 },
        ),
        _ => None,
    }
}

/// A reference is found again in its JSON value, where no `/` stands in the name of its
/// collection.
pub proof fn reference_round_trip(collection: Seq<char>, doc_id: Seq<char>)
    requires
        !collection.contains('/'),
    ensures
        json_val(val_json(Val::Reference { collection, doc_id })) == (Val::Reference { collection, doc_id }),
{
    reveal_strlit("/");
    let path = collection + "/"@ + doc_id;
    first_index_of(collection, "/"@ + doc_id, '/');
    assert(path =~= collection + ("/"@ + doc_id));
    assert(path.take(collection.len() as int) =~= collection);
    assert(path.skip(collection.len() as int + 1) =~= doc_id);
    let entries = seq![("__ref__"@, Js::Text(path))];
    assert(entries[0].0 == "__ref__"@);
    assert(special_val(entries) == Some(Val::Reference { collection, doc_id }));
}

/// A link to a blob is found again in its JSON value.
pub proof fn blob_round_trip(offset: u64, len: u32)
    ensures
        json_val(val_json(Val::BlobLink { offset, len })) == (Val::BlobLink { offset, len }),
{
    reveal_strlit("__ref__");
    reveal_strlit("__blob__");
    reveal_strlit("len");
    reveal_strlit("offset");
    let meta = seq![
        ("len"@, Js::Number(JsonNumber::PosInt(len as u64))),
        ("offset"@, Js::Number(JsonNumber::PosInt(offset))),
    ];
    let entries = seq![("__blob__"@, Js::Object(meta))];
    assert("__blob__"@.len() != "__ref__"@.len());
    assert("len"@.len() != "offset"@.len());
    assert(entries.drop_first().len() == 0);
    assert(lookup(entries, "__ref__"@) is None) by {
        reveal_with_fuel(lookup, 2);
    }
    assert(lookup(entries, "__blob__"@) == Some(Js::Object(meta)));
    assert(lookup(meta, "len"@) == Some(Js::Number(JsonNumber::PosInt(len as u64))));
    assert(meta.drop_first()[0] == meta[1]);
    assert(lookup(meta, "offset"@) == Some(Js::Number(JsonNumber::PosInt(offset)))) by {
        reveal_with_fuel(lookup, 3);
    }
    assert((len as u64) as u32 == len);
}

proof fn first_index_of(head: Seq<char>, tail: Seq<char>, c: char)
    requires
        !head.contains(c),
        tail.len() > 0,
        tail[0] == c,
    ensures
        first_index(head + tail, c) == Some(head.len()),
    decreases head.len(),
{
    if head.len() == 0 {
        assert(head + tail =~= tail);
    } else {
        assert((head + tail).drop_first() =~= head.drop_first() + tail);
        assert(head.contains(head[0]));
        assert forall|i: int| 0 <= i < head.drop_first().len() implies head.drop_first()[i] != c by {
            assert(head.contains(head[i + 1]));
        }
        first_index_of(head.drop_first(), tail, c);
    }
}

/// Puts `v` under `k`.
pub fn put_entry(entries: &mut Vec<(String, Json)>, k: String, v: Json)
    ensures
        entries_view(final(entries)@) == put(entries_view(old(entries)@), k@, v@),
{
    let ghost s = entries_view(entries@);
    let mut i: usize = 0;
    let ghost mut head: Seq<(Seq<char>, Js)> = Seq::empty();
    proof {
        assert(s.skip(0) =~= s);
        assert(head + put(s, k@, v@) =~= put(s, k@, v@));
    }
    while i < entries.len()
        invariant
            i <= entries@.len(),
            entries@ == old(entries)@,
            s == entries_view(entries@),
            head == s.take(i as int),
            put(s, k@, v@) == head + put(s.skip(i as int), k@, v@),
        decreases entries@.len() - i,
    {
        let o = compare_text(entries[i].0.as_str(), k.as_str());
        let ghost rest = s.skip(i as int);
        proof {
            assert(rest[0] == s[i as int]);
            assert(rest.drop_first() =~= s.skip(i + 1));
        }
        match o {
            Order::Less => {
                proof {
                    assert(head + (seq![rest[0]] + put(s.skip(i + 1), k@, v@)) =~= head.push(rest[0]) + put(
                        s.skip(i + 1),
                        k@,
                        v@,
                    ));
                    assert(head.push(rest[0]) =~= s.take(i + 1));
                    head = head.push(rest[0]);
                }
                i = i + 1;
            },
            Order::Equal => {
                let ghost kk = k@;
                let ghost vv = v@;
                let mut entry = (k, v);
                std::mem::swap(&mut entries[i], &mut entry);
                proof {
                    assert(entries_view(entries@) =~= head + (seq![(kk, vv)] + s.skip(i + 1)));
                }
                return;
            },
            Order::Greater => {
                let ghost kk = k@;
                let ghost vv = v@;
                entries.insert(i, (k, v));
                proof {
                    assert(entries_view(entries@) =~= head + (seq![(kk, vv)] + rest));
                }
                return;
            },
        }
    }
    let ghost kk = k@;
    let ghost vv = v@;
    entries.push((k, v));
    proof {
        assert(s.skip(s.len() as int).len() == 0);
        assert(entries_view(entries@) =~= head + seq![(kk, vv)]);
    }
}

/// The number that a signed integer is.
pub fn number_of_int(i: i64) -> (n: JsonNumber)
    ensures
        n == int_number(i),
{
    if i >= 0 {
        JsonNumber::PosInt(i as u64)
    } else {
        JsonNumber::NegInt(i)
    }
}

impl Value {
    /// The JSON value of the value.
    pub fn to_json(&self) -> (j: Json)
        ensures
            j@ == val_json(self@),
        decreases self, 1nat,
    {
        proof {
            parts_view(*self);
        }
        let j = match self {
            Value::Null => Json::Null,
            Value::ServerTimestamp => Json::Null,
            Value::Bool(b) => Json::Bool(*b),
            Value::Int(i) => Json::Number(number_of_int(*i)),
            Value::Float(bits) => if magnitude_of(*bits) < 0x7FF0_0000_0000_0000 {
                Json::Number(JsonNumber::Float(*bits))
            } else {
                Json::Null
            },
            Value::String(s) => Json::Text(s.clone()),
            Value::Binary(b) => Json::List(bytes_to_json(b)),
            Value::Timestamp(t) => Json::Number(number_of_int(*t)),
            Value::Reference { collection, doc_id } => {
                let mut path = collection.clone();
                path.append("/");
                path.append(doc_id.as_str());
                let mut entries: Vec<(String, Json)> = Vec::new();
                entries.push(("__ref__".to_owned(), Json::Text(path)));
                proof {
                    assert(entries_view(entries@) =~= seq![("__ref__"@, Js::Text(path@))]);
                }
                Json::Object(entries)
            },
            Value::BlobLink { offset, len } => {
                let mut meta: Vec<(String, Json)> = Vec::new();
                meta.push(("len".to_owned(), Json::Number(JsonNumber::PosInt(*len as u64))));
                meta.push(("offset".to_owned(), Json::Number(JsonNumber::PosInt(*offset))));
                proof {
                    assert(entries_view(meta@) =~= seq![
                        ("len"@, Js::Number(JsonNumber::PosInt(*len as u64))),
                        ("offset"@, Js::Number(JsonNumber::PosInt(*offset))),
                    ]);
                }
                let inner = Json::Object(meta);
                proof {
                    json_parts_view(inner);
                }
                let mut entries: Vec<(String, Json)> = Vec::new();
                let ghost inner_view = inner@;
                entries.push(("__blob__".to_owned(), inner));
                proof {
                    assert(entries_view(entries@) =~= seq![("__blob__"@, inner_view)]);
                }
                Json::Object(entries)
            },
            Value::Object(fields) => {
                let mut entries: Vec<(String, Json)> = Vec::new();
                proof {
                    assert(entries_view(entries@) =~= Seq::empty());
                    put_fields_from_empty(fields_view(fields@));
                }
                put_json_fields(&mut entries, fields);
                Json::Object(entries)
            },
            Value::Array(items) => Json::List(items_to_json(items)),
        };
        proof {
            json_parts_view(j);
        }
        j
    }

    /// The value of a JSON value.
    pub fn from_json(json: &Json) -> (r: Result<Value, String>)
        ensures
            r is Ok,
            r->Ok_0@ == json_val(json@),
        decreases json, 1nat,
    {
        Ok(value_from_json(json))
    }
}

proof fn put_fields_from_empty(fields: Seq<(Seq<char>, Val)>)
    ensures
        put_fields(Seq::empty(), fields) == fields_json(fields),
    decreases fields.len(),
{
    if fields.len() > 0 {
        put_fields_from_empty(fields.drop_last());
    }
}

fn bytes_to_json(b: &Vec<u8>) -> (r: Vec<Json>)
    ensures
        list_view(r@) == Seq::new(b@.len(), |i: int| Js::Number(JsonNumber::PosInt(b@[i] as u64))),
{
    let mut r: Vec<Json> = Vec::new();
    let mut i: usize = 0;
    while i < b.len()
        invariant
            i <= b@.len(),
            r@.len() == i,
            forall|k: int| 0 <= k < i ==> #[trigger] r@[k]@ == Js::Number(JsonNumber::PosInt(b@[k] as u64)),
        decreases b@.len() - i,
    {
        r.push(Json::Number(JsonNumber::PosInt(b[i] as u64)));
        i = i + 1;
    }
    proof {
        assert(list_view(r@) =~= Seq::new(b@.len(), |i: int| Js::Number(JsonNumber::PosInt(b@[i] as u64))));
    }
    r
}

fn items_to_json(items: &Vec<Value>) -> (r: Vec<Json>)
    ensures
        list_view(r@) == items_json(items_view(items@)),
    decreases items, 0nat,
{
    let mut r: Vec<Json> = Vec::new();
    let ghost model = items_view(items@);
    let mut i: usize = 0;
    proof {
        assert(model.take(0) =~= Seq::empty());
        assert(list_view(r@) =~= Seq::empty());
    }
    while i < items.len()
        invariant
            i <= items@.len(),
            model == items_view(items@),
            list_view(r@) == items_json(model.take(i as int)),
        decreases items@.len() - i,
    {
        let j = items[i].to_json();
        proof {
            let t = model.take(i + 1);
            assert(t.drop_last() =~= model.take(i as int));
            assert(list_view(r@.push(j)) =~= list_view(r@).push(j@));
        }
        r.push(j);
        i = i + 1;
    }
    proof {
        assert(model.take(model.len() as int) =~= model);
    }
    r
}

pub fn put_json_fields(entries: &mut Vec<(String, Json)>, fields: &Vec<(String, Value)>)
    ensures
        entries_view(final(entries)@) == put_fields(entries_view(old(entries)@), fields_view(fields@)),
    decreases fields, 0nat,
{
    let ghost before = entries_view(entries@);
    let ghost model = fields_view(fields@);
    let mut i: usize = 0;
    proof {
        assert(model.take(0) =~= Seq::empty());
    }
    while i < fields.len()
        invariant
            i <= fields@.len(),
            model == fields_view(fields@),
            entries_view(entries@) == put_fields(before, model.take(i as int)),
        decreases fields@.len() - i,
    {
        let j = fields[i].1.to_json();
        proof {
            let t = model.take(i + 1);
            assert(t.drop_last() =~= model.take(i as int));
        }
        put_entry(entries, fields[i].0.clone(), j);
        i = i + 1;
    }
    proof {
        assert(model.take(model.len() as int) =~= model);
    }
}

impl FireLiteDoc {
    /// The document as a JSON object: its fields, and its time under `_time`.
    pub fn to_json(&self) -> (j: Json)
        ensures
            j@ == Js::Object(doc_json(self@)),
    {
        let mut entries: Vec<(String, Json)> = Vec::new();
        entries.push(("_time".to_owned(), Json::Number(number_of_int(self._time))));
        proof {
            assert(entries_view(entries@) =~= seq![("_time"@, Js::Number(int_number(self._time)))]);
        }
        put_json_fields(&mut entries, &self.fields);
        let j = Json::Object(entries);
        proof {
            json_parts_view(j);
        }
        j
    }

    /// The document as a JSON object, with its id put under `id`.
    pub fn to_json_with_id(&self, id: &str) -> (j: Json)
        ensures
            j@ == Js::Object(put(doc_json(self@), "id"@, Js::Text(id@))),
    {
        let mut entries: Vec<(String, Json)> = Vec::new();
        entries.push(("_time".to_owned(), Json::Number(number_of_int(self._time))));
        proof {
            assert(entries_view(entries@) =~= seq![("_time"@, Js::Number(int_number(self._time)))]);
        }
        put_json_fields(&mut entries, &self.fields);
        put_entry(&mut entries, "id".to_owned(), Json::Text(id.to_owned()));
        let j = Json::Object(entries);
        proof {
            json_parts_view(j);
        }
        j
    }
}

/// What an object holds of a key.
pub fn find_entry<'a>(entries: &'a Vec<(String, Json)>, k: &str) -> (r: Option<&'a Json>)
    ensures
        match r {
            Some(j) => lookup(entries_view(entries@), k@) == Some(j@),
            None => lookup(entries_view(entries@), k@) is None,
        },
        r matches Some(j) ==> exists|i: int| 0 <= i < entries@.len() && #[trigger] entries@[i].1 == *j,
{
    let ghost s = entries_view(entries@);
    let mut i: usize = 0;
    proof {
        assert(s.skip(0) =~= s);
    }
    while i < entries.len()
        invariant
            i <= entries@.len(),
            s == entries_view(entries@),
            lookup(s, k@) == lookup(s.skip(i as int), k@),
        decreases entries@.len() - i,
    {
        proof {
            assert(s.skip(i as int)[0] == s[i as int]);
            assert(s.skip(i as int).drop_first() =~= s.skip(i + 1));
        }
        if crate::text::same_text(entries[i].0.as_str(), k) {
            return Some(&entries[i].1);
        }
        i = i + 1;
    }
    None
}

fn find_unsigned(entries: &Vec<(String, Json)>, k: &str) -> (n: u64)
    ensures
        n == unsigned_at(entries_view(entries@), k@),
{
    match find_entry(entries, k) {
        Some(Json::Number(JsonNumber::PosInt(n))) => *n,
        Some(j) => {
            proof {
                json_parts_view(*j);
            }
            0
        },
        None => 0,
    }
}

/// The reference or the blob that an object describes, if it describes one.
fn special_value(entries: &Vec<(String, Json)>) -> (r: Option<Value>)
    ensures
        match r {
            Some(v) => special_val(entries_view(entries@)) == Some(v@),
            None => special_val(entries_view(entries@)) is None,
        },
{
    match find_entry(entries, "__ref__") {
        Some(j) => {
            proof {
                json_parts_view(*j);
            }
            if let Json::Text(path) = j {
                let chars = chars_of(path.as_str());
                let mut i: usize = 0;
                proof {
                    assert(chars@.skip(0) =~= chars@);
                }
                while i < chars.len()
                    invariant
                        i <= chars@.len(),
                        chars@ == path@,
                        lookup(entries_view(entries@), "__ref__"@) == Some(Js::Text(path@)),
                        match first_index(chars@.skip(i as int), '/') {
                            Some(k) => first_index(path@, '/') == Some(i as nat + k),
                            None => first_index(path@, '/') is None,
                        },
                    decreases chars@.len() - i,
                {
                    proof {
                        assert(chars@.skip(i as int)[0] == chars@[i as int]);
                        assert(chars@.skip(i as int).drop_first() =~= chars@.skip(i + 1));
                    }
                    if chars[i] == '/' {
                        proof {
                            assert(path@.subrange(0, i as int) =~= path@.take(i as int));
                            assert(path@.subrange(i + 1, path@.len() as int) =~= path@.skip(i + 1));
                        }
                        return Some(
                            Value::Reference {
                                collection: text_of(&chars, 0, i),
                                doc_id: text_of(&chars, i + 1, chars.len()),
                            },
                        );
                    }
                    i = i + 1;
                }
            }
        },
        None => {},
    }
    match find_entry(entries, "__blob__") {
        Some(j) => {
            proof {
                json_parts_view(*j);
            }
            if let Json::Object(meta) = j {
                return Some(
                    Value::BlobLink { offset: find_unsigned(meta, "offset"), len: find_unsigned(meta, "len") as u32 },
                );
            }
        },
        None => {},
    }
    None
}

/// The value of a JSON value.
fn value_from_json(json: &Json) -> (v: Value)
    ensures
        v@ == json_val(json@),
    decreases json, 0nat,
{
    proof {
        json_parts_view(*json);
        reveal_with_fuel(json_val, 2);
    }
    let v = match json {
        Json::Null => Value::Null,
        Json::Bool(b) => Value::Bool(*b),
        Json::Number(n) => match n {
            JsonNumber::PosInt(u) => if *u <= i64::MAX as u64 {
                Value::Int(*u as i64)
            } else {
                Value::Float(unsigned_to_bits(*u))
            },
            JsonNumber::NegInt(i) => Value::Int(*i),
            JsonNumber::Float(bits) => Value::Float(*bits),
        },
        Json::Text(s) => Value::String(s.clone()),
        Json::List(items) => {
            let r = values_from_json(items);
            proof {
                assert(items_view(r@) =~= json_val(json@)->Array_0);
            }
            Value::Array(r)
        },
        Json::Object(entries) => match special_value(entries) {
            Some(v) => v,
            None => {
                let r = fields_from_json(entries);
                proof {
                    assert(fields_view(r@) =~= json_val(json@)->Object_0);
                }
                Value::Object(r)
            },
        },
    };
    proof {
        parts_view(v);
    }
    v
}

fn values_from_json(items: &Vec<Json>) -> (r: Vec<Value>)
    ensures
        r@.len() == items@.len(),
        forall|k: int| 0 <= k < r@.len() ==> #[trigger] r@[k]@ == json_val(items@[k]@),
    decreases items, 0nat,
{
    let mut r: Vec<Value> = Vec::new();
    let mut i: usize = 0;
    while i < items.len()
        invariant
            i <= items@.len(),
            r@.len() == i,
            forall|k: int| 0 <= k < i ==> #[trigger] r@[k]@ == json_val(items@[k]@),
        decreases items@.len() - i,
    {
        r.push(value_from_json(&items[i]));
        i = i + 1;
    }
    r
}

fn fields_from_json(entries: &Vec<(String, Json)>) -> (r: Vec<(String, Value)>)
    ensures
        r@.len() == entries@.len(),
        forall|k: int|
            0 <= k < r@.len() ==> #[trigger] r@[k].0@ == entries@[k].0@ && r@[k].1@ == json_val(entries@[k].1@),
    decreases entries, 0nat,
{
    let mut r: Vec<(String, Value)> = Vec::new();
    let mut i: usize = 0;
    while i < entries.len()
        invariant
            i <= entries@.len(),
            r@.len() == i,
            forall|k: int|
                0 <= k < i ==> #[trigger] r@[k].0@ == entries@[k].0@ && r@[k].1@ == json_val(entries@[k].1@),
        decreases entries@.len() - i,
    {
        r.push((entries[i].0.clone(), value_from_json(&entries[i].1)));
        i = i + 1;
    }
    r
}

} // verus!
