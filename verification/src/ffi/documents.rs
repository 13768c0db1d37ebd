//! Documents and lists of values in the hands of callers.
use vstd::prelude::*;
use vstd::string::*;

use crate::document::firelite_doc::{with_field, Doc, FireLiteDoc};
use crate::document::json_text::{doc_text, doc_to_json, docs_text, FloatTexts};
use crate::document::value::{copy_bytes, copy_fields, items_view, parts_view, Val, Value};
use crate::engine::engine::Hako;
use crate::engine::files::FileReads;
use crate::engine::store::shard_opened;
use crate::error::HakoError;
use crate::ffi::last_error::{arg_text, cstr_to_string, error_words, failed, succeeded, LastError};
use crate::storage::blob::{attempted_doc, resolved_doc, unresolved, works_view};

verus! {

/// A document with its id.
#[allow(non_camel_case_types)]
pub struct FL_Doc {
    pub id: String,
    pub doc: FireLiteDoc,
}

/// A list of values.
#[allow(non_camel_case_types)]
pub struct FL_Array {
    pub items: Vec<Value>,
}

/// What a query found.
#[allow(non_camel_case_types)]
pub struct FL_ResultSet {
    pub docs: Vec<FL_Doc>,
}

/// A value was put under a key of a document, unless the key is no text.
pub open spec fn inserted(
    before: FL_Doc,
    after: FL_Doc,
    key: Option<&[u8]>,
    value: Val,
    error_before: Option<Seq<char>>,
    error: Option<Seq<char>>,
    n: i32,
) -> bool {
    match arg_text(key) {
        Err(m) => failed(n, error, m) && after == before,
        Ok(k) => {
            &&& n == 0
            &&& error == error_before
            &&& after.id == before.id
            &&& after.doc@ == with_field(before.doc@, k, value)
        },
    }
}

/// An empty document without an id.
pub fn fl_doc_new() -> (d: FL_Doc)
    ensures
        d.id@.len() == 0,
        d.doc@ == (Doc { fields: Seq::empty(), time: 0 }),
{
    FL_Doc { id: String::new(), doc: FireLiteDoc::default() }
}

/// Puts a value under a key, once the key is known to be a text.
fn put_value(last: &mut LastError, d: &mut FL_Doc, key: Option<&[u8]>, value: Value) -> (n: i32)
    ensures
        inserted(*old(d), *final(d), key, value@, old(last)@, final(last)@, n),
{
    match cstr_to_string(key) {
        Err(e) => last.set_last_error(e.as_str()),
        Ok(k) => {
            d.doc.insert(k, value);
            0
        },
    }
}

/// Puts an integer under a key of a document.
pub fn fl_doc_insert_int(last: &mut LastError, doc: Option<&mut FL_Doc>, key: Option<&[u8]>, value: i64) -> (n: i32)
    ensures
        doc is None ==> failed(n, final(last)@, "null FL_Doc"@),
        doc matches Some(d) ==> inserted(*d, *final(d), key, Val::Int(value), None, final(last)@, n),
{
    match doc {
        None => last.set_last_error("null FL_Doc"),
        Some(d) => {
            let n: i32 = put_value(last, d, key, Value::Int(value));
            if n == 0 {
                last.clear_last_error();
            }
            n
        },
    }
}

/// Puts a floating-point number, given by its bits, under a key of a document.
pub fn fl_doc_insert_float(last: &mut LastError, doc: Option<&mut FL_Doc>, key: Option<&[u8]>, bits: u64) -> (n: i32)
    ensures
        doc is None ==> failed(n, final(last)@, "null FL_Doc"@),
        doc matches Some(d) ==> inserted(*d, *final(d), key, Val::Float(bits), None, final(last)@, n),
{
    match doc {
        None => last.set_last_error("null FL_Doc"),
        Some(d) => {
            let n: i32 = put_value(last, d, key, Value::Float(bits));
            if n == 0 {
                last.clear_last_error();
            }
            n
        },
    }
}

/// Puts a truth value under a key of a document.
pub fn fl_doc_insert_bool(last: &mut LastError, doc: Option<&mut FL_Doc>, key: Option<&[u8]>, value: bool) -> (n: i32)
    ensures
        doc is None ==> failed(n, final(last)@, "null FL_Doc"@),
        doc matches Some(d) ==> inserted(*d, *final(d), key, Val::Bool(value), None, final(last)@, n),
{
    match doc {
        None => last.set_last_error("null FL_Doc"),
        Some(d) => {
            let n: i32 = put_value(last, d, key, Value::Bool(value));
            if n == 0 {
                last.clear_last_error();
            }
            n
        },
    }
}

/// Puts nothing under a key of a document.
pub fn fl_doc_insert_null(last: &mut LastError, doc: Option<&mut FL_Doc>, key: Option<&[u8]>) -> (n: i32)
    ensures
        doc is None ==> failed(n, final(last)@, "null FL_Doc"@),
        doc matches Some(d) ==> inserted(*d, *final(d), key, Val::Null, None, final(last)@, n),
{
    match doc {
        None => last.set_last_error("null FL_Doc"),
        Some(d) => {
            let n: i32 = put_value(last, d, key, Value::Null);
            if n == 0 {
                last.clear_last_error();
            }
            n
        },
    }
}

/// Puts a time in microseconds under a key of a document.
pub fn fl_doc_insert_timestamp(last: &mut LastError, doc: Option<&mut FL_Doc>, key: Option<&[u8]>, micros: i64) -> (n: i32)
    ensures
        doc is None ==> failed(n, final(last)@, "null doc"@),
        doc matches Some(d) ==> inserted(*d, *final(d), key, Val::Timestamp(micros), old(last)@, final(last)@, n),
{
    match doc {
        None => last.set_last_error("null doc"),
        Some(d) => {
            let n: i32 = put_value(last, d, key, Value::Timestamp(micros));
            n
        },
    }
}

/// Puts a place for the time of the write under a key of a document.
pub fn fl_doc_insert_server_timestamp(last: &mut LastError, doc: Option<&mut FL_Doc>, key: Option<&[u8]>) -> (n: i32)
    ensures
        doc is None ==> failed(n, final(last)@, "null doc"@),
        doc matches Some(d) ==> inserted(*d, *final(d), key, Val::ServerTimestamp, old(last)@, final(last)@, n),
{
    match doc {
        None => last.set_last_error("null doc"),
        Some(d) => {
            let n: i32 = put_value(last, d, key, Value::ServerTimestamp);
            n
        },
    }
}

/// Puts a text under a key of a document.
pub fn fl_doc_insert_str(last: &mut LastError, doc: Option<&mut FL_Doc>, key: Option<&[u8]>, value: Option<&[u8]>) -> (n: i32)
    ensures
        doc is None ==> failed(n, final(last)@, "null FL_Doc"@),
        doc matches Some(d) ==> match (arg_text(key), arg_text(value)) {
            (Err(m), _) => failed(n, final(last)@, m) && *final(d) == *d,
            (_, Err(m)) => failed(n, final(last)@, m) && *final(d) == *d,
            (Ok(k), Ok(v)) => inserted(*d, *final(d), key, Val::String(v), None, final(last)@, n),
        },
{
    match doc {
        None => last.set_last_error("null FL_Doc"),
        Some(d) => match cstr_to_string(key) {
            Err(e) => last.set_last_error(e.as_str()),
            Ok(k) => match cstr_to_string(value) {
                Err(e) => last.set_last_error(e.as_str()),
                Ok(v) => {
                    d.doc.insert(k, Value::String(v));
                    last.clear_last_error();
                    0
                },
            },
        },
    }
}

/// Puts bytes under a key of a document. No bytes may be handed over as nothing.
pub fn fl_doc_insert_bin(
    last: &mut LastError,
    doc: Option<&mut FL_Doc>,
    key: Option<&[u8]>,
    data: Option<&[u8]>,
    len: usize,
) -> (n: i32)
    requires
        data matches Some(b) ==> b@.len() == len,
    ensures
        doc is None ==> failed(n, final(last)@, "null FL_Doc"@),
        doc matches Some(d) ==> if data is None && len > 0 {
            failed(n, final(last)@, "null binary data"@) && *final(d) == *d
        } else {
            inserted(
                *d,
                *final(d),
                key,
                Val::Binary(
                    if data is Some {
                        data->Some_0@
                    } else {
                        Seq::empty()
                    },
                ),
                None,
                final(last)@,
                n,
            )
        },
{
    match doc {
        None => last.set_last_error("null FL_Doc"),
        Some(d) => {
            let bytes = match data {
                Some(b) => copy_bytes(b),
                None => {
                    if len > 0 {
                        return last.set_last_error("null binary data");
                    }
                    Vec::new()
                },
            };
            proof {
                if data is None {
                    assert(bytes@ =~= Seq::<u8>::empty());
                }
                parts_view(Value::Binary(bytes));
            }
            let n: i32 = put_value(last, d, key, Value::Binary(bytes));
            if n == 0 {
                last.clear_last_error();
            }
            n
        },
    }
}

/// Puts the fields of a document under a key of another.
pub fn fl_doc_insert_doc(last: &mut LastError, parent: &mut FL_Doc, key: Option<&[u8]>, child: &FL_Doc) -> (n: i32)
    ensures
        inserted(*old(parent), *final(parent), key, Val::Object(child.doc@.fields), old(last)@, final(last)@, n),
{
    let v = Value::Object(copy_fields(&child.doc.fields));
    proof {
        parts_view(v);
    }
    put_value(last, parent, key, v)
}

/// Puts a list under a key of a document. The list is used up.
pub fn fl_doc_insert_array(last: &mut LastError, doc: &mut FL_Doc, key: Option<&[u8]>, array: FL_Array) -> (n: i32)
    ensures
        inserted(*old(doc), *final(doc), key, Val::Array(items_view(array.items@)), old(last)@, final(last)@, n),
{
    let v = Value::Array(array.items);
    proof {
        parts_view(v);
    }
    put_value(last, doc, key, v)
}

/// Puts a reference to a document under a key of a document.
pub fn fl_doc_insert_reference(
    last: &mut LastError,
    doc: Option<&mut FL_Doc>,
    key: Option<&[u8]>,
    target_collection: Option<&[u8]>,
    target_id: Option<&[u8]>,
) -> (n: i32)
    ensures
        doc is None ==> n == -1 && final(last)@ == old(last)@,
        doc matches Some(d) ==> match (arg_text(key), arg_text(target_collection), arg_text(target_id)) {
            (Err(m), _, _) => failed(n, final(last)@, m) && *final(d) == *d,
            (_, Err(m), _) => failed(n, final(last)@, m) && *final(d) == *d,
            (_, _, Err(m)) => failed(n, final(last)@, m) && *final(d) == *d,
            (Ok(k), Ok(c), Ok(i)) => inserted(
                *d,
                *final(d),
                key,
                Val::Reference { collection: c, doc_id: i },
                old(last)@,
                final(last)@,
                n,
            ),
        },
{
    match doc {
        None => -1,
        Some(d) => match cstr_to_string(key) {
            Err(e) => last.set_last_error(e.as_str()),
            Ok(k) => match cstr_to_string(target_collection) {
                Err(e) => last.set_last_error(e.as_str()),
                Ok(collection) => match cstr_to_string(target_id) {
                    Err(e) => last.set_last_error(e.as_str()),
                    Ok(doc_id) => {
                        d.doc.insert(k, Value::Reference { collection, doc_id });
                        0
                    },
                },
            },
        },
    }
}

/// Puts the values of a collection's blob file in place of the links of a document.
pub fn fl_doc_resolve_blobs(
    last: &mut LastError,
    engine: Option<&mut Hako>,
    collection: Option<&[u8]>,
    doc: Option<&mut FL_Doc>,
    reads: &FileReads,
) -> (n: i32)
    requires
        engine matches Some(db) ==> db.wf(),
        reads.wf(),
    ensures
        engine is None || doc is None ==> {
            &&& failed(n, final(last)@, "null engine/doc handle"@)
            &&& engine matches Some(db) ==> *final(db) == *db
            &&& doc matches Some(d) ==> *final(d) == *d
        },
        engine matches Some(db) ==> doc matches Some(d) ==> match arg_text(collection) {
            Err(m) => failed(n, final(last)@, m) && *final(db) == *db && *final(d) == *d,
            Ok(c) => {
                &&& final(db).wf()
                &&& shard_opened(*db, *final(db), c)
                &&& match resolved_doc(
                    d.doc@,
                    final(db).shards@[c].blob_end is Some,
                    works_view(final(db).shards@[c].blob_flush_queue@),
                    reads.blobs@,
                ) {
                    Some(x) => n == 0 && final(last)@ == old(last)@ && final(d).id == d.id && final(d).doc@ == x,
                    None => {
                        &&& exists|e: HakoError| #[trigger]
                            unresolved(e, final(db).shards@[c].blob_end is Some) && failed(n, final(last)@, error_words(e))
                        &&& final(d).id == d.id
                        &&& final(d).doc@ == attempted_doc(
                            d.doc@,
                            final(db).shards@[c].blob_end is Some,
                            works_view(final(db).shards@[c].blob_flush_queue@),
                            reads.blobs@,
                        )
                    },
                }
            },
        },
{
    match (engine, doc) {
        (Some(db), Some(d)) => match cstr_to_string(collection) {
            Err(e) => last.set_last_error(e.as_str()),
            Ok(c) => match db.resolve_document_blobs(&mut d.doc, c.as_str(), reads) {
                Ok(_) => 0,
                Err(e) => last.set_error(&e),
            },
        },
        _ => last.set_last_error("null engine/doc handle"),
    }
}

/// A document as a JSON text. `floats` holds the texts of the finite floating-point numbers
/// in it.
pub fn fl_doc_to_json(last: &mut LastError, doc: Option<&FL_Doc>, floats: &FloatTexts) -> (r: Option<String>)
    requires
        floats.wf(),
    ensures
        match doc {
            None => r is None && final(last)@ == Some("null doc handle"@),
            Some(d) => r matches Some(s) && s@ == doc_text(d.doc@, floats@) && final(last)@ is None,
        },
{
    match doc {
        None => {
            let n: i32 = last.set_last_error("null doc handle");
            proof {
                reveal_strlit("null doc handle");
            }
            None
        },
        Some(d) => {
            last.clear_last_error();
            Some(doc_to_json(&d.doc, floats))
        },
    }
}

/// An empty list.
pub fn fl_array_new() -> (a: FL_Array)
    ensures
        a.items@.len() == 0,
{
    FL_Array { items: Vec::new() }
}

/// Appends a text to a list.
pub fn fl_array_append_str(last: &mut LastError, array: &mut FL_Array, value: Option<&[u8]>) -> (n: i32)
    ensures
        match arg_text(value) {
            Err(m) => failed(n, final(last)@, m) && *final(array) == *old(array),
            Ok(s) => {
                &&& n == 0
                &&& final(last)@ == old(last)@
                &&& items_view(final(array).items@) == items_view(old(array).items@).push(Val::String(s))
            },
        },
{
    match cstr_to_string(value) {
        Err(e) => last.set_last_error(e.as_str()),
        Ok(s) => {
            let ghost before = array.items@;
            let v = Value::String(s);
            let ghost m = v@;
            array.items.push(v);
            proof {
                assert(items_view(array.items@) =~= items_view(before).push(m));
            }
            0
        },
    }
}

/// Appends an integer to a list.
pub fn fl_array_append_int(array: &mut FL_Array, value: i64) -> (n: i32)
    ensures
        n == 0,
        items_view(final(array).items@) == items_view(old(array).items@).push(Val::Int(value)),
{
    let ghost before = array.items@;
    array.items.push(Value::Int(value));
    proof {
        assert(items_view(array.items@) =~= items_view(before).push(Val::Int(value)));
    }
    0
}

/// Appends the fields of a document to a list.
pub fn fl_array_append_doc(last: &mut LastError, array: Option<&mut FL_Array>, doc: Option<&FL_Doc>) -> (n: i32)
    ensures
        array is None || doc is None ==> failed(n, final(last)@, "null array or doc handle"@),
        array matches Some(a) ==> match doc {
            None => *final(a) == *a,
            Some(d) => {
                &&& succeeded(n, final(last)@)
                &&& items_view(final(a).items@) == items_view(a.items@).push(Val::Object(d.doc@.fields))
            },
        },
{
    match (array, doc) {
        (Some(a), Some(d)) => {
            let ghost before = a.items@;
            let v = Value::Object(copy_fields(&d.doc.fields));
            proof {
                parts_view(v);
            }
            let ghost m = v@;
            a.items.push(v);
            proof {
                assert(items_view(a.items@) =~= items_view(before).push(m));
            }
            last.clear_last_error();
            0
        },
        _ => last.set_last_error("null array or doc handle"),
    }
}

/// What a set of documents stands for.
pub open spec fn set_docs(s: Seq<FL_Doc>) -> Seq<Doc> {
    Seq::new(s.len(), |i: int| s[i].doc@)
}

/// How many documents a query found.
pub fn fl_result_set_count(results: Option<&FL_ResultSet>) -> (n: usize)
    ensures
        n == (match results {
            Some(rs) => rs.docs@.len(),
            None => 0,
        }),
{
    match results {
        Some(rs) => rs.docs.len(),
        None => 0,
    }
}

/// One of the documents that a query found.
pub fn fl_result_set_get_doc(results: Option<&FL_ResultSet>, index: usize) -> (d: Option<&FL_Doc>)
    ensures
        match results {
            Some(rs) => if index < rs.docs@.len() {
                d == Some(&rs.docs@[index as int])
            } else {
                d is None
            },
            None => d is None,
        },
{
    match results {
        Some(rs) => if index < rs.docs.len() {
            Some(&rs.docs[index])
        } else {
            None
        },
        None => None,
    }
}

/// What a query found as a JSON list: the texts of all documents with commas between.
pub fn fl_result_set_to_json(last: &mut LastError, results: Option<&FL_ResultSet>, floats: &FloatTexts) -> (r: Option<String>)
    requires
        floats.wf(),
    ensures
        match results {
            None => r is None && final(last)@ == Some("null result set handle"@),
            Some(rs) => {
                &&& r matches Some(s) && s@ == "["@ + docs_text(set_docs(rs.docs@), floats@) + "]"@
                &&& final(last)@ is None
            },
        },
{
    match results {
        None => {
            let n: i32 = last.set_last_error("null result set handle");
            proof {
                reveal_strlit("null result set handle");
            }
            None
        },
        Some(rs) => {
            let ghost m = set_docs(rs.docs@);
            let mut out = "[".to_owned();
            let mut i: usize = 0;
            proof {
                assert(m.take(0) =~= Seq::<Doc>::empty());
                assert("["@ + docs_text(m.take(0), floats@) =~= "["@);
            }
            while i < rs.docs.len()
                invariant
                    floats.wf(),
                    m == set_docs(rs.docs@),
                    i <= rs.docs@.len(),
                    out@ == "["@ + docs_text(m.take(i as int), floats@),
                decreases rs.docs@.len() - i,
            {
                if i > 0 {
                    out.append(",");
                }
                let t = doc_to_json(&rs.docs[i].doc, floats);
                out.append(t.as_str());
                proof {
                    let k = m.take(i + 1);
                    assert(k.drop_last() =~= m.take(i as int));
                    assert(k.last() == m[i as int]);
                    assert(out@ =~= "["@ + docs_text(k, floats@));
                }
                i = i + 1;
            }
            out.append("]");
            proof {
                assert(m.take(i as int) =~= m);
            }
            last.clear_last_error();
            Some(out)
        },
    }
}

} // verus!
