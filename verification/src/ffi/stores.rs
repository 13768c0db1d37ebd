//! Stores, batches and transactions in the hands of callers.
use vstd::prelude::*;
use vstd::string::*;

use crate::config::{default_settings, HakoConfig};
use crate::directory::NameTable;
use crate::document::firelite_doc::{names_view, Doc, FireLiteDoc};
use crate::document::json::{
    entries_view, find_entry, json_parts_view, list_view, lookup, Js, Json, JsonNumber,
};
use crate::document::json_read::{json_items, parse_items};
use crate::document::json_text::{docs_text, js_text, json_to_text, FloatTexts};
use crate::document::value::Val;
use crate::engine::catalog::{
    composite_index_made, composite_listing, field_index_made, fts_index_made, listing,
};
use crate::engine::collections::{list_collections, stats_of, visible_of};
use crate::engine::engine::{audit_line, audit_view, audited, AuditLine, batch_done, batch_line, env_of, outcome_is, Hako, Outcome};
use crate::engine::files::{files_wf, FileReads};
use crate::engine::ids::subcollection;
use crate::engine::marks::{released, slot};
use crate::engine::recovery::{opened_with, PersistedIndexState};
use crate::engine::scope::{answered, deleted_here, figured, nothing_done, row_ids};
use crate::engine::store::{
    deletions, got, marks_written, patched, patches, tombstones_gone, unchanged, with_marks, written,
};
use crate::engine::transaction::SerializableTransaction;
use crate::engine::types::{wishes, AccessOp, AuditEntry, BatchMutation, IndexList, Wish};
use crate::engine::versions::version_of;
use crate::engine::write::staged;
use crate::error::{error_message, HakoError};
use crate::ffi::documents::{fl_result_set_to_json, set_docs, FL_Doc, FL_ResultSet};
use crate::ffi::last_error::{arg_text, cstr_to_string, error_words, failed, succeeded, told, LastError};
use crate::ffi::queries::FL_Query;
use crate::ffi::settings::FL_Config;
use crate::index::composite::definition::{pairs, SortDirection};
use crate::util::sort::sorted_from;

verus! {

/// A store that is open.
#[allow(non_camel_case_types)]
pub struct FL_Engine {
    pub db: Hako,
}

/// Changes that are to be made together.
#[allow(non_camel_case_types)]
pub struct FL_Batch {
    pub ops: Vec<BatchMutation>,
}

/// Changes that are to be made together if what was read for them has not changed.
#[allow(non_camel_case_types)]
pub struct FL_Transaction {
    pub tx: SerializableTransaction,
}

/// What a call tells of a write: a number with what was written, or a failure. `kept` is the
/// last error where it went well.
pub open spec fn reported(
    r: (i32, Option<Outcome>),
    res: Result<Outcome, HakoError>,
    count: i32,
    kept: Option<Seq<char>>,
    error: Option<Seq<char>>,
) -> bool {
    match res {
        Ok(o) => r == (count, Some(o)) && error == kept,
        Err(e) => failed(r.0, error, error_words(e)) && r.1 is None,
    }
}

/// A call that failed before it wrote anything.
pub open spec fn refused(r: (i32, Option<Outcome>), error: Option<Seq<char>>, message: Seq<char>) -> bool {
    failed(r.0, error, message) && r.1 is None
}

/// A store after changes, and what a call tells of them.
pub open spec fn wrote(
    a: Hako,
    b: Hako,
    files: Map<Seq<char>, FileReads>,
    nanos: i64,
    w: Seq<Wish>,
    r: (i32, Option<Outcome>),
    count: i32,
    kept: Option<Seq<char>>,
    error: Option<Seq<char>>,
) -> bool {
    exists|res: Result<Outcome, HakoError>| #[trigger]
        written(a, b, files, nanos, w, res) && reported(r, res, count, kept, error)
}

/// Tells of a write.
fn report(last: &mut LastError, res: Result<Outcome, HakoError>, count: i32, clear: bool) -> (r: (i32, Option<Outcome>))
    ensures
        reported(
            r,
            res,
            count,
            if clear {
                None
            } else {
                old(last)@
            },
            final(last)@,
        ),
{
    match res {
        Ok(o) => {
            if clear {
                last.clear_last_error();
            }
            (count, Some(o))
        },
        Err(e) => {
            let n: i32 = last.set_error(&e);
            (n, None)
        },
    }
}

/// A call that failed before it wrote anything.
fn refuse(last: &mut LastError, message: &str) -> (r: (i32, Option<Outcome>))
    ensures
        refused(r, final(last)@, message@),
{
    let n: i32 = last.set_last_error(message);
    (n, None)
}

/// Opens a store. `defs` and `marks` were read from its files.
pub fn fl_engine_open_with_config(
    last: &mut LastError,
    path: Option<&[u8]>,
    config: Option<FL_Config>,
    defs: Option<&PersistedIndexState>,
    marks: Option<&FireLiteDoc>,
) -> (r: Option<FL_Engine>)
    ensures
        match (arg_text(path), config) {
            (Err(m), _) => r is None && final(last)@ == Some(told(m)),
            (Ok(_), None) => r is None && final(last)@ == Some(told("Null config provided"@)),
            (Ok(_), Some(c)) => {
                &&& final(last)@ is None
                &&& r matches Some(e) && opened_with(e.db, c.inner, defs, marks)
            },
        },
{
    match cstr_to_string(path) {
        Err(e) => {
            let n: i32 = last.set_last_error(e.as_str());
            None
        },
        Ok(_) => match config {
            None => {
                let n: i32 = last.set_last_error("Null config provided");
                None
            },
            Some(c) => {
                last.clear_last_error();
                Some(FL_Engine { db: Hako::open(c.inner, defs, marks) })
            },
        },
    }
}

/// Opens a store with the default settings.
pub fn fl_engine_open(
    last: &mut LastError,
    path: Option<&[u8]>,
    defs: Option<&PersistedIndexState>,
    marks: Option<&FireLiteDoc>,
) -> (r: Option<FL_Engine>)
    ensures
        match arg_text(path) {
            Err(m) => r is None && final(last)@ == Some(told(m)),
            Ok(_) => {
                &&& final(last)@ is None
                &&& r matches Some(e) && default_settings(e.db.config) && opened_with(
                    e.db,
                    e.db.config,
                    defs,
                    marks,
                )
            },
        },
{
    let config = HakoConfig::default();
    fl_engine_open_with_config(last, path, Some(FL_Config { inner: config }), defs, marks)
}

/// Whether the indexes of a store have been brought back.
pub fn fl_engine_is_indexes_ready(engine: Option<&FL_Engine>) -> (r: bool)
    ensures
        r == (engine matches Some(e) && e.db.indexes_ready),
{
    match engine {
        None => false,
        Some(e) => e.db.is_indexes_ready(),
    }
}

/// Puts a document.
pub fn fl_engine_insert(
    last: &mut LastError,
    engine: Option<&mut FL_Engine>,
    collection: Option<&[u8]>,
    doc_id: Option<&[u8]>,
    doc: Option<&FL_Doc>,
    now_nanos: i64,
) -> (r: (i32, Option<Outcome>))
    requires
        engine matches Some(e) ==> e.db.wf(),
        now_nanos >= 0,
    ensures
        engine is None || doc is None ==> refused(r, final(last)@, "null engine/doc handle"@),
        engine matches Some(e) ==> match (doc, arg_text(collection), arg_text(doc_id)) {
            (None, _, _) => *final(e) == *e,
            (Some(_), Err(m), _) => refused(r, final(last)@, m) && *final(e) == *e,
            (Some(_), _, Err(m)) => refused(r, final(last)@, m) && *final(e) == *e,
            (Some(d), Ok(c), Ok(i)) => final(e).db.wf() && wrote(
                e.db,
                final(e).db,
                Map::empty(),
                now_nanos,
                seq![Wish::Put { collection: c, id: i, doc: d.doc@ }],
                r,
                0,
                old(last)@,
                final(last)@,
            ),
        },
{
    match (engine, doc) {
        (Some(e), Some(d)) => match cstr_to_string(collection) {
            Err(m) => refuse(last, m.as_str()),
            Ok(c) => match cstr_to_string(doc_id) {
                Err(m) => refuse(last, m.as_str()),
                Ok(i) => {
                    let res = e.db.put(c.as_str(), i.as_str(), &d.doc, now_nanos);
                    report(last, res, 0, false)
                },
            },
        },
        _ => refuse(last, "null engine/doc handle"),
    }
}

/// Puts a document. The document is used up.
pub fn fl_engine_insert_take(
    last: &mut LastError,
    engine: Option<&mut FL_Engine>,
    collection: Option<&[u8]>,
    doc_id: Option<&[u8]>,
    doc: Option<FL_Doc>,
    now_nanos: i64,
) -> (r: (i32, Option<Outcome>))
    requires
        engine matches Some(e) ==> e.db.wf(),
        now_nanos >= 0,
    ensures
        engine is None || doc is None ==> refused(r, final(last)@, "null engine/doc handle"@),
        engine matches Some(e) ==> match (doc, arg_text(collection), arg_text(doc_id)) {
            (None, _, _) => *final(e) == *e,
            (Some(_), Err(m), _) => refused(r, final(last)@, m) && *final(e) == *e,
            (Some(_), _, Err(m)) => refused(r, final(last)@, m) && *final(e) == *e,
            (Some(d), Ok(c), Ok(i)) => final(e).db.wf() && wrote(
                e.db,
                final(e).db,
                Map::empty(),
                now_nanos,
                seq![Wish::Put { collection: c, id: i, doc: d.doc@ }],
                r,
                0,
                old(last)@,
                final(last)@,
            ),
        },
{
    match (engine, doc) {
        (Some(e), Some(d)) => match cstr_to_string(collection) {
            Err(m) => refuse(last, m.as_str()),
            Ok(c) => match cstr_to_string(doc_id) {
                Err(m) => refuse(last, m.as_str()),
                Ok(i) => {
                    let res = e.db.put_owned(c.as_str(), i.as_str(), d.doc, now_nanos);
                    report(last, res, 0, false)
                },
            },
        },
        _ => refuse(last, "null engine/doc handle"),
    }
}

/// What a read hands to a caller: the document with an id, where it was found.
pub open spec fn handed(r: Option<FL_Doc>, row: Result<Option<FireLiteDoc>, HakoError>, id: Seq<char>) -> bool {
    match row {
        Ok(Some(d)) => r matches Some(x) && x.id@ == id && x.doc@ == d@,
        _ => r is None,
    }
}

/// A read of a document, and what a caller gets of it.
pub open spec fn read_for(
    a: Hako,
    b: Hako,
    reads: FileReads,
    c: Seq<char>,
    id: Seq<char>,
    r: Option<FL_Doc>,
) -> bool {
    exists|row: Result<Option<FireLiteDoc>, HakoError>| #[trigger] got(a, b, reads, c, id, row) && handed(r, row, id)
}

/// Reads a document.
pub fn fl_engine_get(
    last: &mut LastError,
    engine: Option<&mut FL_Engine>,
    collection: Option<&[u8]>,
    doc_id: Option<&[u8]>,
    reads: &FileReads,
) -> (r: Option<FL_Doc>)
    requires
        engine matches Some(e) ==> e.db.wf(),
        reads.wf(),
    ensures
        engine is None ==> r is None && final(last)@ == Some(told("null engine handle"@)),
        engine matches Some(e) ==> match (collection, doc_id, arg_text(collection), arg_text(doc_id)) {
            (None, _, _, _) => r is None && final(last)@ == Some(told("null collection handle"@)) && *final(e) == *e,
            (_, None, _, _) => r is None && final(last)@ == Some(told("null doc_id handle"@)) && *final(e) == *e,
            (_, _, Ok(c), Ok(i)) => {
                &&& final(e).db.wf()
                &&& final(last)@ == old(last)@
                &&& read_for(e.db, final(e).db, *reads, c, i, r)
            },
            _ => r is None && final(last)@ == Some(told("invalid utf8"@)) && *final(e) == *e,
        },
{
    match engine {
        None => {
            let n: i32 = last.set_last_error("null engine handle");
            None
        },
        Some(e) => {
            if collection.is_none() {
                let n: i32 = last.set_last_error("null collection handle");
                return None;
            }
            if doc_id.is_none() {
                let n: i32 = last.set_last_error("null doc_id handle");
                return None;
            }
            match (cstr_to_string(collection), cstr_to_string(doc_id)) {
                (Ok(c), Ok(i)) => {
                    let ghost a = e.db;
                    let row = e.db.get(c.as_str(), i.as_str(), reads);
                    let ghost g = row;
                    let r = match row {
                        Ok(Some(doc)) => Some(FL_Doc { id: i, doc }),
                        _ => None,
                    };
                    proof {
                        assert(got(a, e.db, *reads, c@, i@, g) && handed(r, g, i@));
                    }
                    r
                },
                _ => {
                    let n: i32 = last.set_last_error("invalid utf8");
                    None
                },
            }
        },
    }
}

/// Deletes a document.
pub fn fl_engine_delete(
    last: &mut LastError,
    engine: Option<&mut FL_Engine>,
    collection: Option<&[u8]>,
    doc_id: Option<&[u8]>,
    now_nanos: i64,
    files: &NameTable<FileReads>,
) -> (r: (i32, Option<Outcome>))
    requires
        engine matches Some(e) ==> e.db.wf(),
        files_wf(*files),
        now_nanos >= 0,
    ensures
        engine is None ==> refused(r, final(last)@, "null engine handle"@),
        engine matches Some(e) ==> match (arg_text(collection), arg_text(doc_id)) {
            (Err(m), _) => refused(r, final(last)@, m) && *final(e) == *e,
            (_, Err(m)) => refused(r, final(last)@, m) && *final(e) == *e,
            (Ok(c), Ok(i)) => final(e).db.wf() && wrote(
                e.db,
                final(e).db,
                files@,
                now_nanos,
                seq![Wish::Delete { collection: c, id: i }],
                r,
                0,
                None,
                final(last)@,
            ),
        },
{
    match engine {
        None => refuse(last, "null engine handle"),
        Some(e) => match cstr_to_string(collection) {
            Err(m) => refuse(last, m.as_str()),
            Ok(c) => match cstr_to_string(doc_id) {
                Err(m) => refuse(last, m.as_str()),
                Ok(i) => {
                    let res = e.db.delete(c.as_str(), i.as_str(), now_nanos, files);
                    report(last, res, 0, true)
                },
            },
        },
    }
}

/// Documents that were marked as ones that stay on this device and deleted, and what a call
/// tells of it. `r.2` is what was written of the marks.
pub open spec fn deleted_for(
    a: Hako,
    b: Hako,
    files: Map<Seq<char>, FileReads>,
    nanos: i64,
    c: Seq<char>,
    ids: Seq<Seq<char>>,
    r: (i32, Option<Outcome>, Option<Outcome>),
    count: i32,
    error: Option<Seq<char>>,
) -> bool {
    exists|first: Result<Outcome, HakoError>, second: Result<Outcome, HakoError>|
        #![trigger deleted_here(a, b, files, nanos, c, ids, (first, second))]
        deleted_here(a, b, files, nanos, c, ids, (first, second)) && reported((r.0, r.1), second, count, None, error)
            && r.2 == ok_of(first)
}

/// What a result holds where it went well.
pub open spec fn ok_of(r: Result<Outcome, HakoError>) -> Option<Outcome> {
    match r {
        Ok(o) => Some(o),
        Err(_) => None,
    }
}

/// Tells of deletions that stay on this device.
fn report_local(last: &mut LastError, res: (Result<Outcome, HakoError>, Result<Outcome, HakoError>), count: i32) -> (r: (
    i32,
    Option<Outcome>,
    Option<Outcome>,
))
    ensures
        reported((r.0, r.1), res.1, count, None, final(last)@),
        r.2 == ok_of(res.0),
{
    let (first, second) = res;
    let marks = match first {
        Ok(o) => Some(o),
        Err(_) => None,
    };
    let (n, o): (i32, Option<Outcome>) = report(last, second, count, true);
    (n, o, marks)
}

/// Deletes a document on this device alone.
pub fn fl_engine_delete_local(
    last: &mut LastError,
    engine: Option<&mut FL_Engine>,
    collection: Option<&[u8]>,
    doc_id: Option<&[u8]>,
    now_nanos: i64,
    files: &NameTable<FileReads>,
) -> (r: (i32, Option<Outcome>, Option<Outcome>))
    requires
        engine matches Some(e) ==> e.db.wf(),
        files_wf(*files),
        now_nanos >= 0,
    ensures
        engine is None ==> refused((r.0, r.1), final(last)@, "null engine handle"@) && r.2 is None,
        engine matches Some(e) ==> match (arg_text(collection), arg_text(doc_id)) {
            (Err(m), _) => refused((r.0, r.1), final(last)@, m) && r.2 is None && *final(e) == *e,
            (_, Err(m)) => refused((r.0, r.1), final(last)@, m) && r.2 is None && *final(e) == *e,
            (Ok(c), Ok(i)) => final(e).db.wf() && deleted_for(
                e.db,
                final(e).db,
                files@,
                now_nanos,
                c,
                seq![i],
                r,
                0,
                final(last)@,
            ),
        },
{
    match engine {
        None => {
            let n: i32 = last.set_last_error("null engine handle");
            (n, None, None)
        },
        Some(e) => match cstr_to_string(collection) {
            Err(m) => {
                let n: i32 = last.set_last_error(m.as_str());
                (n, None, None)
            },
            Ok(c) => match cstr_to_string(doc_id) {
                Err(m) => {
                    let n: i32 = last.set_last_error(m.as_str());
                    (n, None, None)
                },
                Ok(i) => {
                    let ghost a = e.db;
                    let res = e.db.delete_local(c.as_str(), i.as_str(), now_nanos, files);
                    let ghost (first, second) = res;
                    let r = report_local(last, res, 0);
                    proof {
                        assert(deleted_here(a, e.db, files@, now_nanos, c@, seq![i@], (first, second)));
                    }
                    r
                },
            },
        },
    }
}

/// Marks a collection as one that stays on this device, or takes the mark away.
pub fn fl_engine_set_collection_local(
    last: &mut LastError,
    engine: Option<&mut FL_Engine>,
    collection: Option<&[u8]>,
    local: i32,
    now_nanos: i64,
) -> (r: (i32, Option<Outcome>))
    requires
        engine matches Some(e) ==> e.db.wf(),
        now_nanos >= 0,
    ensures
        engine is None ==> refused(r, final(last)@, "null engine handle"@),
        engine matches Some(e) ==> match arg_text(collection) {
            Err(m) => refused(r, final(last)@, m) && *final(e) == *e,
            Ok(c) => {
                &&& final(e).db.wf()
                &&& succeeded(r.0, final(last)@)
                &&& final(e).db.marks@.collections == (if local != 0 {
                    e.db.marks@.collections.insert(c)
                } else {
                    e.db.marks@.collections.remove(c)
                })
                &&& final(e).db.marks@.documents == e.db.marks@.documents
                &&& marks_kept(e.db, final(e).db, now_nanos, r.1)
            },
        },
{
    match engine {
        None => refuse(last, "null engine handle"),
        Some(e) => match cstr_to_string(collection) {
            Err(m) => refuse(last, m.as_str()),
            Ok(c) => {
                let ghost before = e.db;
                let res = e.db.set_collection_local(c.as_str(), local != 0, now_nanos);
                settle(last, res, Ghost(before), Ghost(e.db), now_nanos)
            },
        },
    }
}

/// `b` is the store `a` with other marks, which were written; `o` is what was written.
pub open spec fn marks_kept(a: Hako, b: Hako, nanos: i64, o: Option<Outcome>) -> bool {
    exists|res: Result<Outcome, HakoError>| #[trigger]
        marks_written(with_marks(a, b.marks), b, nanos, res) && o == ok_of(res)
}

/// Tells of marks that were written, as well as could be.
fn settle(
    last: &mut LastError,
    res: Result<Outcome, HakoError>,
    Ghost(a): Ghost<Hako>,
    Ghost(b): Ghost<Hako>,
    nanos: i64,
) -> (r: (i32, Option<Outcome>))
    requires
        marks_written(with_marks(a, b.marks), b, nanos, res),
    ensures
        succeeded(r.0, final(last)@),
        marks_kept(a, b, nanos, r.1),
{
    last.clear_last_error();
    match res {
        Ok(o) => (0, Some(o)),
        Err(_) => (0, None),
    }
}

/// Lets a document replicate again.
pub fn fl_engine_replicate_key(
    last: &mut LastError,
    engine: Option<&mut FL_Engine>,
    collection: Option<&[u8]>,
    doc_id: Option<&[u8]>,
    now_nanos: i64,
) -> (r: (i32, Option<Outcome>))
    requires
        engine matches Some(e) ==> e.db.wf(),
        now_nanos >= 0,
    ensures
        engine is None ==> refused(r, final(last)@, "null engine handle"@),
        engine matches Some(e) ==> match (arg_text(collection), arg_text(doc_id)) {
            (Err(m), _) => refused(r, final(last)@, m) && *final(e) == *e,
            (_, Err(m)) => refused(r, final(last)@, m) && *final(e) == *e,
            (Ok(c), Ok(i)) => {
                &&& final(e).db.wf()
                &&& succeeded(r.0, final(last)@)
                &&& final(e).db.marks@.collections == e.db.marks@.collections
                &&& final(e).db.marks@.documents == e.db.marks@.documents.remove(slot(c, i))
                &&& marks_kept(e.db, final(e).db, now_nanos, r.1)
            },
        },
{
    match engine {
        None => refuse(last, "null engine handle"),
        Some(e) => match cstr_to_string(collection) {
            Err(m) => refuse(last, m.as_str()),
            Ok(c) => match cstr_to_string(doc_id) {
                Err(m) => refuse(last, m.as_str()),
                Ok(i) => {
                    let ghost before = e.db;
                    let res = e.db.replicate_key(c.as_str(), i.as_str(), now_nanos);
                    settle(last, res, Ghost(before), Ghost(e.db), now_nanos)
                },
            },
        },
    }
}

/// Lets a collection and all its documents replicate again.
pub fn fl_engine_replicate_collection(
    last: &mut LastError,
    engine: Option<&mut FL_Engine>,
    collection: Option<&[u8]>,
    now_nanos: i64,
) -> (r: (i32, Option<Outcome>))
    requires
        engine matches Some(e) ==> e.db.wf(),
        now_nanos >= 0,
    ensures
        engine is None ==> refused(r, final(last)@, "null engine handle"@),
        engine matches Some(e) ==> match arg_text(collection) {
            Err(m) => refused(r, final(last)@, m) && *final(e) == *e,
            Ok(c) => {
                &&& final(e).db.wf()
                &&& succeeded(r.0, final(last)@)
                &&& final(e).db.marks@ == released(e.db.marks@, c)
                &&& marks_kept(e.db, final(e).db, now_nanos, r.1)
            },
        },
{
    match engine {
        None => refuse(last, "null engine handle"),
        Some(e) => match cstr_to_string(collection) {
            Err(m) => refuse(last, m.as_str()),
            Ok(c) => {
                let ghost before = e.db;
                let res = e.db.replicate_collection(c.as_str(), now_nanos);
                settle(last, res, Ghost(before), Ghost(e.db), now_nanos)
            },
        },
    }
}

/// Forgets the deleted documents of a collection. Hands back how many there were.
pub fn fl_engine_vacuum_collection(last: &mut LastError, engine: Option<&mut FL_Engine>, collection: Option<&[u8]>) -> (n: i32)
    requires
        engine matches Some(e) ==> e.db.wf(),
    ensures
        engine is None ==> failed(n, final(last)@, "null engine handle"@),
        engine matches Some(e) ==> match arg_text(collection) {
            Err(m) => failed(n, final(last)@, m) && *final(e) == *e,
            Ok(c) => {
                &&& final(e).db.wf()
                &&& final(last)@ is None
                &&& exists|count: usize| #[trigger] tombstones_gone(e.db, final(e).db, c, count) && n == count as i32
            },
        },
{
    match engine {
        None => last.set_last_error("null engine handle"),
        Some(e) => match cstr_to_string(collection) {
            Err(m) => last.set_last_error(m.as_str()),
            Ok(c) => {
                let count: usize = e.db.vacuum_collection(c.as_str());
                last.clear_last_error();
                count as i32
            },
        },
    }
}

/// Puts values under keys of a document: those of another document.
pub fn fl_engine_patch(
    last: &mut LastError,
    engine: Option<&mut FL_Engine>,
    collection: Option<&[u8]>,
    doc_id: Option<&[u8]>,
    updates: Option<&FL_Doc>,
    now_nanos: i64,
    files: &NameTable<FileReads>,
) -> (r: (i32, Option<Outcome>))
    requires
        engine matches Some(e) ==> e.db.wf(),
        files_wf(*files),
        now_nanos >= 0,
    ensures
        engine is None || updates is None ==> r.0 == -1 && r.1 is None && final(last)@ == old(last)@,
        engine matches Some(e) ==> match (updates, arg_text(collection), arg_text(doc_id)) {
            (None, _, _) => *final(e) == *e,
            (Some(_), Err(m), _) => refused(r, final(last)@, m) && *final(e) == *e,
            (Some(_), _, Err(m)) => refused(r, final(last)@, m) && *final(e) == *e,
            (Some(d), Ok(c), Ok(i)) => final(e).db.wf() && exists|res: Result<Outcome, HakoError>| #[trigger]
                patched(e.db, final(e).db, files@, now_nanos, c, i, d.doc@.fields, res) && reported(
                    r,
                    res,
                    0,
                    old(last)@,
                    final(last)@,
                ),
        },
{
    match (engine, updates) {
        (Some(e), Some(d)) => match cstr_to_string(collection) {
            Err(m) => refuse(last, m.as_str()),
            Ok(c) => match cstr_to_string(doc_id) {
                Err(m) => refuse(last, m.as_str()),
                Ok(i) => {
                    let ghost a = e.db;
                    let res = e.db.patch(c.as_str(), i.as_str(), &d.doc.fields, now_nanos, files);
                    let ghost g = res;
                    let r = report(last, res, 0, false);
                    proof {
                        assert(patched(a, e.db, files@, now_nanos, c@, i@, d.doc@.fields, g));
                    }
                    r
                },
            },
        },
        _ => (-1, None),
    }
}

/// The column that an item of a list asks for: its `field`, descending where `desc` is true.
pub open spec fn wished_column(j: Js) -> (Seq<char>, SortDirection) {
    match j {
        Js::Object(entries) => (
            match lookup(entries, "field"@) {
                Some(Js::Text(s)) => s,
                _ => Seq::empty(),
            },
            match lookup(entries, "desc"@) {
                Some(Js::Bool(true)) => SortDirection::Desc,
                _ => SortDirection::Asc,
            },
        ),
        _ => (Seq::empty(), SortDirection::Asc),
    }
}

/// The columns that the items of a list ask for.
pub open spec fn wished_columns(items: Seq<Js>) -> Seq<(Seq<char>, SortDirection)> {
    Seq::new(items.len(), |i: int| wished_column(items[i]))
}

/// The column that an item of a list asks for.
fn column_of(j: &Json) -> (c: (String, SortDirection))
    ensures
        (c.0@, c.1) == wished_column(j@),
{
    proof {
        json_parts_view(*j);
    }
    match j {
        Json::Object(entries) => {
            let name = match find_entry(entries, "field") {
                Some(f) => {
                    proof {
                        json_parts_view(*f);
                    }
                    match f {
                        Json::Text(s) => s.clone(),
                        _ => String::new(),
                    }
                },
                None => String::new(),
            };
            let direction = match find_entry(entries, "desc") {
                Some(d) => {
                    proof {
                        json_parts_view(*d);
                    }
                    match d {
                        Json::Bool(b) => if *b {
                            SortDirection::Desc
                        } else {
                            SortDirection::Asc
                        },
                        _ => SortDirection::Asc,
                    }
                },
                None => SortDirection::Asc,
            };
            (name, direction)
        },
        _ => (String::new(), SortDirection::Asc),
    }
}

/// Makes a composite index of the columns that the items of a list ask for, where there is a
/// list. Hands back its number, 0 where there is none, and whether it is to be filled.
pub fn create_index_of(engine: &mut FL_Engine, collection: Option<&[u8]>, fields: Option<&Vec<Json>>) -> (r: (u32, bool))
    requires
        old(engine).db.wf(),
        old(engine).db.indexes.composite.last_id() < u32::MAX,
    ensures
        final(engine).db.wf(),
        match (arg_text(collection), fields) {
            (Ok(c), Some(items)) => composite_index_made(
                old(engine).db,
                final(engine).db,
                c,
                wished_columns(list_view(items@)),
                r,
            ),
            _ => r == (0u32, false) && *final(engine) == *old(engine),
        },
{
    match (cstr_to_string(collection), fields) {
        (Ok(c), Some(items)) => {
            let mut list: Vec<(String, SortDirection)> = Vec::new();
            let mut i: usize = 0;
            while i < items.len()
                invariant
                    i <= items@.len(),
                    list@.len() == i,
                    forall|k: int| 0 <= k < i ==> #[trigger] pairs(list@)[k] == wished_columns(list_view(items@))[k],
                decreases items@.len() - i,
            {
                let ghost before = list@;
                list.push(column_of(&items[i]));
                proof {
                    assert forall|k: int| 0 <= k < i + 1 implies #[trigger] pairs(list@)[k] == wished_columns(list_view(items@))[k] by {
                        if k < i {
                            assert(pairs(before)[k] == wished_columns(list_view(items@))[k]);
                        }
                    }
                }
                i = i + 1;
            }
            proof {
                assert(pairs(list@) =~= wished_columns(list_view(items@)));
            }
            engine.db.create_composite_index(c.as_str(), list)
        },
        _ => (0, false),
    }
}

/// The values that a text in JSON holds, where one was handed over.
pub open spec fn given_items(text: Option<&[u8]>) -> Option<Seq<Js>> {
    match arg_text(text) {
        Ok(s) => json_items(s),
        Err(_) => None,
    }
}

/// Makes a composite index of the columns that a text in JSON lists. Hands back its number, 0
/// where there is none, and whether it is to be filled.
pub fn fl_engine_create_index(engine: &mut FL_Engine, collection: Option<&[u8]>, text: Option<&[u8]>) -> (r: (u32, bool))
    requires
        old(engine).db.wf(),
        old(engine).db.indexes.composite.last_id() < u32::MAX,
    ensures
        final(engine).db.wf(),
        match (arg_text(collection), given_items(text)) {
            (Ok(c), Some(items)) => composite_index_made(
                old(engine).db,
                final(engine).db,
                c,
                wished_columns(items),
                r,
            ),
            _ => r == (0u32, false) && *final(engine) == *old(engine),
        },
{
    let fields = match cstr_to_string(text) {
        Ok(s) => parse_items(s.as_str()),
        Err(_) => None,
    };
    create_index_of(engine, collection, fields.as_ref())
}

/// Makes an index of a field, unless there is one. Tells whether it is to be filled.
pub fn fl_engine_create_simple_index(engine: Option<&mut FL_Engine>, collection: Option<&[u8]>, field: Option<&[u8]>) -> (r: (
    i32,
    bool,
))
    requires
        engine matches Some(e) ==> e.db.wf(),
    ensures
        engine is None ==> r.0 == -1 && !r.1,
        engine matches Some(e) ==> match (arg_text(collection), arg_text(field)) {
            (Ok(c), Ok(f)) => r.0 == 0 && final(e).db.wf() && field_index_made(e.db, final(e).db, c, f, r.1),
            _ => r.0 == -1 && !r.1 && *final(e) == *e,
        },
{
    match engine {
        None => (-1, false),
        Some(e) => match (cstr_to_string(collection), cstr_to_string(field)) {
            (Ok(c), Ok(f)) => {
                let made: bool = e.db.create_index(c.as_str(), f.as_str());
                (0, made)
            },
            _ => (-1, false),
        },
    }
}

/// Makes a full-text index of a field. It is to be filled.
pub fn fl_engine_create_fts_index(engine: Option<&mut FL_Engine>, collection: Option<&[u8]>, field: Option<&[u8]>) -> (n: i32)
    requires
        engine matches Some(e) ==> e.db.wf(),
    ensures
        engine is None ==> n == -1,
        engine matches Some(e) ==> match (arg_text(collection), arg_text(field)) {
            (Ok(c), Ok(f)) => n == 0 && final(e).db.wf() && fts_index_made(e.db, final(e).db, c, f),
            _ => n == -1 && *final(e) == *e,
        },
{
    match engine {
        None => -1,
        Some(e) => match (cstr_to_string(collection), cstr_to_string(field)) {
            (Ok(c), Ok(f)) => {
                e.db.create_fts_index(c.as_str(), f.as_str());
                0
            },
            _ => -1,
        },
    }
}

/// The indexes of a collection, or of all where none is named.
pub fn fl_engine_list_indexes(last: &mut LastError, engine: Option<&FL_Engine>, collection: Option<&[u8]>) -> (r: Option<IndexList>)
    requires
        engine matches Some(e) ==> e.db.wf(),
    ensures
        match engine {
            None => r is None && final(last)@ == old(last)@,
            Some(e) => match (collection, arg_text(collection)) {
                (Some(_), Err(m)) => r is None && final(last)@ == Some(told(m)),
                (None, _) => {
                    &&& final(last)@ == old(last)@
                    &&& r matches Some(l) && indexes_listed(e.db, None, l)
                },
                (Some(_), Ok(c)) => {
                    &&& final(last)@ == old(last)@
                    &&& r matches Some(l) && indexes_listed(e.db, Some(c), l)
                },
            },
        },
{
    match engine {
        None => None,
        Some(e) => match collection {
            None => Some(e.db.list_indexes(None)),
            Some(_) => match cstr_to_string(collection) {
                Err(m) => {
                    let n: i32 = last.set_last_error(m.as_str());
                    None
                },
                Ok(c) => Some(e.db.list_indexes(Some(c.as_str()))),
            },
        },
    }
}

/// The indexes of a store that are asked for.
pub open spec fn indexes_listed(db: Hako, only: Option<Seq<char>>, l: IndexList) -> bool {
    &&& listing(db.indexes.secondary, only, l.simple@)
    &&& listing(db.indexes.secondary, only, l.secondary@)
    &&& listing(db.indexes.fts, only, l.fts@)
    &&& composite_listing(db.indexes.composite.indexes(), only, l.composite@)
}

/// Texts as a JSON value.
pub open spec fn text_list(names: Seq<Seq<char>>) -> Js {
    Js::List(Seq::new(names.len(), |i: int| Js::Text(names[i])))
}

/// The collections of a store as a JSON list. `dirs` are the directories of the store.
pub fn fl_engine_list_collections(last: &mut LastError, engine: Option<&FL_Engine>, dirs: &Vec<String>) -> (r: Option<String>)
    ensures
        match engine {
            None => r is None && final(last)@ == Some(told("null engine handle"@)),
            Some(_) => {
                &&& final(last)@ is None
                &&& r is Some
                &&& exists|names: Seq<Seq<char>>| #[trigger]
                    sorted_from(names, visible_of(names_view(dirs@))) && r->Some_0@ == js_text(
                        text_list(names),
                        Map::empty(),
                    )
            },
        },
{
    match engine {
        None => {
            let n: i32 = last.set_last_error("null engine handle");
            None
        },
        Some(_) => {
            let names = list_collections(dirs);
            let ghost m = names_view(names@);
            let mut items: Vec<Json> = Vec::new();
            let mut i: usize = 0;
            while i < names.len()
                invariant
                    i <= names@.len(),
                    items@.len() == i,
                    forall|k: int| 0 <= k < i ==> (#[trigger] items@[k])@ == Js::Text(names@[k]@),
                decreases names@.len() - i,
            {
                let j = Json::Text(names[i].clone());
                proof {
                    json_parts_view(j);
                }
                items.push(j);
                i = i + 1;
            }
            let j = Json::List(items);
            let floats = FloatTexts::new();
            proof {
                json_parts_view(j);
                assert(list_view(items@) =~= Seq::new(m.len(), |i: int| Js::Text(m[i])));
                assert(j@ == text_list(m));
                assert(floats@ =~= Map::<u64, String>::empty());
            }
            last.clear_last_error();
            Some(json_to_text(&j, &floats))
        },
    }
}

/// Puts a document into a collection inside another document.
pub fn fl_engine_insert_subdoc(
    last: &mut LastError,
    engine: &mut FL_Engine,
    col: Option<&[u8]>,
    id: Option<&[u8]>,
    sub_col: Option<&[u8]>,
    sub_id: Option<&[u8]>,
    doc: &FL_Doc,
    now_nanos: i64,
) -> (r: (i32, Option<Outcome>))
    requires
        old(engine).db.wf(),
        now_nanos >= 0,
    ensures
        final(engine).db.wf(),
        match (arg_text(col), arg_text(id), arg_text(sub_col), arg_text(sub_id)) {
            (Ok(_), Ok(i), Ok(sc), Ok(si)) => wrote(
                old(engine).db,
                final(engine).db,
                Map::empty(),
                now_nanos,
                seq![Wish::Put { collection: subcollection(i, sc), id: si, doc: doc.doc@ }],
                r,
                0,
                old(last)@,
                final(last)@,
            ),
            _ => r.0 == -1 && r.1 is None && final(last)@ == old(last)@ && *final(engine) == *old(engine),
        },
{
    match (cstr_to_string(col), cstr_to_string(id), cstr_to_string(sub_col), cstr_to_string(sub_id)) {
        (Ok(c), Ok(i), Ok(sc), Ok(si)) => {
            let res = engine.db.put_subdocument(c.as_str(), i.as_str(), sc.as_str(), si.as_str(), &doc.doc, now_nanos);
            report(last, res, 0, false)
        },
        _ => (-1, None),
    }
}

/// Reads the document that a field of another refers to. `reads` is what was read from the
/// files of its collection. It comes with the id of the document that refers to it.
pub fn fl_engine_get_by_ref(
    last: &mut LastError,
    engine: Option<&mut FL_Engine>,
    doc: Option<&FL_Doc>,
    field_key: Option<&[u8]>,
    reads: &FileReads,
) -> (r: Option<FL_Doc>)
    requires
        engine matches Some(e) ==> e.db.wf(),
        reads.wf(),
    ensures
        engine is None || doc is None || field_key is None ==> r is None && final(last)@ == old(last)@,
        engine matches Some(e) ==> match (doc, field_key, arg_text(field_key)) {
            (Some(d), Some(_), Err(m)) => r is None && final(last)@ == Some(told(m)) && *final(e) == *e,
            (Some(d), Some(_), Ok(k)) => if !d.doc@.map().contains_key(k) {
                r is None && final(last)@ == Some(told("Field not found in document"@)) && *final(e) == *e
            } else {
                final(e).db.wf() && followed(e.db, final(e).db, *reads, d.doc@.map()[k], d.id@, r, old(last)@, final(last)@)
            },
            _ => *final(e) == *e,
        },
{
    match (engine, doc, field_key) {
        (Some(e), Some(d), Some(_)) => match cstr_to_string(field_key) {
            Err(m) => {
                let n: i32 = last.set_last_error(m.as_str());
                None
            },
            Ok(k) => match d.doc.get(k.as_str()) {
                None => {
                    let n: i32 = last.set_last_error("Field not found in document");
                    None
                },
                Some(v) => {
                    let ghost a = e.db;
                    let row = e.db.get_by_reference(v, reads);
                    let ghost g = row;
                    let r = match row {
                        Ok(Some(target)) => Some(FL_Doc { id: d.id.clone(), doc: target }),
                        Ok(None) => None,
                        Err(x) => {
                            let n: i32 = last.set_error(&x);
                            None
                        },
                    };
                    proof {
                        assert(reference_read(a, e.db, *reads, v@, g));
                    }
                    r
                },
            },
        },
        _ => None,
    }
}

/// A read of the document that a value refers to.
pub open spec fn reference_read(
    a: Hako,
    b: Hako,
    reads: FileReads,
    v: Val,
    row: Result<Option<FireLiteDoc>, HakoError>,
) -> bool {
    match v {
        Val::Reference { collection, doc_id } => got(a, b, reads, collection, doc_id, row),
        _ => {
            &&& b == a
            &&& row matches Err(e) && e is Corrupt && error_message(e) == "Not ref"@
        },
    }
}

/// A read of the document that a value refers to, and what a caller gets of it.
pub open spec fn followed(
    a: Hako,
    b: Hako,
    reads: FileReads,
    v: Val,
    id: Seq<char>,
    r: Option<FL_Doc>,
    kept: Option<Seq<char>>,
    error: Option<Seq<char>>,
) -> bool {
    exists|row: Result<Option<FireLiteDoc>, HakoError>|
        {
            &&& #[trigger] reference_read(a, b, reads, v, row)
            &&& handed(r, row, id)
            &&& error == (match row {
                Ok(_) => kept,
                Err(e) => Some(told(error_words(e))),
            })
        }
}

/// Deletes the documents that a query found. Hands back how many.
pub fn fl_query_delete(
    last: &mut LastError,
    engine: Option<&mut FL_Engine>,
    query: Option<&FL_Query>,
    rows: &Vec<(String, FireLiteDoc)>,
    now_nanos: i64,
    files: &NameTable<FileReads>,
) -> (r: (i32, Option<Outcome>))
    requires
        engine matches Some(e) ==> e.db.wf(),
        files_wf(*files),
        now_nanos >= 0,
    ensures
        engine is None || query is None ==> r.0 == -1 && r.1 is None && final(last)@ == old(last)@,
        engine matches Some(e) ==> match query {
            None => *final(e) == *e,
            Some(q) => final(e).db.wf() && changed_found(
                e.db,
                final(e).db,
                files@,
                now_nanos,
                deletions(q.query.collection@, row_ids(rows@)),
                r,
                final(last)@,
            ),
        },
{
    match (engine, query) {
        (Some(e), Some(q)) => {
            let ghost a = e.db;
            let count: usize = rows.len();
            let res = e.db.delete_where(q.query.collection.as_str(), rows, now_nanos, files);
            let ghost g = res;
            let ghost w = deletions(q.query.collection@, row_ids(rows@));
            proof {
                assert(found_written(a, e.db, files@, now_nanos, w, g));
            }
            report(last, res, count as i32, true)
        },
        _ => (-1, None),
    }
}

/// Changes to the documents that a query found; nothing where it found none.
pub open spec fn found_written(
    a: Hako,
    b: Hako,
    files: Map<Seq<char>, FileReads>,
    nanos: i64,
    w: Seq<Wish>,
    res: Result<Outcome, HakoError>,
) -> bool {
    if w.len() == 0 {
        nothing_done(a, b, res)
    } else {
        written(a, b, files, nanos, w, res)
    }
}

/// Changes to the documents that a query found, and what a call tells of them.
pub open spec fn changed_found(
    a: Hako,
    b: Hako,
    files: Map<Seq<char>, FileReads>,
    nanos: i64,
    w: Seq<Wish>,
    r: (i32, Option<Outcome>),
    error: Option<Seq<char>>,
) -> bool {
    exists|res: Result<Outcome, HakoError>| #[trigger]
        found_written(a, b, files, nanos, w, res) && reported(r, res, w.len() as i32, None, error)
}

/// Deletes the documents that a query found on this device alone. Hands back how many.
pub fn fl_query_delete_local(
    last: &mut LastError,
    engine: Option<&mut FL_Engine>,
    query: Option<&FL_Query>,
    rows: &Vec<(String, FireLiteDoc)>,
    now_nanos: i64,
    files: &NameTable<FileReads>,
) -> (r: (i32, Option<Outcome>, Option<Outcome>))
    requires
        engine matches Some(e) ==> e.db.wf(),
        files_wf(*files),
        now_nanos >= 0,
    ensures
        engine is None || query is None ==> r.0 == -1 && r.1 is None && r.2 is None && final(last)@ == old(last)@,
        engine matches Some(e) ==> match query {
            None => *final(e) == *e,
            Some(q) => final(e).db.wf() && deleted_for(
                e.db,
                final(e).db,
                files@,
                now_nanos,
                q.query.collection@,
                row_ids(rows@),
                r,
                rows@.len() as i32,
                final(last)@,
            ),
        },
{
    match (engine, query) {
        (Some(e), Some(q)) => {
            let ghost a = e.db;
            let count: usize = rows.len();
            let res = e.db.delete_where_local(q.query.collection.as_str(), rows, now_nanos, files);
            let ghost (first, second) = res;
            let r = report_local(last, res, count as i32);
            proof {
                let (c, ids) = (q.query.collection@, row_ids(rows@));
                assert(deleted_here(a, e.db, files@, now_nanos, c, ids, (first, second)));
            }
            r
        },
        _ => (-1, None, None),
    }
}

/// Puts values under keys of the documents that a query found: those of another document.
/// Hands back how many.
pub fn fl_query_patch(
    last: &mut LastError,
    engine: Option<&mut FL_Engine>,
    query: Option<&FL_Query>,
    patch_doc: Option<&FL_Doc>,
    rows: &Vec<(String, FireLiteDoc)>,
    now_nanos: i64,
    files: &NameTable<FileReads>,
) -> (r: (i32, Option<Outcome>))
    requires
        engine matches Some(e) ==> e.db.wf(),
        files_wf(*files),
        now_nanos >= 0,
    ensures
        engine is None || query is None || patch_doc is None ==> r.0 == -1 && r.1 is None && final(last)@ == old(last)@,
        engine matches Some(e) ==> match (query, patch_doc) {
            (Some(q), Some(d)) => final(e).db.wf() && changed_found(
                e.db,
                final(e).db,
                files@,
                now_nanos,
                patches(q.query.collection@, row_ids(rows@), d.doc@.fields),
                r,
                final(last)@,
            ),
            _ => *final(e) == *e,
        },
{
    match (engine, query, patch_doc) {
        (Some(e), Some(q), Some(d)) => {
            let ghost a = e.db;
            let count: usize = rows.len();
            let res = e.db.patch_where(q.query.collection.as_str(), rows, &d.doc.fields, now_nanos, files);
            let ghost g = res;
            let ghost w = patches(q.query.collection@, row_ids(rows@), d.doc@.fields);
            proof {
                assert(found_written(a, e.db, files@, now_nanos, w, g));
            }
            report(last, res, count as i32, true)
        },
        _ => (-1, None),
    }
}

/// The documents of rows.
pub open spec fn row_docs(rows: Seq<(String, FireLiteDoc)>) -> Seq<Doc> {
    Seq::new(rows.len(), |i: int| rows[i].1@)
}

/// Rows in the hands of a caller.
pub open spec fn handed_rows(rows: Seq<(String, FireLiteDoc)>, docs: Seq<FL_Doc>) -> bool {
    &&& docs.len() == rows.len()
    &&& forall|i: int| 0 <= i < docs.len() ==> (#[trigger] docs[i]).id@ == rows[i].0@ && docs[i].doc@ == rows[i].1@
}

/// Puts rows into the hands of a caller.
fn hand_rows(rows: Vec<(String, FireLiteDoc)>) -> (docs: Vec<FL_Doc>)
    ensures
        handed_rows(rows@, docs@),
{
    let mut docs: Vec<FL_Doc> = Vec::new();
    let mut i: usize = 0;
    while i < rows.len()
        invariant
            i <= rows@.len(),
            docs@.len() == i,
            forall|k: int| 0 <= k < i ==> (#[trigger] docs@[k]).id@ == rows@[k].0@ && docs@[k].doc@ == rows@[k].1@,
        decreases rows@.len() - i,
    {
        docs.push(FL_Doc { id: rows[i].0.clone(), doc: rows[i].1.clone() });
        i = i + 1;
    }
    docs
}

/// Answers a query with a JSON list of what was found for it. Where the query asks for
/// fields, the documents that were found hold those alone.
pub fn fl_query_execute(
    last: &mut LastError,
    engine: Option<&mut FL_Engine>,
    query: Option<&FL_Query>,
    found: Result<Vec<(String, FireLiteDoc)>, HakoError>,
    floats: &FloatTexts,
) -> (r: Option<String>)
    requires
        engine matches Some(e) ==> e.db.wf(),
        floats.wf(),
    ensures
        engine is None || query is None ==> r is None && final(last)@ == Some(told("null engine/query handle"@)),
        engine matches Some(e) ==> match query {
            None => *final(e) == *e,
            Some(q) => final(e).db.wf() && exists|res: Result<Vec<(String, FireLiteDoc)>, HakoError>|
                {
                    &&& #[trigger] answered(e.db, final(e).db, q.query.collection@, found, res)
                    &&& match res {
                        Ok(rows) => {
                            &&& final(last)@ is None
                            &&& r matches Some(s) && s@ == "["@ + docs_text(row_docs(rows@), floats@) + "]"@
                        },
                        Err(x) => r is None && final(last)@ == Some(told(error_words(x))),
                    }
                },
        },
{
    match (engine, query) {
        (Some(e), Some(q)) => {
            let ghost a = e.db;
            let res = e.db.query(&q.query, found);
            let ghost g = res;
            let r = match res {
                Ok(rows) => {
                    let set = FL_ResultSet { docs: hand_rows(rows) };
                    proof {
                        assert(set_docs(set.docs@) =~= row_docs(rows@));
                    }
                    fl_result_set_to_json(last, Some(&set), floats)
                },
                Err(x) => {
                    let n: i32 = last.set_error(&x);
                    None
                },
            };
            proof {
                assert(answered(a, e.db, q.query.collection@, found, g));
            }
            r
        },
        _ => {
            let n: i32 = last.set_last_error("null engine/query handle");
            None
        },
    }
}

/// Answers a query with the documents that were found for it; with none where it failed.
pub fn fl_query_execute_to_handles(
    engine: &mut FL_Engine,
    query: &FL_Query,
    found: Result<Vec<(String, FireLiteDoc)>, HakoError>,
) -> (r: FL_ResultSet)
    requires
        old(engine).db.wf(),
    ensures
        final(engine).db.wf(),
        exists|res: Result<Vec<(String, FireLiteDoc)>, HakoError>|
            {
                &&& #[trigger] answered(old(engine).db, final(engine).db, query.query.collection@, found, res)
                &&& match res {
                    Ok(rows) => handed_rows(rows@, r.docs@),
                    Err(_) => r.docs@.len() == 0,
                }
            },
{
    let res = engine.db.query(&query.query, found);
    let ghost g = res;
    let r = match res {
        Ok(rows) => FL_ResultSet { docs: hand_rows(rows) },
        Err(_) => FL_ResultSet { docs: Vec::new() },
    };
    proof {
        assert(answered(old(engine).db, engine.db, query.query.collection@, found, g));
    }
    r
}

/// Figures by their names, as a JSON object.
pub open spec fn figures_json(figures: Seq<(String, u64)>) -> Js {
    Js::Object(Seq::new(figures.len(), |i: int| (figures[i].0@, Js::Number(JsonNumber::Float(figures[i].1)))))
}

/// Figures by their names, as a JSON object.
fn figures_to_json(figures: &Vec<(String, u64)>) -> (j: Json)
    ensures
        j@ == figures_json(figures@),
{
    let mut entries: Vec<(String, Json)> = Vec::new();
    let mut i: usize = 0;
    while i < figures.len()
        invariant
            i <= figures@.len(),
            entries@.len() == i,
            forall|k: int|
                0 <= k < i ==> (#[trigger] entries@[k]).0@ == figures@[k].0@ && entries@[k].1@ == Js::Number(
                    JsonNumber::Float(figures@[k].1),
                ),
        decreases figures@.len() - i,
    {
        let figure = Json::Number(JsonNumber::Float(figures[i].1));
        proof {
            json_parts_view(figure);
        }
        entries.push((figures[i].0.clone(), figure));
        i = i + 1;
    }
    let j = Json::Object(entries);
    proof {
        json_parts_view(j);
        assert(entries_view(entries@) =~= figures_json(figures@)->Object_0);
    }
    j
}

/// Answers a query with a JSON object of the figures that were computed for it, each given by
/// its bits.
pub fn fl_query_execute_aggregation(
    last: &mut LastError,
    engine: Option<&mut FL_Engine>,
    query: Option<&FL_Query>,
    found: Result<Vec<(String, u64)>, HakoError>,
    floats: &FloatTexts,
) -> (r: Option<String>)
    requires
        engine matches Some(e) ==> e.db.wf(),
        floats.wf(),
    ensures
        engine is None || query is None ==> r is None && final(last)@ == Some(told("null engine or query handle"@)),
        engine matches Some(e) ==> match query {
            None => *final(e) == *e,
            Some(q) => final(e).db.wf() && exists|res: Result<Vec<(String, u64)>, HakoError>|
                {
                    &&& #[trigger] figured(e.db, final(e).db, q.query.collection@, found, res)
                    &&& match res {
                        Ok(figures) => {
                            &&& final(last)@ is None
                            &&& r matches Some(s) && s@ == js_text(figures_json(figures@), floats@)
                        },
                        Err(x) => r is None && final(last)@ == Some(told(error_words(x))),
                    }
                },
        },
{
    match (engine, query) {
        (Some(e), Some(q)) => {
            let ghost a = e.db;
            let res = e.db.execute_aggregation(&q.query, found);
            let ghost g = res;
            let r = match res {
                Ok(figures) => {
                    let text = json_to_text(&figures_to_json(&figures), floats);
                    last.clear_last_error();
                    Some(text)
                },
                Err(x) => {
                    let n: i32 = last.set_error(&x);
                    None
                },
            };
            proof {
                assert(figured(a, e.db, q.query.collection@, found, g));
            }
            r
        },
        _ => {
            let n: i32 = last.set_last_error("null engine or query handle");
            None
        },
    }
}

/// Counts by their names, as a JSON object.
pub open spec fn counts_json(counts: Seq<(String, usize)>) -> Js {
    Js::Object(Seq::new(counts.len(), |i: int| (counts[i].0@, Js::Number(JsonNumber::PosInt(counts[i].1 as u64)))))
}

/// Counts by their names, as a JSON object.
fn counts_to_json(counts: &Vec<(String, usize)>) -> (j: Json)
    ensures
        j@ == counts_json(counts@),
{
    let mut entries: Vec<(String, Json)> = Vec::new();
    let mut i: usize = 0;
    while i < counts.len()
        invariant
            i <= counts@.len(),
            entries@.len() == i,
            forall|k: int|
                0 <= k < i ==> (#[trigger] entries@[k]).0@ == counts@[k].0@ && entries@[k].1@ == Js::Number(
                    JsonNumber::PosInt(counts@[k].1 as u64),
                ),
        decreases counts@.len() - i,
    {
        let count = Json::Number(JsonNumber::PosInt(counts[i].1 as u64));
        proof {
            json_parts_view(count);
        }
        entries.push((counts[i].0.clone(), count));
        i = i + 1;
    }
    let j = Json::Object(entries);
    proof {
        json_parts_view(j);
        assert(entries_view(entries@) =~= counts_json(counts@)->Object_0);
    }
    j
}

/// The number of documents and of waiting bytes of each collection, as a JSON object.
pub fn fl_engine_get_stats(engine: &FL_Engine) -> (r: String)
    ensures
        exists|counts: Vec<(String, usize)>|
            #[trigger] stats_of(engine.db, counts@) && r@ == js_text(counts_json(counts@), Map::empty()),
{
    let counts = engine.db.get_stats();
    let floats = FloatTexts::new();
    let r = json_to_text(&counts_to_json(&counts), &floats);
    proof {
        assert(stats_of(engine.db, counts@));
        assert(floats@ =~= Map::empty());
    }
    r
}

/// The name of an operation.
pub open spec fn op_name(op: AccessOp) -> Seq<char> {
    match op {
        AccessOp::Get => "Get"@,
        AccessOp::Put => "Put"@,
        AccessOp::Delete => "Delete"@,
        AccessOp::Query => "Query"@,
        AccessOp::Batch => "Batch"@,
    }
}

/// A line of the audit as a JSON object.
pub open spec fn line_json(l: AuditLine) -> Js {
    Js::Object(
        seq![
            ("op"@, Js::Text(op_name(l.op))),
            ("collection"@, Js::Text(l.collection)),
            (
                "doc_id"@,
                match l.id {
                    Some(s) => Js::Text(s),
                    None => Js::Null,
                },
            ),
            ("ok"@, Js::Bool(l.ok)),
        ],
    )
}

/// A line of the audit as a JSON object.
fn line_to_json(l: &AuditEntry) -> (j: Json)
    ensures
        j@ == line_json(audit_line(*l)),
{
    let op = match l.op {
        AccessOp::Get => "Get",
        AccessOp::Put => "Put",
        AccessOp::Delete => "Delete",
        AccessOp::Query => "Query",
        AccessOp::Batch => "Batch",
    };
    let id = match &l.doc_id {
        Some(s) => Json::Text(s.clone()),
        None => Json::Null,
    };
    let (name, collection, ok): (Json, Json, Json) = (
        Json::Text(op.to_owned()),
        Json::Text(l.collection.clone()),
        Json::Bool(l.ok),
    );
    proof {
        json_parts_view(id);
        json_parts_view(name);
        json_parts_view(collection);
        json_parts_view(ok);
    }
    let mut entries: Vec<(String, Json)> = Vec::new();
    entries.push(("op".to_owned(), name));
    entries.push(("collection".to_owned(), collection));
    entries.push(("doc_id".to_owned(), id));
    entries.push(("ok".to_owned(), ok));
    let j = Json::Object(entries);
    proof {
        json_parts_view(j);
        assert(j@ == Js::Object(entries_view(entries@)));
        assert(entries_view(entries@) =~= line_json(audit_line(*l))->Object_0);
    }
    j
}

/// The audit of a store as a JSON list.
pub fn fl_engine_get_audit_log(engine: Option<&FL_Engine>) -> (r: Option<String>)
    ensures
        match engine {
            None => r is None,
            Some(e) => r matches Some(s) && s@ == js_text(audit_json(audit_view(e.db.audit_data@)), Map::empty()),
        },
{
    match engine {
        None => None,
        Some(e) => {
            let lines = &e.db.audit_data;
            let ghost m = audit_view(lines@);
            let mut items: Vec<Json> = Vec::new();
            let mut i: usize = 0;
            while i < lines.len()
                invariant
                    m == audit_view(lines@),
                    i <= lines@.len(),
                    items@.len() == i,
                    forall|k: int| 0 <= k < i ==> (#[trigger] items@[k])@ == line_json(m[k]),
                decreases lines@.len() - i,
            {
                items.push(line_to_json(&lines[i]));
                i = i + 1;
            }
            let j = Json::List(items);
            let floats = FloatTexts::new();
            proof {
                json_parts_view(j);
                assert(list_view(items@) =~= Seq::new(m.len(), |i: int| line_json(m[i])));
                assert(j@ == audit_json(m));
                assert(floats@ =~= Map::<u64, String>::empty());
            }
            Some(json_to_text(&j, &floats))
        },
    }
}

/// The lines of an audit as a JSON list.
pub open spec fn audit_json(lines: Seq<AuditLine>) -> Js {
    Js::List(Seq::new(lines.len(), |i: int| line_json(lines[i])))
}

/// No changes yet.
pub fn fl_batch_new() -> (b: FL_Batch)
    ensures
        b.ops@.len() == 0,
{
    FL_Batch { ops: Vec::new() }
}

/// Adds a put to a batch. The document is left empty.
pub fn fl_batch_set(
    last: &mut LastError,
    batch: Option<&mut FL_Batch>,
    collection: Option<&[u8]>,
    doc_id: Option<&[u8]>,
    doc: Option<&mut FL_Doc>,
) -> (n: i32)
    ensures
        batch is None || doc is None ==> failed(n, final(last)@, "null batch/doc handle"@),
        batch matches Some(b) ==> doc is None ==> *final(b) == *b,
        doc matches Some(d) ==> batch is None ==> *final(d) == *d,
        batch matches Some(b) ==> doc matches Some(d) ==> match (arg_text(collection), arg_text(doc_id)) {
            (Err(m), _) => failed(n, final(last)@, m) && *final(b) == *b && *final(d) == *d,
            (_, Err(m)) => failed(n, final(last)@, m) && *final(b) == *b && *final(d) == *d,
            (Ok(c), Ok(i)) => {
                &&& succeeded(n, final(last)@)
                &&& wishes(final(b).ops@) == wishes(b.ops@).push(Wish::Put { collection: c, id: i, doc: d.doc@ })
                &&& final(d).id == d.id
                &&& final(d).doc@ == (Doc { fields: Seq::empty(), time: 0 })
            },
        },
{
    match (batch, doc) {
        (Some(b), Some(d)) => match cstr_to_string(collection) {
            Err(m) => last.set_last_error(m.as_str()),
            Ok(c) => match cstr_to_string(doc_id) {
                Err(m) => last.set_last_error(m.as_str()),
                Ok(i) => {
                    let ghost before = b.ops@;
                    let mut taken = FireLiteDoc::default();
                    std::mem::swap(&mut taken, &mut d.doc);
                    let op = BatchMutation::Put { collection: c, doc_id: i, doc: taken };
                    let ghost w = op@;
                    b.ops.push(op);
                    proof {
                        assert(wishes(b.ops@) =~= wishes(before).push(w));
                    }
                    last.clear_last_error();
                    0
                },
            },
        },
        _ => last.set_last_error("null batch/doc handle"),
    }
}

/// Adds a deletion to a batch.
pub fn fl_batch_delete(last: &mut LastError, batch: Option<&mut FL_Batch>, collection: Option<&[u8]>, doc_id: Option<&[u8]>) -> (n:
    i32)
    ensures
        batch is None ==> failed(n, final(last)@, "null batch handle"@),
        batch matches Some(b) ==> match (arg_text(collection), arg_text(doc_id)) {
            (Err(m), _) => failed(n, final(last)@, m) && *final(b) == *b,
            (_, Err(m)) => failed(n, final(last)@, m) && *final(b) == *b,
            (Ok(c), Ok(i)) => {
                &&& succeeded(n, final(last)@)
                &&& wishes(final(b).ops@) == wishes(b.ops@).push(Wish::Delete { collection: c, id: i })
            },
        },
{
    match batch {
        None => last.set_last_error("null batch handle"),
        Some(b) => match cstr_to_string(collection) {
            Err(m) => last.set_last_error(m.as_str()),
            Ok(c) => match cstr_to_string(doc_id) {
                Err(m) => last.set_last_error(m.as_str()),
                Ok(i) => {
                    let ghost before = b.ops@;
                    let op = BatchMutation::Delete { collection: c, doc_id: i };
                    let ghost w = op@;
                    b.ops.push(op);
                    proof {
                        assert(wishes(b.ops@) =~= wishes(before).push(w));
                    }
                    last.clear_last_error();
                    0
                },
            },
        },
    }
}

/// Makes the changes of a batch, which is left empty.
pub fn fl_batch_commit(
    last: &mut LastError,
    engine: Option<&mut FL_Engine>,
    batch: Option<&mut FL_Batch>,
    now_nanos: i64,
    files: &NameTable<FileReads>,
) -> (r: (i32, Option<Outcome>))
    requires
        engine matches Some(e) ==> e.db.wf(),
        files_wf(*files),
        now_nanos >= 0,
    ensures
        engine is None || batch is None ==> refused(r, final(last)@, "null engine/batch handle"@),
        engine matches Some(e) ==> batch is None ==> *final(e) == *e,
        batch matches Some(b) ==> engine is None ==> *final(b) == *b,
        engine matches Some(e) ==> batch matches Some(b) ==> {
            &&& final(e).db.wf()
            &&& final(b).ops@.len() == 0
            &&& wrote(e.db, final(e).db, files@, now_nanos, wishes(b.ops@), r, 0, None, final(last)@)
        },
{
    match (engine, batch) {
        (Some(e), Some(b)) => {
            let mut ops: Vec<BatchMutation> = Vec::new();
            std::mem::swap(&mut ops, &mut b.ops);
            let res = e.db.write_batch(&ops, now_nanos, files);
            report(last, res, 0, true)
        },
        _ => refuse(last, "null engine/batch handle"),
    }
}

/// A transaction without reads and changes.
pub fn fl_transaction_begin(engine: &FL_Engine) -> (t: FL_Transaction)
    ensures
        t.tx.reads.wf(),
        t.tx.reads@ == Map::<Seq<char>, Option<u64>>::empty(),
        t.tx.mutations@.len() == 0,
{
    FL_Transaction { tx: engine.db.begin_serializable_transaction() }
}

/// Reads a document within a transaction.
pub fn fl_transaction_get(
    engine: &mut FL_Engine,
    tx: &mut FL_Transaction,
    collection: Option<&[u8]>,
    doc_id: Option<&[u8]>,
    reads: &FileReads,
) -> (r: Option<FL_Doc>)
    requires
        old(engine).db.wf(),
        old(tx).tx.reads.wf(),
        reads.wf(),
    ensures
        final(engine).db.wf(),
        final(tx).tx.reads.wf(),
        final(tx).tx.mutations == old(tx).tx.mutations,
        match (arg_text(collection), arg_text(doc_id)) {
            (Ok(c), Ok(i)) => exists|row: Result<Option<FireLiteDoc>, HakoError>|
                {
                    &&& #[trigger] got(old(engine).db, final(engine).db, *reads, c, i, row)
                    &&& handed(r, row, i)
                    &&& final(tx).tx.reads@ == (if row is Ok {
                        old(tx).tx.reads@.insert(i, version_of(old(engine).db.versions@, i))
                    } else {
                        old(tx).tx.reads@
                    })
                },
            _ => r is None && *final(engine) == *old(engine) && *final(tx) == *old(tx),
        },
{
    match (cstr_to_string(collection), cstr_to_string(doc_id)) {
        (Ok(c), Ok(i)) => {
            let row = tx.tx.get(&mut engine.db, c.as_str(), i.as_str(), reads);
            let ghost g = row;
            let r = match row {
                Ok(Some(doc)) => Some(FL_Doc { id: i, doc }),
                _ => None,
            };
            proof {
                assert(got(old(engine).db, engine.db, *reads, c@, i@, g) && handed(r, g, i@));
            }
            r
        },
        _ => None,
    }
}

/// Adds a put to a transaction.
pub fn fl_transaction_set(tx: &mut FL_Transaction, collection: Option<&[u8]>, doc_id: Option<&[u8]>, doc: &FL_Doc) -> (n: i32)
    ensures
        match (arg_text(collection), arg_text(doc_id)) {
            (Ok(c), Ok(i)) => {
                &&& n == 0
                &&& final(tx).tx.reads == old(tx).tx.reads
                &&& wishes(final(tx).tx.mutations@) == wishes(old(tx).tx.mutations@).push(
                    Wish::Put { collection: c, id: i, doc: doc.doc@ },
                )
            },
            _ => n == -1 && *final(tx) == *old(tx),
        },
{
    match (cstr_to_string(collection), cstr_to_string(doc_id)) {
        (Ok(c), Ok(i)) => {
            tx.tx.put(c.as_str(), i.as_str(), doc.doc.clone());
            0
        },
        _ => -1,
    }
}

/// Makes the changes of a transaction, if what was read has not changed.
pub fn fl_transaction_commit(
    last: &mut LastError,
    engine: &mut FL_Engine,
    tx: &FL_Transaction,
    now_nanos: i64,
    files: &NameTable<FileReads>,
) -> (r: (i32, Option<Outcome>))
    requires
        old(engine).db.wf(),
        tx.tx.reads.wf(),
        files_wf(*files),
        now_nanos >= 0,
    ensures
        final(engine).db.wf(),
        if unchanged(old(engine).db, tx.tx.reads@) {
            let a = old(engine).db;
            let st = staged(env_of(a, files@, now_nanos), wishes(tx.tx.mutations@));
            &&& r.0 == 0
            &&& final(last)@ == old(last)@
            &&& batch_done(a, final(engine).db, st)
            &&& r.1 matches Some(o) && outcome_is(o, a, files@, st)
            &&& audit_view(final(engine).db.audit_data@) == audited(a.config, audit_view(a.audit_data@), batch_line(true))
        } else {
            &&& r.0 == -1
            &&& r.1 is None
            &&& final(last)@ == Some(told("corrupt data: "@ + "Transaction Conflict"@))
            &&& *final(engine) == *old(engine)
        },
{
    let res = tx.tx.commit(&mut engine.db, now_nanos, files);
    report(last, res, 0, false)
}

} // verus!
