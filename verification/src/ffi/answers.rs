//! What calls from outside do with what they are handed, and what they hand back.
use vstd::prelude::*;
use vstd::string::*;
use vstd::utf8::{encode_utf8, valid_utf8};

use crate::cloud_sync::packet::CloudSyncMode;
use crate::document::firelite_doc::{doc_bytes, with_field_holds, Doc, FireLiteDoc};
use crate::document::json::{lookup, Js, JsonNumber};
use crate::document::value::{items_view, Val, Value};
use crate::engine::access::permitted;
use crate::engine::engine::{AuditLine, Hako, Outcome};
use crate::engine::files::FileReads;
use crate::engine::marks::{marks_doc, stays};
use crate::engine::returning::marks_are_written_down;
use crate::engine::rules::local_deletions_are_marked;
use crate::engine::scope::deleted_here;
use crate::engine::store::{got, marks_written, with_marks, written};
use crate::engine::types::{AccessOp, IndexList, Wish};
use crate::engine::upkeep::{collections_are_listed, composites_are_listed};
use crate::error::HakoError;
use crate::ffi::documents::{inserted, set_docs, FL_Doc};
use crate::ffi::last_error::{arg_text, failed, succeeded, told};
use crate::ffi::nodes::{cloud_made, text_or, FL_CloudSync};
use crate::ffi::queries::{aggregated, anchor, bound_is, filtered, widened};
use crate::ffi::settings::{given, given_names};
use crate::ffi::stores::{
    audit_json, changed_found, counts_json, deleted_for, figures_json, followed, given_items, handed, handed_rows, indexes_listed, line_json, marks_kept,
    ok_of, read_for, refused, reported, row_docs, text_list, wished_columns, wrote,
};
use crate::index::composite::definition::SortDirection;
use crate::query::{sort_values, Operator, Query};
use crate::storage::blob::skeleton_doc;
use crate::storage::pointer::Place;

verus! {

/// A text that is handed over by its bytes is the text of the call. Nothing handed over, or what
/// is no text, is not.
pub proof fn handed_text_is_read(bytes: &[u8], s: Seq<char>, other: Seq<char>)
    ensures
        bytes@ == encode_utf8(s) ==> arg_text(Some(bytes)) == Ok::<Seq<char>, Seq<char>>(s) && text_or(Some(bytes), other)
            == s && given(Some(bytes)) == Some(s),
        !valid_utf8(bytes@) ==> arg_text(Some(bytes)) is Err && text_or(Some(bytes), other) == other && given(
            Some(bytes),
        ) is None && given_names(Some(bytes)) is None && given_items(Some(bytes)) is None,
        arg_text(None) is Err && text_or(None, other) == other && given(None) is None,
{
    if bytes@ == encode_utf8(s) {
        vstd::utf8::encode_utf8_decode_utf8(s);
        vstd::utf8::encode_utf8_valid_utf8(s);
    }
}

/// A message is told as it is, unless a zero in it would cut it off.
pub proof fn message_is_told(m: Seq<char>, n: i32, error: Option<Seq<char>>)
    ensures
        !m.contains('\0') ==> told(m) == m,
        !told(m).contains('\0'),
        failed(n, error, m) ==> n == -1 && error is Some && (!m.contains('\0') ==> error == Some(m)),
{
    reveal_strlit("ffi error");
    assert(!"ffi error"@.contains('\0')) by {
        if "ffi error"@.contains('\0') {
            let i = choose|i: int| 0 <= i < "ffi error"@.len() && "ffi error"@[i] == '\0';
            assert("ffi error"@[i] != '\0');
        }
    }
}

/// A value that is put under a key is found under it, and everything else as before; where the
/// key is no text the document stays as it is, and the call says that it failed.
pub proof fn inserted_value_is_found(
    before: FL_Doc,
    after: FL_Doc,
    key: &[u8],
    k: Seq<char>,
    value: Val,
    e0: Option<Seq<char>>,
    e1: Option<Seq<char>>,
    n: i32,
    x: Seq<char>,
)
    requires
        inserted(before, after, Some(key), value, e0, e1, n),
        before.doc@.wf(),
    ensures
        key@ == encode_utf8(k) ==> {
            &&& n == 0
            &&& e1 == e0
            &&& after.doc@.wf()
            &&& after.id == before.id
            &&& after.doc@.time == before.doc@.time
            &&& after.doc@.map().contains_key(k) && after.doc@.map()[k] == value
            &&& x != k ==> after.doc@.map().contains_key(x) == before.doc@.map().contains_key(x) && (
            before.doc@.map().contains_key(x) ==> after.doc@.map()[x] == before.doc@.map()[x])
        },
        !valid_utf8(key@) ==> n == -1 && e1 is Some && after == before,
{
    handed_text_is_read(key, k, k);
    with_field_holds(before.doc@, k, value);
}

/// A query with one more condition has the conditions that it had, and then that one: its field,
/// its comparison and its value. Nothing else about it changes.
pub proof fn condition_is_added(a: Query, b: Query, field: Seq<char>, op: Operator, value: Val, i: int)
    requires
        filtered(a, b, field, op, value),
    ensures
        b.filters@.len() == a.filters@.len() + 1,
        0 <= i < a.filters@.len() ==> b.filters@[i] == a.filters@[i],
        b.filters@[a.filters@.len() as int].field@ == field,
        b.filters@[a.filters@.len() as int].op == op,
        b.filters@[a.filters@.len() as int].value@ == value,
        b.collection == a.collection,
        b.or_groups == a.or_groups,
        b.order_by == a.order_by,
        b.projection == a.projection,
        b.limit == a.limit,
        b.offset == a.offset,
        b.aggregations == a.aggregations,
        b.start_at == a.start_at && b.start_after == a.start_after && b.end_at == a.end_at && b.end_before == a.end_before,
{
    if 0 <= i < a.filters@.len() {
        assert(b.filters@.drop_last()[i] == b.filters@[i]);
    }
}

/// A query with one more choice has the choices that it had, and then that one: that a field has
/// a value. Nothing else about it changes.
pub proof fn choice_is_added(a: Query, b: Query, field: Seq<char>, value: Val, i: int)
    requires
        widened(a, b, field, value),
    ensures
        b.or_groups@.len() == a.or_groups@.len() + 1,
        0 <= i < a.or_groups@.len() ==> b.or_groups@[i] == a.or_groups@[i],
        b.or_groups@[a.or_groups@.len() as int]@.len() == 1,
        b.or_groups@[a.or_groups@.len() as int]@[0].field@ == field,
        b.or_groups@[a.or_groups@.len() as int]@[0].op == Operator::Eq,
        b.or_groups@[a.or_groups@.len() as int]@[0].value@ == value,
        b.collection == a.collection,
        b.filters == a.filters,
        b.order_by == a.order_by,
        b.limit == a.limit,
        b.offset == a.offset,
{
    if 0 <= i < a.or_groups@.len() {
        assert(b.or_groups@.drop_last()[i] == b.or_groups@[i]);
    }
}

/// A query with one more number to compute has the numbers that it had before it, and nothing
/// else about it changes.
pub proof fn number_is_added(a: Query, b: Query, i: int)
    requires
        aggregated(a, b),
    ensures
        b.aggregations@.len() == a.aggregations@.len() + 1,
        0 <= i < a.aggregations@.len() ==> b.aggregations@[i] == a.aggregations@[i],
        b.collection == a.collection,
        b.filters == a.filters,
        b.or_groups == a.or_groups,
        b.order_by == a.order_by,
        b.limit == a.limit,
{
    if 0 <= i < a.aggregations@.len() {
        assert(b.aggregations@.drop_last()[i] == b.aggregations@[i]);
    }
}

/// An end of a query holds its values, one by one.
pub proof fn end_holds_values(b: Option<Vec<Value>>, values: Seq<Val>, i: int)
    requires
        bound_is(b, values),
    ensures
        b matches Some(v) && v@.len() == values.len() && (0 <= i < values.len() ==> v@[i]@ == values[i]),
{
    let v = b->Some_0;
    assert(items_view(v@).len() == v@.len());
    if 0 <= i < values.len() {
        assert(items_view(v@)[i] == v@[i]@);
    }
}

/// A write that went well is told by its number and what was written; one that did not by -1, and
/// its error is there to be asked for.
pub proof fn writes_are_reported(
    a: Hako,
    b: Hako,
    files: Map<Seq<char>, FileReads>,
    nanos: i64,
    w: Seq<Wish>,
    r: (i32, Option<Outcome>),
    count: i32,
    kept: Option<Seq<char>>,
    error: Option<Seq<char>>,
)
    requires
        wrote(a, b, files, nanos, w, r, count, kept, error),
    ensures
        exists|res: Result<Outcome, HakoError>| #[trigger]
            written(a, b, files, nanos, w, res) && match res {
                Ok(o) => r.0 == count && r.1 == Some(o) && error == kept,
                Err(_) => r.0 == -1 && r.1 is None && error is Some,
            },
{
    let res = choose|res: Result<Outcome, HakoError>| #[trigger]
        written(a, b, files, nanos, w, res) && reported(r, res, count, kept, error);
    assert(written(a, b, files, nanos, w, res));
}

/// A caller gets the document that a read found, with its id, and nothing where none was found.
pub proof fn read_is_handed(a: Hako, b: Hako, reads: FileReads, c: Seq<char>, id: Seq<char>, r: Option<FL_Doc>)
    requires
        read_for(a, b, reads, c, id, r),
    ensures
        exists|row: Result<Option<FireLiteDoc>, HakoError>| #[trigger]
            got(a, b, reads, c, id, row) && match row {
                Ok(Some(d)) => r matches Some(x) && x.id@ == id && x.doc@ == d@,
                Ok(None) => r is None,
                Err(_) => r is None,
            },
{
    let row = choose|row: Result<Option<FireLiteDoc>, HakoError>| #[trigger]
        got(a, b, reads, c, id, row) && handed(r, row, id);
    assert(got(a, b, reads, c, id, row));
}

/// A reference leads to the document that it names, and what is no reference to none.
pub proof fn reference_is_followed(
    a: Hako,
    b: Hako,
    reads: FileReads,
    v: Val,
    id: Seq<char>,
    r: Option<FL_Doc>,
    kept: Option<Seq<char>>,
    error: Option<Seq<char>>,
)
    requires
        followed(a, b, reads, v, id, r, kept, error),
    ensures
        v matches Val::Reference { collection, doc_id } ==> exists|row: Result<Option<FireLiteDoc>, HakoError>| #[trigger]
            got(a, b, reads, collection, doc_id, row) && match row {
                Ok(Some(d)) => r matches Some(x) && x.id@ == id && x.doc@ == d@,
                _ => r is None,
            },
        !(v is Reference) ==> r is None && b == a && error is Some,
{
    let row = choose|row: Result<Option<FireLiteDoc>, HakoError>|
        {
            &&& #[trigger] crate::ffi::stores::reference_read(a, b, reads, v, row)
            &&& handed(r, row, id)
            &&& error == (match row {
                Ok(_) => kept,
                Err(e) => Some(told(crate::ffi::last_error::error_words(e))),
            })
        };
    if let Val::Reference { collection, doc_id } = v {
        assert(got(a, b, reads, collection, doc_id, row));
    }
}

/// The changes to what a query found are told by their number, and where it found nothing the
/// store stays as it is.
pub proof fn found_changes_are_counted(
    a: Hako,
    b: Hako,
    files: Map<Seq<char>, FileReads>,
    nanos: i64,
    w: Seq<Wish>,
    r: (i32, Option<Outcome>),
    error: Option<Seq<char>>,
)
    requires
        changed_found(a, b, files, nanos, w, r, error),
    ensures
        w.len() == 0 ==> b == a && r.0 == 0 && error is None,
        w.len() > 0 ==> exists|res: Result<Outcome, HakoError>| #[trigger]
            written(a, b, files, nanos, w, res) && (res is Ok ==> r.0 == w.len() as i32 && error is None) && (res is Err
                ==> r.0 == -1 && error is Some),
{
    let res = choose|res: Result<Outcome, HakoError>| #[trigger]
        crate::ffi::stores::found_written(a, b, files, nanos, w, res) && reported(r, res, w.len() as i32, None, error);
    if w.len() > 0 {
        assert(written(a, b, files, nanos, w, res));
    }
}

/// A list asks for one column for each of its items: its `field`, descending exactly where `desc`
/// is true.
pub proof fn columns_are_wished(items: Seq<Js>, i: int, entries: Seq<(Seq<char>, Js)>, s: Seq<char>)
    requires
        0 <= i < items.len(),
        items[i] == Js::Object(entries),
        lookup(entries, "field"@) == Some(Js::Text(s)),
    ensures
        wished_columns(items).len() == items.len(),
        wished_columns(items)[i].0 == s,
        lookup(entries, "desc"@) == Some(Js::Bool(true)) ==> wished_columns(items)[i].1 == SortDirection::Desc,
        lookup(entries, "desc"@) != Some(Js::Bool(true)) ==> wished_columns(items)[i].1 == SortDirection::Asc,
{
}

/// Rows are handed over one by one and in order, each document with its id.
pub proof fn rows_are_handed(rows: Seq<(String, FireLiteDoc)>, docs: Seq<FL_Doc>, i: int)
    requires
        0 <= i < rows.len(),
    ensures
        handed_rows(rows, docs) ==> docs.len() == rows.len() && docs[i].id@ == rows[i].0@ && docs[i].doc@ == rows[i].1@,
        row_docs(rows).len() == rows.len(),
        row_docs(rows)[i] == rows[i].1@,
        handed_rows(rows, docs) ==> set_docs(docs) == row_docs(rows),
{
    if handed_rows(rows, docs) {
        assert(docs[i].id@ == rows[i].0@);
        assert(set_docs(docs) =~= row_docs(rows));
    }
}

/// What is told in JSON: names as a list of texts in their order, counts and figures as an object
/// with one entry for each, under its name.
pub proof fn figures_are_in_json(
    names: Seq<Seq<char>>,
    counts: Seq<(String, usize)>,
    figures: Seq<(String, u64)>,
    i: int,
)
    ensures
        text_list(names) matches Js::List(l) && l.len() == names.len() && (0 <= i < names.len() ==> l[i] == Js::Text(
            names[i],
        )),
        counts_json(counts) matches Js::Object(o) && o.len() == counts.len() && (0 <= i < counts.len() ==> o[i].0
            == counts[i].0@ && o[i].1 == Js::Number(JsonNumber::PosInt(counts[i].1 as u64))),
        figures_json(figures) matches Js::Object(o) && o.len() == figures.len() && (0 <= i < figures.len() ==> o[i].0
            == figures[i].0@ && o[i].1 == Js::Number(JsonNumber::Float(figures[i].1))),
{
}

/// The audit in JSON has an object for each line, which tells the operation, the collection, the
/// document where there is one, and whether it was allowed.
pub proof fn audit_is_in_json(lines: Seq<AuditLine>, i: int)
    requires
        0 <= i < lines.len(),
    ensures
        audit_json(lines) matches Js::List(l) && l.len() == lines.len() && (l[i] matches Js::Object(o) && {
            &&& lookup(o, "op"@) == Some(
                Js::Text(
                    match lines[i].op {
                        AccessOp::Get => "Get"@,
                        AccessOp::Put => "Put"@,
                        AccessOp::Delete => "Delete"@,
                        AccessOp::Query => "Query"@,
                        AccessOp::Batch => "Batch"@,
                    },
                ),
            )
            &&& lookup(o, "collection"@) == Some(Js::Text(lines[i].collection))
            &&& lookup(o, "doc_id"@) == Some(
                match lines[i].id {
                    Some(s) => Js::Text(s),
                    None => Js::Null,
                },
            )
            &&& lookup(o, "ok"@) == Some(Js::Bool(lines[i].ok))
        }),
{
    reveal_strlit("op");
    reveal_strlit("collection");
    reveal_strlit("doc_id");
    reveal_strlit("ok");
    let o = line_json(lines[i])->Object_0;
    assert("op"@[1] == 'p' && "ok"@[1] == 'k');
    assert("op"@.len() == 2 && "ok"@.len() == 2 && "collection"@.len() == 10 && "doc_id"@.len() == 6);
    reveal_with_fuel(lookup, 5);
    let t = o.drop_first();
    let u = t.drop_first();
    let v = u.drop_first();
    assert(t[0] == o[1] && u[0] == o[2] && v[0] == o[3]);
}

/// What was written is handed back where it went well.
pub proof fn outcome_is_handed(r: Result<Outcome, HakoError>)
    ensures
        r matches Ok(o) ==> ok_of(r) == Some(o),
        r is Err ==> ok_of(r) is None,
{
}

/// A call that did its work says 0 and leaves no error; one that failed says -1.
pub proof fn calls_say_how_it_went(n: i32, error: Option<Seq<char>>, r: (i32, Option<Outcome>), m: Seq<char>)
    ensures
        succeeded(n, error) ==> n == 0 && error is None,
        refused(r, error, m) ==> r.0 == -1 && r.1 is None && error is Some,
{
}

/// An end of a query stands at the values of a document, in a query with an order, and nowhere
/// else.
pub proof fn ends_need_an_order(q: Query, d: FL_Doc)
    ensures
        q.order_by@.len() == 0 ==> anchor(q, d) is None,
        q.order_by@.len() > 0 ==> anchor(q, d) == sort_values(q.order_by@, d.id@, d.doc@),
{
}

/// A node of the cloud is made for a store, with its name and the room that it joins, and is idle;
/// without a store there is none, and an error says so.
pub proof fn cloud_needs_a_store(
    has_engine: bool,
    r: Option<FL_CloudSync>,
    mode: CloudSyncMode,
    id: Seq<char>,
    room: Seq<char>,
    key: Seq<char>,
    token: Seq<char>,
    error: Option<Seq<char>>,
)
    requires
        cloud_made(has_engine, r, mode, id, room, key, token, error),
    ensures
        has_engine ==> (r matches Some(c) && !c.inner.running && c.inner.mode == mode && c.inner.client_id@ == id
            && c.inner.auth_token@ == token) && error is None,
        !has_engine ==> r is None && error is Some,
{
}

/// A call that deletes documents for this device alone tells how many, and what was written; where
/// it failed it tells why.
pub proof fn local_deletions_are_told(
    a: Hako,
    b: Hako,
    files: Map<Seq<char>, FileReads>,
    nanos: i64,
    c: Seq<char>,
    ids: Seq<Seq<char>>,
    r: (i32, Option<Outcome>, Option<Outcome>),
    count: i32,
    error: Option<Seq<char>>,
    i: int,
)
    requires
        deleted_for(a, b, files, nanos, c, ids, r, count, error),
        0 <= i < ids.len(),
    ensures
        stays(b.marks@, c, ids[i]),
        r.1 is Some ==> r.0 == count && error is None,
        r.1 is None ==> r.0 == -1 && error is Some,
        r.1 is Some && ids[i].len() > 0 ==> b.shards@.contains_key(c) && b.shards@[c].places().contains_key(ids[i])
            && b.shards@[c].places()[ids[i]] == (Place::Deleted { time: (nanos as int / 1000) as i64 }),
{
    let (first, second) = choose|first: Result<Outcome, HakoError>, second: Result<Outcome, HakoError>|
        #![trigger deleted_here(a, b, files, nanos, c, ids, (first, second))]
        deleted_here(a, b, files, nanos, c, ids, (first, second)) && reported((r.0, r.1), second, count, None, error)
            && r.2 == ok_of(first);
    local_deletions_are_marked(a, b, files, nanos, c, ids, (first, second), i, c, ids[i]);
}

/// The list of indexes that is handed over names every collection that is asked for with an index
/// of a field, of words or of several fields, and no other.
pub proof fn index_list_is_whole(db: Hako, only: Option<Seq<char>>, l: IndexList, c: Seq<char>, k: int)
    requires
        indexes_listed(db, only, l),
    ensures
        (exists|i: int| 0 <= i < l.simple@.len() && (#[trigger] l.simple@[i]).0@ == c) <==> db.indexes.secondary@.contains_key(
            c,
        ) && (only is None || only == Some(c)),
        (exists|i: int| 0 <= i < l.secondary@.len() && (#[trigger] l.secondary@[i]).0@ == c)
            <==> db.indexes.secondary@.contains_key(c) && (only is None || only == Some(c)),
        (exists|i: int| 0 <= i < l.fts@.len() && (#[trigger] l.fts@[i]).0@ == c) <==> db.indexes.fts@.contains_key(c) && (
        only is None || only == Some(c)),
        0 <= k < db.indexes.composite.indexes().len() && (only is None || only == Some(
            db.indexes.composite.indexes()[k].definition.collection@,
        )) ==> exists|j: int|
            0 <= j < l.composite@.len() && (#[trigger] l.composite@[j]).id
                == db.indexes.composite.indexes()[k].definition.id,
{
    collections_are_listed(db.indexes.secondary, only, l.simple@, c);
    collections_are_listed(db.indexes.secondary, only, l.secondary@, c);
    collections_are_listed(db.indexes.fts, only, l.fts@, c);
    composites_are_listed(db.indexes.composite.indexes(), only, l.composite@, k, 0);
}

/// A call that marks what stays on this device hands over what was written of the marks: all that
/// the store has after it.
pub proof fn kept_marks_are_handed(a: Hako, b: Hako, nanos: i64, o: Option<Outcome>)
    requires
        marks_kept(a, b, nanos, o),
        permitted(a.security_rules@, "__hako_system"@, AccessOp::Batch),
    ensures
        o is Some,
        b.shards@.contains_key("__hako_system"@),
        b.shards@["__hako_system"@].places().contains_key("local_only"@),
        exists|end: Option<u64>|
            b.shards@["__hako_system"@].places()["local_only"@] == Place::Inlined(
                doc_bytes(
                    #[trigger] skeleton_doc(
                        Doc {
                            fields: marks_doc(b.marks.col_list(), b.marks.key_list()).fields,
                            time: (nanos as int / 1000) as i64,
                        },
                        a.config.value_blob_threshold_bytes as nat,
                        end,
                    ),
                ),
            ),
{
    let m = with_marks(a, b.marks);
    let res = choose|res: Result<Outcome, HakoError>| #[trigger] marks_written(m, b, nanos, res) && o == ok_of(res);
    marks_are_written_down(m, b, nanos, res);
}

} // verus!
