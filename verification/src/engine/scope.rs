//! Writes to the documents that a query found, deletions that stay on this device, and what
//! can be looked up of a store.
use vstd::prelude::*;
use vstd::string::*;

use crate::directory::NameTable;
use crate::document::firelite_doc::{has_header, names_view, FireLiteDoc, FireLiteDocView};
use crate::document::value::{copy_bytes, fields_view, Value};
use crate::engine::access::{allowed, permitted};
use crate::engine::engine::{audit_line, audit_view, audited, opened, same_setup, Hako, Outcome};
use crate::engine::files::{files_wf, read_doc, FileReads};
use crate::engine::marks::{slot, Kept};
use crate::engine::store::{
    deletions, get_line, marks_written, only_audit, patches, query_line, shard_opened, with_marks, written,
};
use crate::engine::transaction::SerializableTransaction;
use crate::engine::types::{AccessOp, AuditEntry};
use crate::engine::write::shard_places;
use crate::error::{error_message, HakoError};
use crate::index::composite::composite_index::CompositeIndex;
use crate::index::composite::key_encoder::key_slice;
use crate::index::composite::manager::of_collection;
use crate::index::manager::under;
use crate::index::postings::entry_rows;
use crate::query::Query;
use crate::storage::blob::{
    attempted_doc, doc_end, doc_works, extract_blobs, resolve_doc, resolved_doc, skeleton_doc, unresolved, works_view,
    BlobWork,
};
use crate::storage::shard::document_bytes;
use crate::text::same_text;

verus! {

/// A write that did nothing.
pub open spec fn nothing_done(a: Hako, b: Hako, r: Result<Outcome, HakoError>) -> bool {
    &&& b == a
    &&& r matches Ok(o) && o.ids@.len() == 0 && o.applied@.len() == 0
}

/// The marks with documents of a collection marked.
pub open spec fn marked(k: Kept, c: Seq<char>, ids: Seq<Seq<char>>) -> Kept {
    Kept { collections: k.collections, documents: k.documents.union(slots(c, ids)) }
}

/// The slots of documents of a collection.
pub open spec fn slots(c: Seq<char>, ids: Seq<Seq<char>>) -> Set<Seq<char>> {
    Set::new(|s: Seq<char>| exists|i: int| 0 <= i < ids.len() && s == slot(c, #[trigger] ids[i]))
}

/// `b` is the store `a` after documents were marked as ones that stay on this device and
/// deleted. `r` holds what came of writing the marks, and of the deletions.
pub open spec fn deleted_here(
    a: Hako,
    b: Hako,
    files: Map<Seq<char>, FileReads>,
    nanos: i64,
    c: Seq<char>,
    ids: Seq<Seq<char>>,
    r: (Result<Outcome, HakoError>, Result<Outcome, HakoError>),
) -> bool {
    if ids.len() == 0 {
        nothing_done(a, b, r.0) && nothing_done(a, b, r.1)
    } else {
        &&& b.marks@ == marked(a.marks@, c, ids)
        &&& exists|mid: Hako|
            #![trigger written(mid, b, files, nanos, deletions(c, ids), r.1)]
            marks_written(with_marks(a, b.marks), mid, nanos, r.0) && written(mid, b, files, nanos, deletions(c, ids), r.1)
    }
}

/// The ids of rows.
pub open spec fn row_ids(rows: Seq<(String, FireLiteDoc)>) -> Seq<Seq<char>> {
    Seq::new(rows.len(), |i: int| rows[i].0@)
}

/// The ids of rows.
fn ids_of_rows(rows: &Vec<(String, FireLiteDoc)>) -> (r: Vec<String>)
    ensures
        names_view(r@) == row_ids(rows@),
{
    let mut r: Vec<String> = Vec::new();
    let mut i: usize = 0;
    while i < rows.len()
        invariant
            i <= rows@.len(),
            r@.len() == i,
            forall|k: int| 0 <= k < i ==> (#[trigger] r@[k])@ == rows@[k].0@,
        decreases rows@.len() - i,
    {
        r.push(rows[i].0.clone());
        i = i + 1;
    }
    proof {
        assert(names_view(r@) =~= row_ids(rows@));
    }
    r
}

/// What an index holds, for looking at it.
pub struct IndexContents {
    /// The keys of the index over the field, each with its documents.
    pub values: Vec<(Vec<u8>, Vec<String>)>,
    /// The keys of the composite indexes that hold the field, each with its document.
    pub composite: Vec<(Vec<u8>, String)>,
}

/// Whether a composite index holds a field.
pub open spec fn holds_field(x: CompositeIndex, field: Seq<char>) -> bool {
    exists|i: int| 0 <= i < x.definition.fields@.len() && (#[trigger] x.definition.fields@[i]).field@ == field
}

/// The entries of those of the indexes that hold a field.
pub open spec fn entries_with(s: Seq<CompositeIndex>, field: Seq<char>) -> Seq<(Seq<u8>, Seq<char>)>
    decreases s.len(),
{
    if s.len() == 0 {
        Seq::empty()
    } else if holds_field(s.last(), field) {
        entries_with(s.drop_last(), field) + tree_entries(s.last())
    } else {
        entries_with(s.drop_last(), field)
    }
}

/// The entries of a composite index in their order.
pub open spec fn tree_entries(x: CompositeIndex) -> Seq<(Seq<u8>, Seq<char>)> {
    Seq::new(x.tree.seq().len(), |i: int| (x.tree.seq()[i].0, x.tree.seq()[i].1@))
}

/// What a list of keys with documents stands for.
pub open spec fn found_view(s: Seq<(Vec<u8>, String)>) -> Seq<(Seq<u8>, Seq<char>)> {
    Seq::new(s.len(), |i: int| (s[i].0@, s[i].1@))
}

/// Whether a composite index holds a field.
fn has_field(x: &CompositeIndex, field: &str) -> (r: bool)
    ensures
        r == holds_field(*x, field@),
{
    let mut i: usize = 0;
    while i < x.definition.fields.len()
        invariant
            i <= x.definition.fields@.len(),
            forall|k: int| 0 <= k < i ==> (#[trigger] x.definition.fields@[k]).field@ != field@,
        decreases x.definition.fields@.len() - i,
    {
        if same_text(x.definition.fields[i].field.as_str(), field) {
            return true;
        }
        i = i + 1;
    }
    false
}

/// The indexes of a collection are sound where all are.
proof fn chosen_wf(s: Seq<CompositeIndex>, c: Seq<char>)
    requires
        forall|i: int| 0 <= i < s.len() ==> (#[trigger] s[i]).wf(),
    ensures
        forall|i: int| 0 <= i < of_collection(s, c).len() ==> (#[trigger] of_collection(s, c)[i]).wf(),
    decreases s.len(),
{
    if s.len() > 0 {
        let t = s.drop_last();
        assert forall|i: int| 0 <= i < t.len() implies (#[trigger] t[i]).wf() by {
            assert(t[i] == s[i]);
        }
        chosen_wf(t, c);
        assert forall|i: int| 0 <= i < of_collection(s, c).len() implies (#[trigger] of_collection(s, c)[i]).wf() by {
            if i < of_collection(t, c).len() {
                assert(of_collection(s, c)[i] == of_collection(t, c)[i]);
            } else {
                assert(of_collection(s, c)[i] == s[s.len() - 1]);
            }
        }
    }
}

/// Appends the entries of a composite index.
fn put_entries(x: &CompositeIndex, out: &mut Vec<(Vec<u8>, String)>)
    requires
        x.wf(),
    ensures
        found_view(final(out)@) == found_view(old(out)@) + tree_entries(*x),
{
    let ghost before = found_view(out@);
    let ghost t = tree_entries(*x);
    let mut i: usize = 0;
    proof {
        assert(before + t.take(0) =~= before);
    }
    while i < x.tree.len()
        invariant
            t == tree_entries(*x),
            i <= t.len(),
            found_view(out@) == before + t.take(i as int),
        decreases t.len() - i,
    {
        let ghost now = out@;
        let (k, id) = x.tree.entry(i);
        out.push((copy_bytes(key_slice(k)), id.clone()));
        proof {
            assert(found_view(out@) =~= found_view(now).push(t[i as int]));
            assert(before + t.take(i + 1) =~= (before + t.take(i as int)).push(t[i as int]));
        }
        i = i + 1;
    }
    proof {
        assert(t.take(i as int) =~= t);
    }
}

impl Hako {
    /// Marks documents as ones that stay on this device, and deletes them. Hands back what
    /// was written of the marks, and of the documents.
    pub fn delete_ids_local(
        &mut self,
        col: &str,
        ids: &Vec<String>,
        now_nanos: i64,
        files: &NameTable<FileReads>,
    ) -> (r: (Result<Outcome, HakoError>, Result<Outcome, HakoError>))
        requires
            old(self).wf(),
            files_wf(*files),
            now_nanos >= 0,
        ensures
            final(self).wf(),
            deleted_here(*old(self), *final(self), files@, now_nanos, col@, names_view(ids@), r),
    {
        if ids.len() == 0 {
            return (
                Ok(Outcome { ids: Vec::new(), applied: Vec::new() }),
                Ok(Outcome { ids: Vec::new(), applied: Vec::new() }),
            );
        }
        let ghost n = names_view(ids@);
        let mut i: usize = 0;
        proof {
            assert(self.marks@.documents =~= self.marks@.documents.union(slots(col@, n.take(0))));
        }
        while i < ids.len()
            invariant
                self.wf(),
                n == names_view(ids@),
                i <= ids@.len(),
                *self == with_marks(*old(self), self.marks),
                self.marks@ == marked(old(self).marks@, col@, n.take(i as int)),
            decreases ids@.len() - i,
        {
            let ghost before = self.marks@;
            self.marks.mark(col, ids[i].as_str());
            proof {
                let t = n.take(i + 1);
                let u = n.take(i as int);
                assert(t[i as int] == ids@[i as int]@);
                assert forall|s: Seq<char>| #[trigger] slots(col@, t).contains(s) == (slots(col@, u).contains(s) || s
                    == slot(col@, ids@[i as int]@)) by {
                    if slots(col@, u).contains(s) {
                        let k = choose|k: int| 0 <= k < u.len() && s == slot(col@, #[trigger] u[k]);
                        assert(t[k] == u[k]);
                    }
                    if slots(col@, t).contains(s) && s != slot(col@, ids@[i as int]@) {
                        let k = choose|k: int| 0 <= k < t.len() && s == slot(col@, #[trigger] t[k]);
                        assert(u[k] == t[k]);
                    }
                }
                assert(self.marks@.documents =~= old(self).marks@.documents.union(slots(col@, t)));
            }
            i = i + 1;
        }
        proof {
            assert(n.take(i as int) =~= n);
        }
        let ghost mine = *self;
        let first = self.persist_local_only(now_nanos);
        let ghost mid = *self;
        let second = self.delete_ids(col, ids, now_nanos, files);
        proof {
            assert(same_setup(mine, mid));
            assert(same_setup(mid, *self));
            assert(mine == with_marks(*old(self), self.marks));
        }
        let r = (first, second);
        proof {
            assert(marks_written(with_marks(*old(self), self.marks), mid, now_nanos, r.0));
            assert(written(mid, *self, files@, now_nanos, deletions(col@, n), r.1));
        }
        r
    }

    /// Marks a document as one that stays on this device, and deletes it. Hands back what was
    /// written of the mark, and of the document.
    pub fn delete_local(&mut self, col: &str, id: &str, now_nanos: i64, files: &NameTable<FileReads>) -> (r: (
        Result<Outcome, HakoError>,
        Result<Outcome, HakoError>,
    ))
        requires
            old(self).wf(),
            files_wf(*files),
            now_nanos >= 0,
        ensures
            final(self).wf(),
            deleted_here(*old(self), *final(self), files@, now_nanos, col@, seq![id@], r),
    {
        let mut ids: Vec<String> = Vec::new();
        ids.push(id.to_owned());
        proof {
            assert(names_view(ids@) =~= seq![id@]);
        }
        self.delete_ids_local(col, &ids, now_nanos, files)
    }

    /// Deletes the documents that a query of a collection found, in one batch.
    pub fn delete_where(
        &mut self,
        col: &str,
        rows: &Vec<(String, FireLiteDoc)>,
        now_nanos: i64,
        files: &NameTable<FileReads>,
    ) -> (r: Result<Outcome, HakoError>)
        requires
            old(self).wf(),
            files_wf(*files),
            now_nanos >= 0,
        ensures
            final(self).wf(),
            rows@.len() == 0 ==> nothing_done(*old(self), *final(self), r),
            rows@.len() > 0 ==> written(
                *old(self),
                *final(self),
                files@,
                now_nanos,
                deletions(col@, row_ids(rows@)),
                r,
            ),
    {
        if rows.len() == 0 {
            return Ok(Outcome { ids: Vec::new(), applied: Vec::new() });
        }
        let ids = ids_of_rows(rows);
        self.delete_ids(col, &ids, now_nanos, files)
    }

    /// Marks the documents that a query of a collection found as ones that stay on this
    /// device, and deletes them.
    pub fn delete_where_local(
        &mut self,
        col: &str,
        rows: &Vec<(String, FireLiteDoc)>,
        now_nanos: i64,
        files: &NameTable<FileReads>,
    ) -> (r: (Result<Outcome, HakoError>, Result<Outcome, HakoError>))
        requires
            old(self).wf(),
            files_wf(*files),
            now_nanos >= 0,
        ensures
            final(self).wf(),
            deleted_here(*old(self), *final(self), files@, now_nanos, col@, row_ids(rows@), r),
    {
        let ids = ids_of_rows(rows);
        self.delete_ids_local(col, &ids, now_nanos, files)
    }

    /// Puts values under keys of the documents that a query of a collection found, in one
    /// batch.
    pub fn patch_where(
        &mut self,
        col: &str,
        rows: &Vec<(String, FireLiteDoc)>,
        updates: &Vec<(String, Value)>,
        now_nanos: i64,
        files: &NameTable<FileReads>,
    ) -> (r: Result<Outcome, HakoError>)
        requires
            old(self).wf(),
            files_wf(*files),
            now_nanos >= 0,
        ensures
            final(self).wf(),
            rows@.len() == 0 ==> nothing_done(*old(self), *final(self), r),
            rows@.len() > 0 ==> written(
                *old(self),
                *final(self),
                files@,
                now_nanos,
                patches(col@, row_ids(rows@), fields_view(updates@)),
                r,
            ),
    {
        if rows.len() == 0 {
            return Ok(Outcome { ids: Vec::new(), applied: Vec::new() });
        }
        let ids = ids_of_rows(rows);
        self.patch_ids(col, &ids, updates, now_nanos, files)
    }

    /// The bytes of a document as stored, for looking at its fields, where the rules allow to
    /// read it. Bytes without the header of a document are no document.
    pub fn get_view(&mut self, collection: &str, doc_id: &str, reads: &FileReads) -> (r: Result<Option<Vec<u8>>, HakoError>)
        requires
            old(self).wf(),
            reads.wf(),
        ensures
            final(self).wf(),
            viewed(*old(self), *final(self), *reads, collection@, doc_id@, r),
    {
        if !allowed(&self.security_rules, collection, AccessOp::Get) {
            self.record_audit(
                AuditEntry {
                    op: AccessOp::Get,
                    collection: collection.to_owned(),
                    doc_id: Some(doc_id.to_owned()),
                    ok: false,
                },
            );
            return Err(HakoError::Corrupt("Denied".to_owned()));
        }
        let found = self.get_raw_bytes(collection, doc_id, reads);
        self.record_audit(
            AuditEntry { op: AccessOp::Get, collection: collection.to_owned(), doc_id: Some(doc_id.to_owned()), ok: true },
        );
        match found {
            Some(b) => if FireLiteDocView::new(b.as_slice()).is_some() {
                Ok(Some(b))
            } else {
                Ok(None)
            },
            None => Ok(None),
        }
    }

    /// Puts the values of a collection's blob file in place of the links of a document.
    pub fn resolve_document_blobs(&mut self, doc: &mut FireLiteDoc, collection: &str, reads: &FileReads) -> (r: Result<
        (),
        HakoError,
    >)
        requires
            old(self).wf(),
            reads.wf(),
        ensures
            final(self).wf(),
            shard_opened(*old(self), *final(self), collection@),
            match resolved_doc(
                old(doc)@,
                final(self).shards@[collection@].blob_end is Some,
                works_view(final(self).shards@[collection@].blob_flush_queue@),
                reads.blobs@,
            ) {
                Some(d) => r is Ok && final(doc)@ == d,
                None => {
                    &&& r matches Err(e) && unresolved(e, final(self).shards@[collection@].blob_end is Some)
                    &&& final(doc)@ == attempted_doc(
                        old(doc)@,
                        final(self).shards@[collection@].blob_end is Some,
                        works_view(final(self).shards@[collection@].blob_flush_queue@),
                        reads.blobs@,
                    )
                },
            },
    {
        let at = self.get_shard(collection);
        proof {
            self.shards.place_facts();
            assert(self.shards@.contains_key(collection@));
            assert(self.shards@[collection@] == self.shards.rows()[at as int].1);
        }
        let shard = self.shards.thing(at);
        resolve_doc(doc, shard.blob_end.is_some(), &shard.blob_flush_queue, &reads.blobs)
    }

    /// Answers a query with what was found for it, where the rules allow to query its
    /// collection.
    pub fn query<T>(&mut self, query: &Query, found: Result<T, HakoError>) -> (r: Result<T, HakoError>)
        requires
            old(self).wf(),
        ensures
            final(self).wf(),
            answered(*old(self), *final(self), query.collection@, found, r),
    {
        match self.admit_query(query.collection.as_str()) {
            Err(e) => {
                return Err(e);
            },
            Ok(_) => {},
        }
        let at = self.get_shard(query.collection.as_str());
        match found {
            Err(e) => Err(e),
            Ok(x) => {
                self.note_query(query.collection.as_str(), true);
                Ok(x)
            },
        }
    }

    /// Answers a query with the bytes of the documents that were found for it.
    pub fn query_raw(&mut self, query: &Query, found: Result<Vec<(String, Vec<u8>)>, HakoError>) -> (r: Result<
        Vec<(String, Vec<u8>)>,
        HakoError,
    >)
        requires
            old(self).wf(),
        ensures
            final(self).wf(),
            answered(*old(self), *final(self), query.collection@, found, r),
    {
        self.query(query, found)
    }

    /// Answers a query with some fields of the documents that were found for it.
    pub fn query_projected_zero_copy(
        &mut self,
        query: &Query,
        found: Result<Vec<(String, Vec<(String, Value)>)>, HakoError>,
    ) -> (r: Result<Vec<(String, Vec<(String, Value)>)>, HakoError>)
        requires
            old(self).wf(),
        ensures
            final(self).wf(),
            answered(*old(self), *final(self), query.collection@, found, r),
    {
        self.query(query, found)
    }

    /// Answers a query whose documents were lent out one by one, by their bytes, with how
    /// many there were.
    pub fn walk(&mut self, query: &Query, visited: Result<usize, HakoError>) -> (r: Result<usize, HakoError>)
        requires
            old(self).wf(),
        ensures
            final(self).wf(),
            answered(*old(self), *final(self), query.collection@, visited, r),
    {
        self.query(query, visited)
    }

    /// Answers a query whose documents were lent out one by one, to be read field by field,
    /// with how many there were.
    pub fn walk_view(&mut self, query: &Query, visited: Result<usize, HakoError>) -> (r: Result<usize, HakoError>)
        requires
            old(self).wf(),
        ensures
            final(self).wf(),
            answered(*old(self), *final(self), query.collection@, visited, r),
    {
        self.query(query, visited)
    }

    /// Answers a query with the figures that were computed for it, where the rules allow to
    /// query its collection. A figure is given by its bits. The audit also tells of a failure.
    pub fn execute_aggregation(&mut self, query: &Query, found: Result<Vec<(String, u64)>, HakoError>) -> (r: Result<
        Vec<(String, u64)>,
        HakoError,
    >)
        requires
            old(self).wf(),
        ensures
            final(self).wf(),
            figured(*old(self), *final(self), query.collection@, found, r),
    {
        match self.admit_query(query.collection.as_str()) {
            Err(e) => {
                return Err(e);
            },
            Ok(_) => {},
        }
        let at = self.get_shard(query.collection.as_str());
        self.note_query(query.collection.as_str(), found.is_ok());
        found
    }

    /// The lines of the audit.
    pub fn audit_entries(&self) -> (r: Vec<AuditEntry>)
        ensures
            audit_view(r@) == audit_view(self.audit_data@),
    {
        let mut r: Vec<AuditEntry> = Vec::new();
        let mut i: usize = 0;
        while i < self.audit_data.len()
            invariant
                i <= self.audit_data@.len(),
                r@.len() == i,
                forall|k: int| 0 <= k < i ==> audit_line(#[trigger] r@[k]) == audit_line(self.audit_data@[k]),
            decreases self.audit_data@.len() - i,
        {
            let e = &self.audit_data[i];
            let doc_id = match &e.doc_id {
                Some(s) => Some(s.clone()),
                None => None,
            };
            r.push(AuditEntry { op: e.op, collection: e.collection.clone(), doc_id, ok: e.ok });
            i = i + 1;
        }
        proof {
            assert(audit_view(r@) =~= audit_view(self.audit_data@));
        }
        r
    }

    /// The name of a store, which is that of its directory; a path that ends in none gives a
    /// name of its own.
    pub fn db_name(file_name: Option<&str>) -> (r: String)
        ensures
            r@ == (match file_name {
                Some(n) => n@,
                None => "hakodb_default"@,
            }),
    {
        match file_name {
            Some(n) => n.to_owned(),
            None => "hakodb_default".to_owned(),
        }
    }

    /// Puts links in place of the large values of a document, and hands back what is to be
    /// written into the blob file, whose end moves past it.
    pub fn process_doc_blobs(&self, key: &str, doc: &mut FireLiteDoc, threshold: usize, end: &mut u64) -> (r: Vec<
        BlobWork,
    >)
        ensures
            final(doc)@ == skeleton_doc(old(doc)@, threshold as nat, Some(*old(end))),
            Some(*final(end)) == doc_end(old(doc)@, threshold as nat, Some(*old(end))),
            works_view(r@) == doc_works(key@, old(doc)@, threshold as nat, Some(*old(end))),
    {
        extract_blobs(key, doc, threshold, end)
    }

    /// Whether the indexes have been brought back.
    pub fn is_indexes_ready(&self) -> (r: bool)
        ensures
            r == self.indexes_ready,
    {
        self.indexes_ready
    }

    /// Whether queries may use the indexes: they have been brought back, and none is being
    /// filled.
    pub fn index_query_ready(&self, backfills: usize) -> (r: bool)
        ensures
            r == (self.indexes_ready && backfills == 0),
    {
        self.indexes_ready && backfills == 0
    }

    /// A transaction without reads and changes.
    pub fn begin_serializable_transaction(&self) -> (t: SerializableTransaction)
        ensures
            t.reads.wf(),
            t.reads@ == Map::<Seq<char>, Option<u64>>::empty(),
            t.mutations@.len() == 0,
    {
        SerializableTransaction::new()
    }

    /// What the indexes of a collection hold for a field.
    pub fn inspect_index(&self, collection: &str, field: &str) -> (r: IndexContents)
        requires
            self.wf(),
        ensures
            match under(self.indexes.secondary, collection@, field@) {
                Some(x) => entry_rows(r.values@) == x.saved(),
                None => r.values@.len() == 0,
            },
            found_view(r.composite@) == entries_with(of_collection(self.indexes.composite.indexes(), collection@), field@),
    {
        proof {
            self.indexes.secondary.place_facts();
        }
        let values = match self.indexes.secondary.find(collection) {
            None => Vec::new(),
            Some(at) => {
                let fields = self.indexes.secondary.thing(at);
                proof {
                    assert(self.indexes.secondary@.contains_key(collection@));
                    assert(self.indexes.secondary@[collection@] == self.indexes.secondary.rows()[at as int].1);
                    fields.place_facts();
                }
                match fields.find(field) {
                    None => Vec::new(),
                    Some(k) => fields.thing(k).get_map(),
                }
            },
        };
        let list = self.indexes.composite.indexes_for_collection(collection);
        let ghost s = of_collection(self.indexes.composite.indexes(), collection@);
        let mut composite: Vec<(Vec<u8>, String)> = Vec::new();
        let mut i: usize = 0;
        proof {
            chosen_wf(self.indexes.composite.indexes(), collection@);
            assert(s.take(0) =~= Seq::<CompositeIndex>::empty());
            assert(found_view(composite@) =~= Seq::<(Seq<u8>, Seq<char>)>::empty());
        }
        while i < list.len()
            invariant
                i <= list@.len() == s.len(),
                forall|k: int| 0 <= k < list@.len() ==> *(#[trigger] list@[k]) == s[k] && s[k].wf(),
                found_view(composite@) == entries_with(s.take(i as int), field@),
            decreases list@.len() - i,
        {
            proof {
                assert(s.take(i + 1).drop_last() =~= s.take(i as int));
                assert(s.take(i + 1).last() == s[i as int]);
            }
            let x = list[i];
            if has_field(x, field) {
                put_entries(x, &mut composite);
            }
            i = i + 1;
        }
        proof {
            assert(s.take(i as int) =~= s);
        }
        IndexContents { values, composite }
    }
}

/// An answer to a query with what was found for it: refused where the rules do not allow to
/// query the collection.
pub open spec fn answered<T>(a: Hako, b: Hako, c: Seq<char>, found: Result<T, HakoError>, r: Result<T, HakoError>) -> bool {
    let log = audit_view(a.audit_data@);
    if !permitted(a.security_rules@, c, AccessOp::Query) {
        &&& r matches Err(e) && e is Corrupt && error_message(e) == "Denied"@
        &&& only_audit(a, b)
        &&& audit_view(b.audit_data@) == audited(a.config, log, query_line(c, false))
    } else {
        &&& r == found
        &&& same_setup(a, b)
        &&& opened(a.shards@, b.shards@, c)
        &&& b.versions == a.versions
        &&& b.doc_cache == a.doc_cache
        &&& b.id_sequence == a.id_sequence
        &&& audit_view(b.audit_data@) == (if found is Ok {
            audited(a.config, log, query_line(c, true))
        } else {
            log
        })
    }
}

/// What became of a query for figures. The audit tells how it went, well or not.
pub open spec fn figured<T>(a: Hako, b: Hako, c: Seq<char>, found: Result<T, HakoError>, r: Result<T, HakoError>) -> bool {
    let log = audit_view(a.audit_data@);
    if !permitted(a.security_rules@, c, AccessOp::Query) {
        answered(a, b, c, found, r)
    } else {
        &&& r == found
        &&& same_setup(a, b)
        &&& opened(a.shards@, b.shards@, c)
        &&& b.versions == a.versions
        &&& b.doc_cache == a.doc_cache
        &&& b.id_sequence == a.id_sequence
        &&& audit_view(b.audit_data@) == audited(a.config, log, query_line(c, found is Ok))
    }
}

/// A look at the bytes of a document: refused where the rules do not allow to read it.
pub open spec fn viewed(
    a: Hako,
    b: Hako,
    reads: FileReads,
    c: Seq<char>,
    id: Seq<char>,
    r: Result<Option<Vec<u8>>, HakoError>,
) -> bool {
    let log = audit_view(a.audit_data@);
    if !permitted(a.security_rules@, c, AccessOp::Get) {
        &&& r matches Err(e) && e is Corrupt && error_message(e) == "Denied"@
        &&& only_audit(a, b)
        &&& audit_view(b.audit_data@) == audited(a.config, log, get_line(c, id, false))
    } else {
        &&& same_setup(a, b)
        &&& opened(a.shards@, b.shards@, c)
        &&& b.versions == a.versions
        &&& b.doc_cache == a.doc_cache
        &&& b.id_sequence == a.id_sequence
        &&& audit_view(b.audit_data@) == audited(a.config, log, get_line(c, id, true))
        &&& match document_bytes(shard_places(a.shards@, c), id, read_doc(reads, id)) {
            Some(m) => if has_header(m) {
                r matches Ok(Some(x)) && x@ == m
            } else {
                r matches Ok(None)
            },
            None => r matches Ok(None),
        }
    }
}

} // verus!
