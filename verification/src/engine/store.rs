//! Reads and writes of the store, and what may be done by whom.
use vstd::prelude::*;
use vstd::string::*;

use crate::directory::NameTable;
use crate::document::firelite_doc::{decode_doc, doc_bytes, document_round_trip, names_view, Doc, FireLiteDoc};
use crate::document::value::{fields_view, parts_view, Val, Value};
use crate::engine::access::{allowed, permitted};
use crate::engine::engine::{
    audit_view, audited, batch_done, batch_line, batch_speaks_of, env_of, is_shard,
    op_keys, opened, outcome_is, read_result, ready_doc, same_setup, shard_planned, speaks_of,
    AuditLine, Hako, Outcome, DOC_CACHE_CAPACITY,
};
use crate::engine::files::{files_wf, read_doc, FileReads};
use crate::engine::ids::{subcollection, subcollection_prefix};
use crate::engine::marks::{listed, marks_doc, released, slot, slot_name, Marks};
use crate::engine::types::{wish_collection, wishes, AccessOp, AuditEntry, BatchMutation, SecurityRule, Wish};
use crate::engine::versions::version_of;
use crate::engine::write::{plan_step, shard_after, shard_places, staged, Env, Plan, Staging};
use crate::error::{error_message, HakoError};
use crate::sorted_map::{ascending, ascending_dom_len, ascending_entry, key_lt, key_order_total, SortedMap};
use crate::storage::blob::{
    comes_back, doc_works, extraction_is_undone, is_link, resolve_doc, skeleton_doc,
    unresolved, works_view,
};
use crate::index::composite::composite_index::docs_view;
use crate::storage::pointer::{place_bytes, Place, Pointer};
use crate::storage::shard::{
    applied, applied_elsewhere, deletes_of, document_bytes, is_version, live_keys, puts_of,
    vacuumed, Shard,
};
use crate::storage::wal::{change_key, Change};

verus! {

/// Whether the rules of a store allow every change of a batch.
pub open spec fn batch_permitted(db: Hako, w: Seq<Wish>) -> bool {
    forall|i: int|
        0 <= i < w.len() ==> permitted(db.security_rules@, wish_collection(#[trigger] w[i]), AccessOp::Batch)
}

/// Nothing but the audit has changed.
pub open spec fn only_audit(a: Hako, b: Hako) -> bool {
    &&& same_setup(a, b)
    &&& b.shards == a.shards
    &&& b.versions == a.versions
    &&& b.doc_cache == a.doc_cache
    &&& b.id_sequence == a.id_sequence
}

/// `b` is the store `a` after a batch of changes that its rules allow; one that they do not
/// allow is refused.
pub open spec fn written(
    a: Hako,
    b: Hako,
    files: Map<Seq<char>, FileReads>,
    nanos: i64,
    w: Seq<Wish>,
    r: Result<Outcome, HakoError>,
) -> bool {
    let st = staged(env_of(a, files, nanos), w);
    let log = audit_view(a.audit_data@);
    if batch_permitted(a, w) {
        &&& r is Ok
        &&& batch_done(a, b, st)
        &&& outcome_is(r->Ok_0, a, files, st)
        &&& audit_view(b.audit_data@) == audited(a.config, audited(a.config, log, batch_line(true)), batch_line(true))
    } else {
        &&& r matches Err(e) && e is Corrupt && error_message(e) == "Security Denied"@
        &&& only_audit(a, b)
        &&& audit_view(b.audit_data@) == audited(a.config, log, batch_line(false))
    }
}

/// What the cache holds after a document was read: the document, and what it held before.
/// Where it was full one document had to leave, and no more than one: it does not outgrow
/// its capacity.
pub open spec fn cached(
    a: SortedMap<String, (u64, FireLiteDoc)>,
    b: SortedMap<String, (u64, FireLiteDoc)>,
    name: Seq<char>,
    version: u64,
    doc: Doc,
) -> bool {
    &&& b@.contains_key(name) && b@[name].0 == version && b@[name].1@ == doc
    &&& forall|s: Seq<char>| s != name && #[trigger] b@.contains_key(s) ==> a@.contains_key(s) && b@[s] == a@[s]
    &&& a.seq().len() < DOC_CACHE_CAPACITY ==> forall|s: Seq<char>| #[trigger] a@.contains_key(s) ==> b@.contains_key(s)
    &&& forall|s: Seq<char>, t: Seq<char>| #![trigger a@.contains_key(s), a@.contains_key(t)]
        a@.contains_key(s) && a@.contains_key(t) && !b@.contains_key(s) && !b@.contains_key(t) ==> s == t
    &&& a.seq().len() <= DOC_CACHE_CAPACITY ==> b.seq().len() <= DOC_CACHE_CAPACITY
    &&& a.seq().len() > DOC_CACHE_CAPACITY ==> b.seq().len() <= a.seq().len()
}

/// The line of the audit for a read.
pub open spec fn get_line(c: Seq<char>, id: Seq<char>, ok: bool) -> AuditLine {
    AuditLine { op: AccessOp::Get, collection: c, id: Some(id), ok }
}

/// A read of a document: refused where the rules do not allow it, answered from what is
/// held ready where that is still right, and else from the collection.
pub open spec fn got(
    a: Hako,
    b: Hako,
    reads: FileReads,
    c: Seq<char>,
    id: Seq<char>,
    r: Result<Option<FireLiteDoc>, HakoError>,
) -> bool {
    let log = audit_view(a.audit_data@);
    if !permitted(a.security_rules@, c, AccessOp::Get) {
        &&& r matches Err(e) && e is Corrupt && error_message(e) == "Denied"@
        &&& only_audit(a, b)
        &&& audit_view(b.audit_data@) == audited(a.config, log, get_line(c, id, false))
    } else if ready_doc(a, c, id) is Some {
        &&& r matches Ok(Some(d)) && Some(d@) == ready_doc(a, c, id)
        &&& b == a
    } else {
        &&& same_setup(a, b)
        &&& opened(a.shards@, b.shards@, c)
        &&& b.versions == a.versions
        &&& b.id_sequence == a.id_sequence
        &&& audit_view(b.audit_data@) == audited(a.config, log, get_line(c, id, true))
        &&& match read_result(a.shards@, c, id, reads) {
            None => {
                &&& r matches Err(e) && unresolved(e, b.shards@[c].blob_end is Some)
                &&& b.doc_cache == a.doc_cache
            },
            Some(None) => r matches Ok(None) && b.doc_cache == a.doc_cache,
            Some(Some(d)) => {
                &&& r matches Ok(Some(x)) && x@ == d
                &&& match version_of(a.versions@, id) {
                    Some(v) => cached(a.doc_cache, b.doc_cache, slot(c, id), v, d),
                    None => b.doc_cache == a.doc_cache,
                }
            },
        }
    }
}

impl Hako {
    /// Applies a batch of changes at a time, where the rules allow all of them.
    pub fn write_batch(
        &mut self,
        mutations: &Vec<BatchMutation>,
        now_nanos: i64,
        files: &NameTable<FileReads>,
    ) -> (r: Result<Outcome, HakoError>)
        requires
            old(self).wf(),
            files_wf(*files),
            now_nanos >= 0,
        ensures
            final(self).wf(),
            written(*old(self), *final(self), files@, now_nanos, wishes(mutations@), r),
    {
        let ghost w = wishes(mutations@);
        let mut i: usize = 0;
        while i < mutations.len()
            invariant
                w == wishes(mutations@),
                i <= mutations@.len(),
                *self == *old(self),
                self.wf(),
                forall|k: int|
                    0 <= k < i ==> permitted(self.security_rules@, wish_collection(#[trigger] w[k]), AccessOp::Batch),
            decreases mutations@.len() - i,
        {
            let ok = allowed(&self.security_rules, mutations[i].get_col().as_str(), AccessOp::Batch);
            proof {
                assert(w[i as int] == mutations@[i as int]@);
            }
            if !ok {
                self.record_audit(
                    AuditEntry { op: AccessOp::Batch, collection: "<sharded>".to_owned(), doc_id: None, ok: false },
                );
                return Err(HakoError::Corrupt("Security Denied".to_owned()));
            }
            i = i + 1;
        }
        let r = self.write_batch_internal(mutations, now_nanos, files);
        self.record_audit(AuditEntry { op: AccessOp::Batch, collection: "<sharded>".to_owned(), doc_id: None, ok: true });
        Ok(r)
    }

    /// Puts a document. Its id is made where the given one is empty.
    pub fn put_owned(&mut self, col: &str, id: &str, doc: FireLiteDoc, now_nanos: i64) -> (r: Result<Outcome, HakoError>)
        requires
            old(self).wf(),
            now_nanos >= 0,
        ensures
            final(self).wf(),
            written(
                *old(self),
                *final(self),
                Map::empty(),
                now_nanos,
                seq![Wish::Put { collection: col@, id: id@, doc: doc@ }],
                r,
            ),
    {
        let ghost w = seq![Wish::Put { collection: col@, id: id@, doc: doc@ }];
        let mut m: Vec<BatchMutation> = Vec::new();
        m.push(BatchMutation::Put { collection: col.to_owned(), doc_id: id.to_owned(), doc });
        let files: NameTable<FileReads> = NameTable::new();
        proof {
            assert(wishes(m@) =~= w);
        }
        self.write_batch(&m, now_nanos, &files)
    }

    /// Puts a document. Its id is made where the given one is empty.
    pub fn put(&mut self, col: &str, id: &str, doc: &FireLiteDoc, now_nanos: i64) -> (r: Result<Outcome, HakoError>)
        requires
            old(self).wf(),
            now_nanos >= 0,
        ensures
            final(self).wf(),
            written(
                *old(self),
                *final(self),
                Map::empty(),
                now_nanos,
                seq![Wish::Put { collection: col@, id: id@, doc: doc@ }],
                r,
            ),
    {
        self.put_owned(col, id, doc.clone(), now_nanos)
    }

    /// Puts a document into a collection inside another document.
    pub fn put_subdocument(
        &mut self,
        col: &str,
        id: &str,
        subcol: &str,
        subid: &str,
        doc: &FireLiteDoc,
        now_nanos: i64,
    ) -> (r: Result<Outcome, HakoError>)
        requires
            old(self).wf(),
            now_nanos >= 0,
        ensures
            final(self).wf(),
            written(
                *old(self),
                *final(self),
                Map::empty(),
                now_nanos,
                seq![Wish::Put { collection: subcollection(id@, subcol@), id: subid@, doc: doc@ }],
                r,
            ),
    {
        let name = subcollection_prefix(col, id, subcol);
        self.put(name.as_str(), subid, doc, now_nanos)
    }

    /// Deletes a document.
    pub fn delete(&mut self, col: &str, id: &str, now_nanos: i64, files: &NameTable<FileReads>) -> (r: Result<
        Outcome,
        HakoError,
    >)
        requires
            old(self).wf(),
            files_wf(*files),
            now_nanos >= 0,
        ensures
            final(self).wf(),
            written(
                *old(self),
                *final(self),
                files@,
                now_nanos,
                seq![Wish::Delete { collection: col@, id: id@ }],
                r,
            ),
    {
        let ghost w = seq![Wish::Delete { collection: col@, id: id@ }];
        let mut m: Vec<BatchMutation> = Vec::new();
        m.push(BatchMutation::Delete { collection: col.to_owned(), doc_id: id.to_owned() });
        proof {
            assert(wishes(m@) =~= w);
        }
        self.write_batch(&m, now_nanos, files)
    }

    /// Deletes documents by their ids, in one batch.
    pub fn delete_ids(&mut self, col: &str, ids: &Vec<String>, now_nanos: i64, files: &NameTable<FileReads>) -> (r: Result<
        Outcome,
        HakoError,
    >)
        requires
            old(self).wf(),
            files_wf(*files),
            now_nanos >= 0,
        ensures
            final(self).wf(),
            written(*old(self), *final(self), files@, now_nanos, deletions(col@, names_view(ids@)), r),
    {
        let ghost w = deletions(col@, names_view(ids@));
        let mut m: Vec<BatchMutation> = Vec::new();
        let mut i: usize = 0;
        while i < ids.len()
            invariant
                i <= ids@.len(),
                m@.len() == i,
                w == deletions(col@, names_view(ids@)),
                forall|k: int| 0 <= k < i ==> (#[trigger] m@[k])@ == w[k],
            decreases ids@.len() - i,
        {
            m.push(BatchMutation::Delete { collection: col.to_owned(), doc_id: ids[i].clone() });
            i = i + 1;
        }
        proof {
            assert(wishes(m@) =~= w);
        }
        self.write_batch(&m, now_nanos, files)
    }

    /// Puts values under keys of documents, in one batch.
    pub fn patch_ids(
        &mut self,
        col: &str,
        ids: &Vec<String>,
        updates: &Vec<(String, Value)>,
        now_nanos: i64,
        files: &NameTable<FileReads>,
    ) -> (r: Result<Outcome, HakoError>)
        requires
            old(self).wf(),
            files_wf(*files),
            now_nanos >= 0,
        ensures
            final(self).wf(),
            written(
                *old(self),
                *final(self),
                files@,
                now_nanos,
                patches(col@, names_view(ids@), fields_view(updates@)),
                r,
            ),
    {
        let ghost w = patches(col@, names_view(ids@), fields_view(updates@));
        let mut m: Vec<BatchMutation> = Vec::new();
        let mut i: usize = 0;
        while i < ids.len()
            invariant
                i <= ids@.len(),
                m@.len() == i,
                w == patches(col@, names_view(ids@), fields_view(updates@)),
                forall|k: int| 0 <= k < i ==> (#[trigger] m@[k])@ == w[k],
            decreases ids@.len() - i,
        {
            m.push(
                BatchMutation::Patch {
                    collection: col.to_owned(),
                    doc_id: ids[i].clone(),
                    updates: crate::document::value::copy_fields(updates),
                },
            );
            i = i + 1;
        }
        proof {
            assert(wishes(m@) =~= w);
        }
        self.write_batch(&m, now_nanos, files)
    }

    /// Puts values under keys of a document, where the rules allow to put into its
    /// collection.
    pub fn patch(
        &mut self,
        col: &str,
        id: &str,
        updates: &Vec<(String, Value)>,
        now_nanos: i64,
        files: &NameTable<FileReads>,
    ) -> (r: Result<Outcome, HakoError>)
        requires
            old(self).wf(),
            files_wf(*files),
            now_nanos >= 0,
        ensures
            final(self).wf(),
            patched(*old(self), *final(self), files@, now_nanos, col@, id@, fields_view(updates@), r),
    {
        if !allowed(&self.security_rules, col, AccessOp::Put) {
            self.record_audit(
                AuditEntry { op: AccessOp::Put, collection: col.to_owned(), doc_id: Some(id.to_owned()), ok: false },
            );
            return Err(HakoError::Corrupt("Denied".to_owned()));
        }
        let mut ids: Vec<String> = Vec::new();
        ids.push(id.to_owned());
        let r = self.patch_ids(col, &ids, updates, now_nanos, files);
        proof {
            assert(patches(col@, names_view(ids@), fields_view(updates@)) =~= patches(
                col@,
                seq![id@],
                fields_view(updates@),
            ));
        }
        let ghost mid = *self;
        let ok: bool = match &r {
            Ok(_) => true,
            Err(_) => false,
        };
        self.record_audit(AuditEntry { op: AccessOp::Put, collection: col.to_owned(), doc_id: Some(id.to_owned()), ok });
        r
    }

    /// Applies a batch if none of the documents that were read for it has changed since.
    pub fn commit_serializable(
        &mut self,
        reads: &SortedMap<String, Option<u64>>,
        mutations: &Vec<BatchMutation>,
        now_nanos: i64,
        files: &NameTable<FileReads>,
    ) -> (r: Result<Outcome, HakoError>)
        requires
            old(self).wf(),
            reads.wf(),
            files_wf(*files),
            now_nanos >= 0,
        ensures
            final(self).wf(),
            if unchanged(*old(self), reads@) {
                let st = staged(env_of(*old(self), files@, now_nanos), wishes(mutations@));
                &&& r is Ok
                &&& batch_done(*old(self), *final(self), st)
                &&& outcome_is(r->Ok_0, *old(self), files@, st)
                &&& audit_view(final(self).audit_data@) == audited(
                    old(self).config,
                    audit_view(old(self).audit_data@),
                    batch_line(true),
                )
            } else {
                &&& r matches Err(e) && e is Corrupt && error_message(e) == "Transaction Conflict"@
                &&& *final(self) == *old(self)
            },
    {
        let ghost s = reads.seq();
        let mut i: usize = 0;
        while i < reads.len()
            invariant
                s == reads.seq(),
                reads.wf(),
                i <= s.len(),
                *self == *old(self),
                self.wf(),
                forall|k: int| 0 <= k < i ==> version_of(self.versions@, (#[trigger] s[k]).0) == s[k].1,
            decreases s.len() - i,
        {
            let (key, expected) = reads.entry(i);
            let now = self.versions.current_version(key);
            let same: bool = match (now, expected) {
                (Some(a), Some(b)) => a == *b,
                (None, None) => true,
                _ => false,
            };
            proof {
                ascending_entry::<String, Option<u64>>(s, i as int);
            }
            if !same {
                return Err(HakoError::Corrupt("Transaction Conflict".to_owned()));
            }
            i = i + 1;
        }
        proof {
            assert forall|k: Seq<char>| #[trigger] reads@.contains_key(k) implies version_of(self.versions@, k)
                == reads@[k] by {
                let j = choose|j: int| 0 <= j < s.len() && #[trigger] s[j].0 == k;
                ascending_entry::<String, Option<u64>>(s, j);
            }
        }
        Ok(self.write_batch_internal(mutations, now_nanos, files))
    }

    /// Holds a document ready for the next read.
    fn hold_ready(&mut self, name: String, version: u64, doc: FireLiteDoc)
        requires
            old(self).doc_cache.wf(),
        ensures
            final(self).doc_cache.wf(),
            cached(old(self).doc_cache, final(self).doc_cache, name@, version, doc@),
            same_setup(*old(self), *final(self)),
            final(self).shards == old(self).shards,
            final(self).versions == old(self).versions,
            final(self).audit_data == old(self).audit_data,
            final(self).id_sequence == old(self).id_sequence,
    {
        if self.doc_cache.len() >= DOC_CACHE_CAPACITY {
            let gone = self.doc_cache.remove_at(0);
        }
        let ghost room = self.doc_cache;
        let had = self.doc_cache.insert(name, (version, doc));
        proof {
            ascending_dom_len::<String, (u64, FireLiteDoc)>(room.seq());
            ascending_dom_len::<String, (u64, FireLiteDoc)>(self.doc_cache.seq());
            assert(self.doc_cache@.dom() =~= room@.dom().insert(name@));
        }
    }

    /// Reads a document. `reads` is what was read from the files of the collection.
    pub fn get(&mut self, collection: &str, doc_id: &str, reads: &FileReads) -> (r: Result<Option<FireLiteDoc>, HakoError>)
        requires
            old(self).wf(),
            reads.wf(),
        ensures
            final(self).wf(),
            got(*old(self), *final(self), *reads, collection@, doc_id@, r),
    {
        if !allowed(&self.security_rules, collection, AccessOp::Get) {
            self.record_audit(
                AuditEntry {
                    op: AccessOp::Get,
                    collection: collection.to_owned(),
                    doc_id: Some(doc_id.to_owned()),
                    ok: false,
                },
            );
            return Err(HakoError::Corrupt("Denied".to_owned()));
        }
        let key = doc_id.to_owned();
        let version = self.versions.current_version(&key);
        let name = slot_name(collection, doc_id);
        if let Some(v) = version {
            if let Some(entry) = self.doc_cache.get(&name) {
                if entry.0 == v {
                    return Ok(Some(entry.1.clone()));
                }
            }
        }
        let ghost start = *self;
        let at = self.get_shard(collection);
        proof {
            self.shards.place_facts();
            assert(self.shards@.contains_key(collection@));
            assert(self.shards@[collection@] == self.shards.rows()[at as int].1);
            let s = self.shards@[collection@];
            if !start.shards@.contains_key(collection@) {
                assert(s.places() =~= shard_places(start.shards@, collection@));
                assert(works_view(s.blob_flush_queue@) =~= Seq::empty());
            }
        }
        let shard = self.shards.thing(at);
        let found = match shard.get(&key, reads.documents.get(&key)) {
            Some(b) => FireLiteDoc::decode(b.as_slice()),
            None => None,
        };
        let answer: Result<Option<FireLiteDoc>, HakoError> = match found {
            None => Ok(None),
            Some(d) => {
                let mut doc = d;
                match resolve_doc(&mut doc, shard.blob_end.is_some(), &shard.blob_flush_queue, &reads.blobs) {
                    Ok(_) => Ok(Some(doc)),
                    Err(e) => Err(e),
                }
            },
        };
        self.record_audit(
            AuditEntry { op: AccessOp::Get, collection: collection.to_owned(), doc_id: Some(doc_id.to_owned()), ok: true },
        );
        if let Ok(Some(doc)) = &answer {
            if let Some(v) = version {
                self.hold_ready(name, v, doc.clone());
            }
        }
        answer
    }

    /// Reads the document that a reference leads to.
    pub fn get_by_reference(&mut self, reference: &Value, reads: &FileReads) -> (r: Result<Option<FireLiteDoc>, HakoError>)
        requires
            old(self).wf(),
            reads.wf(),
        ensures
            final(self).wf(),
            match reference@ {
                Val::Reference { collection, doc_id } => got(*old(self), *final(self), *reads, collection, doc_id, r),
                _ => {
                    &&& r matches Err(e) && e is Corrupt && error_message(e) == "Not ref"@
                    &&& *final(self) == *old(self)
                },
            },
    {
        proof {
            parts_view(*reference);
        }
        match reference {
            Value::Reference { collection, doc_id } => self.get(collection.as_str(), doc_id.as_str(), reads),
            _ => Err(HakoError::Corrupt("Not ref".to_owned())),
        }
    }

    /// The bytes of a document as stored.
    pub fn get_raw_bytes(&mut self, collection: &str, doc_id: &str, reads: &FileReads) -> (r: Option<Vec<u8>>)
        requires
            old(self).wf(),
            reads.wf(),
        ensures
            final(self).wf(),
            shard_opened(*old(self), *final(self), collection@),
            match (r, document_bytes(shard_places(old(self).shards@, collection@), doc_id@, read_doc(*reads, doc_id@))) {
                (Some(b), Some(m)) => b@ == m,
                (None, None) => true,
                _ => false,
            },
    {
        let ghost start = *self;
        let at = self.get_shard(collection);
        proof {
            self.shards.place_facts();
            assert(self.shards@.contains_key(collection@));
            if !start.shards@.contains_key(collection@) {
                assert(self.shards@[collection@].places() =~= shard_places(start.shards@, collection@));
            }
        }
        let key = doc_id.to_owned();
        self.shards.thing(at).get(&key, reads.documents.get(&key))
    }

    /// Whether the rules allow to query a collection. A refusal goes into the audit.
    pub fn admit_query(&mut self, collection: &str) -> (r: Result<(), HakoError>)
        ensures
            permitted(old(self).security_rules@, collection@, AccessOp::Query) ==> r is Ok && *final(self) == *old(self),
            !permitted(old(self).security_rules@, collection@, AccessOp::Query) ==> {
                &&& r matches Err(e) && e is Corrupt && error_message(e) == "Denied"@
                &&& only_audit(*old(self), *final(self))
                &&& audit_view(final(self).audit_data@) == audited(
                    old(self).config,
                    audit_view(old(self).audit_data@),
                    query_line(collection@, false),
                )
            },
    {
        if !allowed(&self.security_rules, collection, AccessOp::Query) {
            self.record_audit(
                AuditEntry { op: AccessOp::Query, collection: collection.to_owned(), doc_id: None, ok: false },
            );
            return Err(HakoError::Corrupt("Denied".to_owned()));
        }
        Ok(())
    }

    /// All documents of a collection as they are stored, where the rules allow to query it.
    pub fn query_all(&mut self, collection: &str, reads: &FileReads) -> (r: Result<Vec<(String, FireLiteDoc)>, HakoError>)
        requires
            old(self).wf(),
            reads.wf(),
        ensures
            final(self).wf(),
            queried(*old(self), *final(self), *reads, collection@, r),
    {
        match self.admit_query(collection) {
            Err(e) => {
                return Err(e);
            },
            Ok(_) => {},
        }
        let ghost start = *self;
        let at = self.get_shard(collection);
        proof {
            self.shards.place_facts();
            assert(self.shards@.contains_key(collection@));
            assert(self.shards@[collection@] == self.shards.rows()[at as int].1);
        }
        let shard = self.shards.thing(at);
        let ghost s = shard.index.seq();
        let mut rows: Vec<(String, FireLiteDoc)> = Vec::new();
        let mut i: usize = 0;
        proof {
            assert(s.take(0) =~= Seq::<(Seq<char>, Pointer)>::empty());
            assert(docs_view(rows@) =~= Seq::<(Seq<char>, Doc)>::empty());
        }
        while i < shard.index.len()
            invariant
                reads.wf(),
                s == shard.index.seq(),
                i <= s.len(),
                docs_view(rows@) == stored_docs(s.take(i as int), *reads),
            decreases s.len() - i,
        {
            proof {
                assert(s.take(i + 1).drop_last() =~= s.take(i as int));
                assert(s.take(i + 1).last() == s[i as int]);
            }
            let ghost before = rows@;
            let (k, p) = shard.index.entry(i);
            if let Some(b) = p.bytes(reads.documents.get(k)) {
                if let Some(d) = FireLiteDoc::decode(b.as_slice()) {
                    let ghost dd = d@;
                    rows.push((k.clone(), d));
                    proof {
                        assert(docs_view(rows@) =~= docs_view(before).push((s[i as int].0, dd)));
                    }
                }
            }
            i = i + 1;
        }
        proof {
            assert(s.take(i as int) =~= s);
        }
        self.note_query(collection, true);
        Ok(rows)
    }

    /// Takes note in the audit of a query that was answered.
    pub fn note_query(&mut self, collection: &str, ok: bool)
        ensures
            only_audit(*old(self), *final(self)),
            audit_view(final(self).audit_data@) == audited(
                old(self).config,
                audit_view(old(self).audit_data@),
                query_line(collection@, ok),
            ),
    {
        self.record_audit(AuditEntry { op: AccessOp::Query, collection: collection.to_owned(), doc_id: None, ok });
    }

    /// Sets the rules.
    pub fn set_security_rules(&mut self, rules: Vec<SecurityRule>)
        ensures
            *final(self) == (Hako { security_rules: rules, ..*old(self) }),
    {
        self.security_rules = rules;
    }

    /// Writes the marks into the document that keeps them.
    pub fn persist_local_only(&mut self, now_nanos: i64) -> (r: Result<Outcome, HakoError>)
        requires
            old(self).wf(),
            now_nanos >= 0,
        ensures
            final(self).wf(),
            marks_written(*old(self), *final(self), now_nanos, r),
    {
        let doc = self.marks.to_doc();
        self.put_owned("__hako_system", "local_only", doc, now_nanos)
    }

    /// Takes the marks from the document that keeps them.
    pub fn restore_local_only(&mut self, doc: &FireLiteDoc)
        requires
            old(self).wf(),
        ensures
            final(self).wf(),
            final(self).marks@.collections == old(self).marks@.collections.union(listed(doc@, "cols"@)),
            final(self).marks@.documents == old(self).marks@.documents.union(listed(doc@, "keys"@)),
            *final(self) == with_marks(*old(self), final(self).marks),
    {
        self.marks.restore(doc);
    }

    /// Marks a whole collection as one that stays on this device, or takes the mark away.
    pub fn set_collection_local(&mut self, col: &str, local: bool, now_nanos: i64) -> (r: Result<Outcome, HakoError>)
        requires
            old(self).wf(),
            now_nanos >= 0,
        ensures
            final(self).wf(),
            final(self).marks@.collections == (if local {
                old(self).marks@.collections.insert(col@)
            } else {
                old(self).marks@.collections.remove(col@)
            }),
            final(self).marks@.documents == old(self).marks@.documents,
            marks_written(with_marks(*old(self), final(self).marks), *final(self), now_nanos, r),
    {
        self.marks.set_collection_local(col, local);
        self.persist_local_only(now_nanos)
    }

    /// Takes the mark of a document away.
    pub fn replicate_key(&mut self, col: &str, id: &str, now_nanos: i64) -> (r: Result<Outcome, HakoError>)
        requires
            old(self).wf(),
            now_nanos >= 0,
        ensures
            final(self).wf(),
            final(self).marks@.collections == old(self).marks@.collections,
            final(self).marks@.documents == old(self).marks@.documents.remove(slot(col@, id@)),
            marks_written(with_marks(*old(self), final(self).marks), *final(self), now_nanos, r),
    {
        self.marks.replicate_key(col, id);
        self.persist_local_only(now_nanos)
    }

    /// Takes the mark of a whole collection away, and those of its documents.
    pub fn replicate_collection(&mut self, col: &str, now_nanos: i64) -> (r: Result<Outcome, HakoError>)
        requires
            old(self).wf(),
            now_nanos >= 0,
        ensures
            final(self).wf(),
            final(self).marks@ == released(old(self).marks@, col@),
            marks_written(with_marks(*old(self), final(self).marks), *final(self), now_nanos, r),
    {
        self.marks.replicate_collection(col);
        self.persist_local_only(now_nanos)
    }

    /// Forgets the deleted documents of a collection. Hands back how many there were.
    pub fn vacuum_collection(&mut self, col: &str) -> (n: usize)
        requires
            old(self).wf(),
        ensures
            final(self).wf(),
            tombstones_gone(*old(self), *final(self), col@, n),
    {
        let ghost start = *self;
        let at = self.get_shard(col);
        let ghost mid = *self;
        proof {
            self.shards.place_facts();
            assert(self.shards@.contains_key(col@));
            assert(self.shards@[col@] == self.shards.rows()[at as int].1);
        }
        let mut shard = self.shards.swap(at, Shard::new(None));
        let ghost s0 = shard;
        let n = shard.purge_tombstones();
        let ghost s1 = shard;
        let gone = self.shards.swap(at, shard);
        proof {
            assert(self.shards@ =~= mid.shards@.insert(col@, s1));
            assert(self.shards@ =~= start.shards@.insert(col@, s1));
            assert(is_shard(start.shards@, col@, s0));
        }
        n
    }

    /// The latest time in a collection; 0 where it has no keys.
    pub fn get_collection_version(&mut self, collection: &str) -> (t: i64)
        requires
            old(self).wf(),
        ensures
            final(self).wf(),
            shard_opened(*old(self), *final(self), collection@),
            is_version(shard_places(old(self).shards@, collection@), t),
    {
        let ghost start = *self;
        let at = self.get_shard(collection);
        proof {
            self.shards.place_facts();
            assert(self.shards@.contains_key(collection@));
            if !start.shards@.contains_key(collection@) {
                assert(self.shards@[collection@].places() =~= shard_places(start.shards@, collection@));
            }
        }
        self.shards.thing(at).version()
    }

    /// The keys of the documents of a collection that were not deleted, in order.
    pub fn list_storage_keys(&mut self, collection: &str) -> (r: Vec<String>)
        requires
            old(self).wf(),
        ensures
            final(self).wf(),
            shard_opened(*old(self), *final(self), collection@),
            names_view(r@) == live_keys(final(self).shards@[collection@].index.seq()),
    {
        let at = self.get_shard(collection);
        proof {
            self.shards.place_facts();
            assert(self.shards@.contains_key(collection@));
        }
        self.shards.thing(at).live_keys()
    }
}

/// A store with other marks.
pub open spec fn with_marks(a: Hako, m: Marks) -> Hako {
    Hako { marks: m, ..a }
}

/// `b` is the store `a` after the deleted documents of a collection were forgotten, of which
/// there were `n`.
pub open spec fn tombstones_gone(a: Hako, b: Hako, c: Seq<char>, n: usize) -> bool {
    &&& same_setup(a, b)
    &&& b.versions == a.versions
    &&& b.audit_data == a.audit_data
    &&& b.doc_cache == a.doc_cache
    &&& b.id_sequence == a.id_sequence
    &&& b.shards@.contains_key(c)
    &&& b.shards@ == a.shards@.insert(c, b.shards@[c])
    &&& exists|s: Shard| #[trigger] is_shard(a.shards@, c, s) && purged(s, b.shards@[c], n)
}

/// `b` is the collection `a` without its deleted documents, of which there were `n`.
pub open spec fn purged(a: Shard, b: Shard, n: usize) -> bool {
    &&& b == (Shard { index: b.index, ..a })
    &&& b.places() == vacuumed(a.places())
    &&& n == a.index.seq().len() - b.index.seq().len()
}

/// Nothing has changed but that a collection was opened.
pub open spec fn shard_opened(a: Hako, b: Hako, c: Seq<char>) -> bool {
    &&& same_setup(a, b)
    &&& opened(a.shards@, b.shards@, c)
    &&& b.versions == a.versions
    &&& b.audit_data == a.audit_data
    &&& b.doc_cache == a.doc_cache
    &&& b.id_sequence == a.id_sequence
}

/// The documents of entries as they are stored.
pub open spec fn stored_docs(entries: Seq<(Seq<char>, Pointer)>, reads: FileReads) -> Seq<(Seq<char>, Doc)>
    decreases entries.len(),
{
    if entries.len() == 0 {
        Seq::empty()
    } else {
        let before = stored_docs(entries.drop_last(), reads);
        let e = entries.last();
        match place_bytes(e.1@, read_doc(reads, e.0)) {
            Some(b) => match decode_doc(b) {
                Some(d) => before.push((e.0, d)),
                None => before,
            },
            None => before,
        }
    }
}

/// The document of an entry stands among the stored ones, and none with its key behind it.
pub proof fn stored_at(entries: Seq<(Seq<char>, Pointer)>, reads: FileReads, i: int, d: Doc) -> (k: int)
    requires
        ascending::<String, Pointer>(entries),
        0 <= i < entries.len(),
        place_bytes(entries[i].1@, read_doc(reads, entries[i].0)) matches Some(b) && decode_doc(b) == Some(d),
    ensures
        0 <= k < stored_docs(entries, reads).len(),
        stored_docs(entries, reads)[k] == (entries[i].0, d),
        forall|j: int|
            k < j < stored_docs(entries, reads).len() ==> (#[trigger] stored_docs(entries, reads)[j]).0 != entries[i].0,
    decreases entries.len(),
{
    let pre = entries.drop_last();
    let x = stored_docs(pre, reads);
    let y = stored_docs(entries, reads);
    if i == entries.len() - 1 {
        x.len() as int
    } else {
        assert(pre[i] == entries[i]);
        assert(ascending::<String, Pointer>(pre));
        let k = stored_at(pre, reads, i, d);
        let last = entries[entries.len() - 1];
        assert(key_lt::<String>(entries[i].0, last.0));
        key_order_total::<String>(last.0, last.0);
        assert(y[k] == x[k]);
        assert forall|j: int| k < j < y.len() implies (#[trigger] y[j]).0 != entries[i].0 by {
            if j < x.len() {
                assert(y[j] == x[j]);
            }
        }
        k
    }
}

/// A query for all documents of a collection: refused where the rules do not allow it.
pub open spec fn queried(
    a: Hako,
    b: Hako,
    reads: FileReads,
    c: Seq<char>,
    r: Result<Vec<(String, FireLiteDoc)>, HakoError>,
) -> bool {
    let log = audit_view(a.audit_data@);
    if !permitted(a.security_rules@, c, AccessOp::Query) {
        &&& r matches Err(e) && e is Corrupt && error_message(e) == "Denied"@
        &&& only_audit(a, b)
        &&& audit_view(b.audit_data@) == audited(a.config, log, query_line(c, false))
    } else {
        &&& r matches Ok(rows) && docs_view(rows@) == stored_docs(b.shards@[c].index.seq(), reads)
        &&& same_setup(a, b)
        &&& opened(a.shards@, b.shards@, c)
        &&& b.versions == a.versions
        &&& b.doc_cache == a.doc_cache
        &&& b.id_sequence == a.id_sequence
        &&& audit_view(b.audit_data@) == audited(a.config, log, query_line(c, true))
    }
}

/// The line of the audit for a query.
pub open spec fn query_line(c: Seq<char>, ok: bool) -> AuditLine {
    AuditLine { op: AccessOp::Query, collection: c, id: None, ok }
}

/// The deletions of documents of a collection.
pub open spec fn deletions(c: Seq<char>, ids: Seq<Seq<char>>) -> Seq<Wish> {
    Seq::new(ids.len(), |i: int| Wish::Delete { collection: c, id: ids[i] })
}

/// The same values put under keys of documents of a collection.
pub open spec fn patches(c: Seq<char>, ids: Seq<Seq<char>>, updates: Seq<(Seq<char>, Val)>) -> Seq<Wish> {
    Seq::new(ids.len(), |i: int| Wish::Patch { collection: c, id: ids[i], updates })
}

/// `b` is the store `a` after values were put under keys of a document.
pub open spec fn patched(
    a: Hako,
    b: Hako,
    files: Map<Seq<char>, FileReads>,
    nanos: i64,
    c: Seq<char>,
    id: Seq<char>,
    updates: Seq<(Seq<char>, Val)>,
    r: Result<Outcome, HakoError>,
) -> bool {
    let line = |ok: bool| AuditLine { op: AccessOp::Put, collection: c, id: Some(id), ok };
    if !permitted(a.security_rules@, c, AccessOp::Put) {
        &&& r matches Err(e) && e is Corrupt && error_message(e) == "Denied"@
        &&& only_audit(a, b)
        &&& audit_view(b.audit_data@) == audited(a.config, audit_view(a.audit_data@), line(false))
    } else {
        exists|mid: Hako|
            #![trigger written(a, mid, files, nanos, patches(c, seq![id], updates), r)]
            written(a, mid, files, nanos, patches(c, seq![id], updates), r) && only_audit(mid, b) && audit_view(
                b.audit_data@,
            ) == audited(a.config, audit_view(mid.audit_data@), line(r is Ok))
    }
}

/// `b` is the store `a` after its marks were written into the document that keeps them.
pub open spec fn marks_written(a: Hako, b: Hako, nanos: i64, r: Result<Outcome, HakoError>) -> bool {
    written(
        a,
        b,
        Map::empty(),
        nanos,
        seq![
            Wish::Put {
                collection: "__hako_system"@,
                id: "local_only"@,
                doc: marks_doc(a.marks.col_list(), a.marks.key_list()),
            },
        ],
        r,
    )
}

/// Whether none of the documents that were read has changed since.
pub open spec fn unchanged(db: Hako, reads: Map<Seq<char>, Option<u64>>) -> bool {
    forall|k: Seq<char>| #[trigger] reads.contains_key(k) ==> version_of(db.versions@, k) == reads[k]
}

/// What a batch of one change is planned to do.
pub proof fn one_wish(env: Env, w: Wish)
    ensures
        ({
            let st = staged(env, seq![w]);
            let c = wish_collection(w);
            &&& st.order == seq![c]
            &&& st.ids.len() == 1
            &&& st.plans.dom() == set![c]
            &&& st.plans[c] == plan_step(
                env,
                Plan {
                    ops: Seq::empty(),
                    puts: Seq::empty(),
                    works: Seq::empty(),
                    end: crate::engine::write::shard_end(env.shards, c),
                },
                st.ids[0],
                crate::engine::write::wish_doc(env, w),
            )
            &&& crate::engine::types::wish_id(w).len() > 0 ==> st.ids[0] == crate::engine::types::wish_id(w)
        }),
{
    reveal_with_fuel(staged, 2);
    assert(seq![w].drop_last() =~= Seq::<Wish>::empty());
    let st = staged(env, seq![w]);
    assert(st.order =~= seq![wish_collection(w)]);
    assert(st.plans.dom() =~= set![wish_collection(w)]);
}

/// Where a document lies that was put: in memory, with links in place of its large values.
pub proof fn put_lies(
    a: Hako,
    b: Hako,
    files: Map<Seq<char>, FileReads>,
    nanos: i64,
    c: Seq<char>,
    id: Seq<char>,
    d: Doc,
)
    requires
        id.len() > 0,
        batch_done(a, b, staged(env_of(a, files, nanos), seq![Wish::Put { collection: c, id, doc: d }])),
    ensures
        b.shards@.contains_key(c),
        b.shards@[c].places().contains_key(id),
        b.shards@[c].places()[id] == Place::Inlined(
            doc_bytes(
                skeleton_doc(
                    Doc { fields: d.fields, time: (nanos as int / 1000) as i64 },
                    a.config.value_blob_threshold_bytes as nat,
                    crate::engine::write::shard_end(a.shards@, c),
                ),
            ),
        ),
{
    let w = Wish::Put { collection: c, id, doc: d };
    let env = env_of(a, files, nanos);
    let st = staged(env, seq![w]);
    one_wish(env, w);
    let p = st.plans[c];
    let stamped = Doc { fields: d.fields, time: (nanos as int / 1000) as i64 };
    let end = crate::engine::write::shard_end(a.shards@, c);
    let lean = skeleton_doc(stamped, env.threshold, end);
    assert(st.plans.contains_key(c));
    assert(shard_planned(a.shards@, b.shards@, st.plans, c));
    let s = choose|s: Shard| #[trigger] is_shard(a.shards@, c, s) && shard_after(s, b.shards@[c], p);
    let op = Change::Put { key: id, value: doc_bytes(lean) };
    assert(p.ops =~= seq![op]);
    reveal_with_fuel(puts_of, 2);
    reveal_with_fuel(deletes_of, 2);
    reveal_with_fuel(applied, 2);
    assert(seq![op].drop_last() =~= Seq::<Change>::empty());
    assert(puts_of(p.ops) =~= seq![op]);
    assert(deletes_of(p.ops) =~= Seq::<Change>::empty());
}

/// A document that was put is read back with the time of the write, whatever was held
/// ready of it before.
pub proof fn put_is_read(
    a: Hako,
    b: Hako,
    files: Map<Seq<char>, FileReads>,
    nanos: i64,
    c: Seq<char>,
    id: Seq<char>,
    d: Doc,
    reads: FileReads,
)
    requires
        nanos >= 0,
        id.len() > 0,
        batch_done(a, b, staged(env_of(a, files, nanos), seq![Wish::Put { collection: c, id, doc: d }])),
        forall|i: int| 0 <= i < d.fields.len() ==> !is_link((#[trigger] d.fields[i]).1) && comes_back(d.fields[i].1),
        skeleton_doc(
            Doc { fields: d.fields, time: (nanos as int / 1000) as i64 },
            a.config.value_blob_threshold_bytes as nat,
            crate::engine::write::shard_end(a.shards@, c),
        ).fits(),
    ensures
        read_result(b.shards@, c, id, reads) == Some(
            Some(Doc { fields: d.fields, time: (nanos as int / 1000) as i64 }),
        ),
        ready_doc(b, c, id) is None,
{
    let w = Wish::Put { collection: c, id, doc: d };
    let env = env_of(a, files, nanos);
    let st = staged(env, seq![w]);
    one_wish(env, w);
    let p = st.plans[c];
    let stamped = Doc { fields: d.fields, time: (nanos as int / 1000) as i64 };
    let end = crate::engine::write::shard_end(a.shards@, c);
    let lean = skeleton_doc(stamped, env.threshold, end);
    assert(st.plans.contains_key(c));
    assert(shard_planned(a.shards@, b.shards@, st.plans, c));
    let s = choose|s: Shard| #[trigger] is_shard(a.shards@, c, s) && shard_after(s, b.shards@[c], p);
    put_lies(a, b, files, nanos, c, id, d);
    assert(p.ops =~= seq![Change::Put { key: id, value: doc_bytes(lean) }]);
    document_round_trip(lean);
    assert(p.works =~= doc_works(id, stamped, env.threshold, end));
    match end {
        Some(e) => {
            extraction_is_undone(
                id,
                stamped,
                env.threshold,
                e,
                works_view(s.blob_flush_queue@),
                reads.blobs@,
            );
        },
        None => {},
    }
    assert(batch_speaks_of(st.order, st.plans, slot(c, id))) by {
        assert(speaks_of(c, p.ops, slot(c, id))) by {
            assert(change_key(p.ops[0]) == id);
        }
        assert(st.order[0] == c);
        assert(speaks_of(st.order[0], st.plans[st.order[0]].ops, slot(c, id)));
    }
    assert(!b.doc_cache@.contains_key(slot(c, id)));
}

/// A document that was deleted is not read any more.
pub proof fn delete_is_read(
    a: Hako,
    b: Hako,
    files: Map<Seq<char>, FileReads>,
    nanos: i64,
    c: Seq<char>,
    id: Seq<char>,
    reads: FileReads,
)
    requires
        id.len() > 0,
        batch_done(a, b, staged(env_of(a, files, nanos), seq![Wish::Delete { collection: c, id }])),
    ensures
        read_result(b.shards@, c, id, reads) == Some(None::<Doc>),
        ready_doc(b, c, id) is None,
{
    let w = Wish::Delete { collection: c, id };
    let env = env_of(a, files, nanos);
    let st = staged(env, seq![w]);
    one_wish(env, w);
    let p = st.plans[c];
    assert(st.plans.contains_key(c));
    assert(shard_planned(a.shards@, b.shards@, st.plans, c));
    let op = Change::Delete { key: id, time: (nanos as int / 1000) as i64 };
    assert(p.ops =~= seq![op]);
    reveal_with_fuel(puts_of, 2);
    reveal_with_fuel(deletes_of, 2);
    reveal_with_fuel(applied, 2);
    assert(seq![op].drop_last() =~= Seq::<Change>::empty());
    assert(deletes_of(p.ops) =~= seq![op]);
    assert(b.shards@[c].places()[id] is Deleted);
    assert(batch_speaks_of(st.order, st.plans, slot(c, id))) by {
        assert(speaks_of(c, p.ops, slot(c, id))) by {
            assert(change_key(p.ops[0]) == id);
        }
        assert(st.order[0] == c);
        assert(speaks_of(st.order[0], st.plans[st.order[0]].ops, slot(c, id)));
    }
    assert(!b.doc_cache@.contains_key(slot(c, id)));
}

/// A batch leaves alone where the documents lie that it does not speak of.
pub proof fn others_stay(
    a: Hako,
    b: Hako,
    st: Staging,
    c: Seq<char>,
    id: Seq<char>,
    read: Option<Seq<u8>>,
)
    requires
        batch_done(a, b, st),
        st.plans.contains_key(c) ==> forall|i: int|
            0 <= i < st.plans[c].ops.len() ==> change_key(#[trigger] st.plans[c].ops[i]) != id,
    ensures
        document_bytes(shard_places(b.shards@, c), id, read) == document_bytes(shard_places(a.shards@, c), id, read),
{
    assert(shard_planned(a.shards@, b.shards@, st.plans, c));
    if st.plans.contains_key(c) {
        let p = st.plans[c];
        let s = choose|s: Shard| #[trigger] is_shard(a.shards@, c, s) && shard_after(s, b.shards@[c], p);
        kept_keys(p.ops, id);
        applied_elsewhere(s.places(), puts_of(p.ops), id);
        applied_elsewhere(applied(s.places(), puts_of(p.ops)), deletes_of(p.ops), id);
    }
}

/// The puts and the deletes among operations speak of no other keys.
proof fn kept_keys(ops: Seq<Change>, id: Seq<char>)
    requires
        forall|i: int| 0 <= i < ops.len() ==> change_key(#[trigger] ops[i]) != id,
    ensures
        forall|i: int| 0 <= i < puts_of(ops).len() ==> change_key(#[trigger] puts_of(ops)[i]) != id,
        forall|i: int| 0 <= i < deletes_of(ops).len() ==> change_key(#[trigger] deletes_of(ops)[i]) != id,
    decreases ops.len(),
{
    if ops.len() > 0 {
        let pre = ops.drop_last();
        assert forall|i: int| 0 <= i < pre.len() implies change_key(#[trigger] pre[i]) != id by {
            assert(pre[i] == ops[i]);
        }
        kept_keys(pre, id);
        assert(change_key(ops[ops.len() - 1]) != id);
        assert forall|i: int| 0 <= i < puts_of(ops).len() implies change_key(#[trigger] puts_of(ops)[i]) != id by {
            if i < puts_of(pre).len() {
                assert(puts_of(ops)[i] == puts_of(pre)[i]);
            }
        }
        assert forall|i: int| 0 <= i < deletes_of(ops).len() implies change_key(#[trigger] deletes_of(ops)[i]) != id by {
            if i < deletes_of(pre).len() {
                assert(deletes_of(ops)[i] == deletes_of(pre)[i]);
            }
        }
    }
}

/// A transaction whose reads are of versions that a later batch has changed is refused.
pub proof fn changed_read_conflicts(
    a: Hako,
    b: Hako,
    st: Staging,
    reads: Map<Seq<char>, Option<u64>>,
    key: Seq<char>,
    c: Seq<char>,
    k: int,
)
    requires
        batch_done(a, b, st),
        crate::engine::versions::clock_wf(a.versions@),
        a.versions@.next + crate::engine::engine::batch_keys(st.order, st.plans).len() <= u64::MAX,
        reads.contains_key(key),
        version_of(a.versions@, key) == reads[key],
        st.order.contains(c),
        0 <= k < st.plans[c].ops.len(),
        change_key(st.plans[c].ops[k]) == key,
    ensures
        !unchanged(b, reads),
{
    let keys = crate::engine::engine::batch_keys(st.order, st.plans);
    let at = choose|at: int| 0 <= at < st.order.len() && st.order[at] == c;
    batch_key_stands(st.order, st.plans, at, k);
    crate::engine::versions::change_is_seen(a.versions@, keys, key);
    assert(version_of(b.versions@, key) != reads[key]);
}

/// The key of every operation stands among the keys of the batch.
proof fn batch_key_stands(order: Seq<Seq<char>>, plans: Map<Seq<char>, Plan>, at: int, k: int)
    requires
        0 <= at < order.len(),
        0 <= k < plans[order[at]].ops.len(),
    ensures
        crate::engine::engine::batch_keys(order, plans).contains(change_key(plans[order[at]].ops[k])),
    decreases order.len(),
{
    let key = change_key(plans[order[at]].ops[k]);
    let pre = crate::engine::engine::batch_keys(order.drop_last(), plans);
    let own = op_keys(plans[order.last()].ops);
    if at < order.len() - 1 {
        batch_key_stands(order.drop_last(), plans, at, k);
        let j = choose|j: int| 0 <= j < pre.len() && pre[j] == key;
        assert((pre + own)[j] == key);
    } else {
        assert((pre + own)[pre.len() + k] == key);
    }
}

} // verus!
