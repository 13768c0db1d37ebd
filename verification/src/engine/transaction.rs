//! Changes that are made together, and those that are made only if what was read for them
//! has not changed.
use vstd::prelude::*;

use crate::directory::NameTable;
use crate::document::firelite_doc::FireLiteDoc;
use crate::engine::engine::{audit_view, audited, batch_done, batch_line, env_of, outcome_is, Hako, Outcome};
use crate::engine::files::{files_wf, FileReads};
use crate::engine::store::{got, unchanged, written};
use crate::engine::types::{wishes, BatchMutation, Wish};
use crate::engine::versions::version_of;
use crate::engine::write::staged;
use crate::error::{error_message, HakoError};
use crate::sorted_map::SortedMap;

verus! {

/// Changes that are made together.
pub struct Transaction {
    pub mutations: Vec<BatchMutation>,
}

impl Transaction {
    /// No changes yet.
    pub fn new() -> (t: Transaction)
        ensures
            t.mutations@.len() == 0,
    {
        Transaction { mutations: Vec::new() }
    }

    /// Adds a put.
    pub fn put(&mut self, collection: &str, doc_id: &str, doc: FireLiteDoc)
        ensures
            wishes(final(self).mutations@) == wishes(old(self).mutations@).push(
                Wish::Put { collection: collection@, id: doc_id@, doc: doc@ },
            ),
    {
        let ghost before = self.mutations@;
        let ghost w = Wish::Put { collection: collection@, id: doc_id@, doc: doc@ };
        self.mutations.push(BatchMutation::Put { collection: collection.to_owned(), doc_id: doc_id.to_owned(), doc });
        proof {
            assert(wishes(self.mutations@) =~= wishes(before).push(w));
        }
    }

    /// Adds a deletion.
    pub fn delete(&mut self, collection: &str, doc_id: &str)
        ensures
            wishes(final(self).mutations@) == wishes(old(self).mutations@).push(
                Wish::Delete { collection: collection@, id: doc_id@ },
            ),
    {
        let ghost before = self.mutations@;
        let ghost w = Wish::Delete { collection: collection@, id: doc_id@ };
        self.mutations.push(BatchMutation::Delete { collection: collection.to_owned(), doc_id: doc_id.to_owned() });
        proof {
            assert(wishes(self.mutations@) =~= wishes(before).push(w));
        }
    }

    /// Makes the changes.
    pub fn commit(self, db: &mut Hako, now_nanos: i64, files: &NameTable<FileReads>) -> (r: Result<Outcome, HakoError>)
        requires
            old(db).wf(),
            files_wf(*files),
            now_nanos >= 0,
        ensures
            final(db).wf(),
            written(*old(db), *final(db), files@, now_nanos, wishes(self.mutations@), r),
    {
        db.write_batch(&self.mutations, now_nanos, files)
    }
}

/// Changes that are made only if what was read for them has not changed: the version of
/// each document that was read, by its id.
pub struct SerializableTransaction {
    pub reads: SortedMap<String, Option<u64>>,
    pub mutations: Vec<BatchMutation>,
}

impl SerializableTransaction {
    /// No reads and no changes yet.
    pub fn new() -> (t: SerializableTransaction)
        ensures
            t.reads.wf(),
            t.reads@ == Map::<Seq<char>, Option<u64>>::empty(),
            t.mutations@.len() == 0,
    {
        SerializableTransaction { reads: SortedMap::new(), mutations: Vec::new() }
    }

    /// Reads a document, and takes note of its version.
    pub fn get(&mut self, db: &mut Hako, collection: &str, doc_id: &str, files: &FileReads) -> (r: Result<
        Option<FireLiteDoc>,
        HakoError,
    >)
        requires
            old(db).wf(),
            files.wf(),
            old(self).reads.wf(),
        ensures
            final(db).wf(),
            got(*old(db), *final(db), *files, collection@, doc_id@, r),
            final(self).reads.wf(),
            final(self).mutations == old(self).mutations,
            final(self).reads@ == (if r is Ok {
                old(self).reads@.insert(doc_id@, version_of(old(db).versions@, doc_id@))
            } else {
                old(self).reads@
            }),
    {
        let key = doc_id.to_owned();
        match db.get(collection, doc_id, files) {
            Ok(doc) => {
                let version = db.versions.current_version(&key);
                let had = self.reads.insert(key, version);
                Ok(doc)
            },
            Err(e) => Err(e),
        }
    }

    /// Adds a put.
    pub fn put(&mut self, collection: &str, doc_id: &str, doc: FireLiteDoc)
        ensures
            final(self).reads == old(self).reads,
            wishes(final(self).mutations@) == wishes(old(self).mutations@).push(
                Wish::Put { collection: collection@, id: doc_id@, doc: doc@ },
            ),
    {
        let ghost before = self.mutations@;
        let ghost w = Wish::Put { collection: collection@, id: doc_id@, doc: doc@ };
        self.mutations.push(BatchMutation::Put { collection: collection.to_owned(), doc_id: doc_id.to_owned(), doc });
        proof {
            assert(wishes(self.mutations@) =~= wishes(before).push(w));
        }
    }

    /// Adds a deletion.
    pub fn delete(&mut self, collection: &str, doc_id: &str)
        ensures
            final(self).reads == old(self).reads,
            wishes(final(self).mutations@) == wishes(old(self).mutations@).push(
                Wish::Delete { collection: collection@, id: doc_id@ },
            ),
    {
        let ghost before = self.mutations@;
        let ghost w = Wish::Delete { collection: collection@, id: doc_id@ };
        self.mutations.push(BatchMutation::Delete { collection: collection.to_owned(), doc_id: doc_id.to_owned() });
        proof {
            assert(wishes(self.mutations@) =~= wishes(before).push(w));
        }
    }

    /// Makes the changes, if what was read has not changed.
    pub fn commit(&self, db: &mut Hako, now_nanos: i64, files: &NameTable<FileReads>) -> (r: Result<Outcome, HakoError>)
        requires
            old(db).wf(),
            self.reads.wf(),
            files_wf(*files),
            now_nanos >= 0,
        ensures
            final(db).wf(),
            if unchanged(*old(db), self.reads@) {
                let st = staged(env_of(*old(db), files@, now_nanos), wishes(self.mutations@));
                &&& r is Ok
                &&& batch_done(*old(db), *final(db), st)
                &&& outcome_is(r->Ok_0, *old(db), files@, st)
                &&& audit_view(final(db).audit_data@) == audited(
                    old(db).config,
                    audit_view(old(db).audit_data@),
                    batch_line(true),
                )
            } else {
                &&& r matches Err(e) && e is Corrupt && error_message(e) == "Transaction Conflict"@
                &&& *final(db) == *old(db)
            },
    {
        db.commit_serializable(&self.reads, &self.mutations, now_nanos, files)
    }
}

} // verus!
