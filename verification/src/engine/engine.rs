//! The store.
use vstd::prelude::*;
use vstd::string::*;

use crate::config::HakoConfig;
use crate::directory::NameTable;
use crate::document::firelite_doc::{decode_doc, names_view, Doc, FireLiteDoc};
use crate::engine::files::{files_wf, read_doc, FileReads};
use crate::engine::marks::{slot, slot_name, Marks};
use crate::engine::recovery::no_indexes;
use crate::engine::types::{wishes, AccessOp, AuditEntry, BatchMutation, SecurityRule};
use crate::engine::versions::{bumped, bumped_again, version_of, Clock, Versions};
use crate::engine::write::{
    applied_is, apply_work, plans_of, shard_after, shard_end, shard_places, shards_wf, stage, staged, table_names, Applied,
    Env, Plan, ShardWork, Staging,
};
use crate::index::manager::IndexManager;
use crate::sorted_map::SortedMap;
use crate::storage::blob::{resolved_doc, works_view, Work};
use crate::storage::pointer::Place;
use crate::storage::shard::{document_bytes, Shard};
use crate::storage::wal::{change_key, ops_view, Change, WalOp};

verus! {

/// The most documents that are held ready for the next read.
pub const DOC_CACHE_CAPACITY: usize = 8192;

/// The store. Files, threads and channels are its caller's: a call hands back what goes
/// into the log and what is to be told to others.
pub struct Hako {
    pub config: HakoConfig,
    pub shards: NameTable<Shard>,
    pub indexes: IndexManager,
    pub versions: Versions,
    pub security_rules: Vec<SecurityRule>,
    pub audit_data: Vec<AuditEntry>,
    /// Documents held ready, each with the version that it had when it was read.
    pub doc_cache: SortedMap<String, (u64, FireLiteDoc)>,
    pub marks: Marks,
    pub id_sequence: u16,
    pub indexes_ready: bool,
}

/// What a batch did.
pub struct Outcome {
    pub ids: Vec<String>,
    pub applied: Vec<Applied>,
}

/// A line of the audit.
#[verifier::ext_equal]
pub struct AuditLine {
    pub op: AccessOp,
    pub collection: Seq<char>,
    pub id: Option<Seq<char>>,
    pub ok: bool,
}

/// The lines of the audit.
pub open spec fn audit_view(s: Seq<AuditEntry>) -> Seq<AuditLine> {
    Seq::new(s.len(), |i: int| audit_line(s[i]))
}

/// A line of the audit.
pub open spec fn audit_line(e: AuditEntry) -> AuditLine {
    AuditLine {
        op: e.op,
        collection: e.collection@,
        id: match e.doc_id {
            Some(s) => Some(s@),
            None => None,
        },
        ok: e.ok,
    }
}

/// The audit with one more line, where it is kept.
pub open spec fn audited(config: HakoConfig, before: Seq<AuditLine>, line: AuditLine) -> Seq<AuditLine> {
    if config.enable_audit_log {
        before.push(line)
    } else {
        before
    }
}

/// The line of the audit for a batch.
pub open spec fn batch_line(ok: bool) -> AuditLine {
    AuditLine { op: AccessOp::Batch, collection: "<sharded>"@, id: None, ok }
}

/// The keys of operations.
pub open spec fn op_keys(ops: Seq<Change>) -> Seq<Seq<char>> {
    Seq::new(ops.len(), |i: int| change_key(ops[i]))
}

/// The keys of the operations of a batch, collection by collection.
pub open spec fn batch_keys(order: Seq<Seq<char>>, plans: Map<Seq<char>, Plan>) -> Seq<Seq<char>>
    decreases order.len(),
{
    if order.len() == 0 {
        Seq::empty()
    } else {
        batch_keys(order.drop_last(), plans) + op_keys(plans[order.last()].ops)
    }
}

/// Whether operations on a collection speak of a document.
pub open spec fn speaks_of(c: Seq<char>, ops: Seq<Change>, s: Seq<char>) -> bool {
    exists|i: int| 0 <= i < ops.len() && s == slot(c, change_key(#[trigger] ops[i]))
}

/// Whether a batch speaks of a document.
pub open spec fn batch_speaks_of(order: Seq<Seq<char>>, plans: Map<Seq<char>, Plan>, s: Seq<char>) -> bool {
    exists|i: int| 0 <= i < order.len() && speaks_of(order[i], (#[trigger] plans[order[i]]).ops, s)
}

/// What a store is planned against.
pub open spec fn env_of(db: Hako, files: Map<Seq<char>, FileReads>, nanos: i64) -> Env {
    Env {
        shards: db.shards@,
        files,
        threshold: db.config.value_blob_threshold_bytes as nat,
        nanos,
        seq: db.id_sequence,
    }
}

/// What a store leaves alone when it reads or writes documents.
pub open spec fn same_setup(a: Hako, b: Hako) -> bool {
    &&& b.config == a.config
    &&& b.indexes == a.indexes
    &&& b.security_rules == a.security_rules
    &&& b.marks == a.marks
    &&& b.indexes_ready == a.indexes_ready
}

/// A collection as it is, or a new one where it is not there.
pub open spec fn is_shard(shards: Map<Seq<char>, Shard>, c: Seq<char>, s: Shard) -> bool {
    if shards.contains_key(c) {
        s == shards[c]
    } else {
        fresh_shard(s)
    }
}

/// A collection as it is when it was just made.
pub open spec fn fresh_shard(s: Shard) -> bool {
    &&& s.wf()
    &&& s.places() == Map::<Seq<char>, Place>::empty()
    &&& s.next_tx_id == 0
    &&& s.blob_flush_queue@.len() == 0
    &&& s.pending_blob_bytes == 0
    &&& s.blob_end == Some(0u64)
}

/// `b` is the collection `c` after what a plan does to it, or as it was where there is none.
pub open spec fn shard_planned(
    a: Map<Seq<char>, Shard>,
    b: Map<Seq<char>, Shard>,
    plans: Map<Seq<char>, Plan>,
    c: Seq<char>,
) -> bool {
    if plans.contains_key(c) {
        b.contains_key(c) && exists|s: Shard| #[trigger] is_shard(a, c, s) && shard_after(s, b[c], plans[c])
    } else {
        b.contains_key(c) == a.contains_key(c) && (a.contains_key(c) ==> b[c] == a[c])
    }
}

/// `b` is the store `a` after a planned batch.
pub open spec fn batch_done(a: Hako, b: Hako, st: Staging) -> bool {
    &&& same_setup(a, b)
    &&& b.id_sequence == st.seq
    &&& forall|c: Seq<char>| #[trigger] shard_planned(a.shards@, b.shards@, st.plans, c)
    &&& b.versions@ == bumped(a.versions@, batch_keys(st.order, st.plans))
    &&& forall|s: Seq<char>| #[trigger]
        b.doc_cache@.contains_key(s) <==> a.doc_cache@.contains_key(s) && !batch_speaks_of(st.order, st.plans, s)
    &&& forall|s: Seq<char>| #[trigger] b.doc_cache@.contains_key(s) ==> b.doc_cache@[s] == a.doc_cache@[s]
}

/// What a batch hands back is what was planned.
pub open spec fn outcome_is(r: Outcome, a: Hako, files: Map<Seq<char>, FileReads>, st: Staging) -> bool {
    &&& names_view(r.ids@) == st.ids
    &&& r.applied@.len() == st.order.len()
    &&& forall|i: int|
        0 <= i < r.applied@.len() ==> was_applied(
            a.shards@,
            files,
            st.order[i],
            st.plans[st.order[i]],
            #[trigger] r.applied@[i],
        )
}

/// What a plan did to a collection.
pub open spec fn was_applied(
    shards: Map<Seq<char>, Shard>,
    files: Map<Seq<char>, FileReads>,
    c: Seq<char>,
    p: Plan,
    r: Applied,
) -> bool {
    exists|s: Shard| #[trigger] is_shard(shards, c, s) && applied_is(r, s, files, c, p)
}

/// The document of a key as a read gives it; `None` in the inner place where there is no
/// document, in the outer where a value that it links to could not be read.
pub open spec fn read_result(
    shards: Map<Seq<char>, Shard>,
    c: Seq<char>,
    id: Seq<char>,
    reads: FileReads,
) -> Option<Option<Doc>> {
    match document_bytes(shard_places(shards, c), id, read_doc(reads, id)) {
        None => Some(None),
        Some(b) => match decode_doc(b) {
            None => Some(None),
            Some(d) => match resolved_doc(d, shard_end(shards, c) is Some, shard_queue(shards, c), reads.blobs@) {
                Some(f) => Some(Some(f)),
                None => None,
            },
        },
    }
}

/// The values of a collection that wait to be written into its blob file.
pub open spec fn shard_queue(shards: Map<Seq<char>, Shard>, c: Seq<char>) -> Seq<Work> {
    if shards.contains_key(c) {
        works_view(shards[c].blob_flush_queue@)
    } else {
        Seq::empty()
    }
}

/// The document that is held ready for a read, where its version is still that of the key.
pub open spec fn ready_doc(db: Hako, c: Seq<char>, id: Seq<char>) -> Option<Doc> {
    match version_of(db.versions@, id) {
        None => None,
        Some(v) => if db.doc_cache@.contains_key(slot(c, id)) && db.doc_cache@[slot(c, id)].0 == v {
            Some(db.doc_cache@[slot(c, id)].1@)
        } else {
            None
        },
    }
}

impl Hako {
    pub open spec fn wf(&self) -> bool {
        &&& shards_wf(self.shards)
        &&& self.indexes.wf()
        &&& self.versions.wf()
        &&& self.doc_cache.wf()
        &&& self.marks.wf()
    }

    /// A store with nothing in it.
    pub fn new(config: HakoConfig) -> (db: Hako)
        ensures
            db.wf(),
            db.config == config,
            no_indexes(db.indexes),
            db.shards@ == Map::<Seq<char>, Shard>::empty(),
            db.versions@ == (Clock { of: Map::<Seq<char>, u64>::empty(), next: 1 }),
            db.security_rules@.len() == 0,
            db.audit_data@.len() == 0,
            db.doc_cache@ == Map::<Seq<char>, (u64, FireLiteDoc)>::empty(),
            db.marks@.collections == Set::<Seq<char>>::empty(),
            db.marks@.documents == Set::<Seq<char>>::empty(),
            db.id_sequence == 0,
            !db.indexes_ready,
    {
        let db = Hako {
            config,
            shards: NameTable::new(),
            indexes: IndexManager::default(),
            versions: Versions::new(),
            security_rules: Vec::new(),
            audit_data: Vec::new(),
            doc_cache: SortedMap::new(),
            marks: Marks::new(),
            id_sequence: 0,
            indexes_ready: false,
        };
        db
    }

    /// Adds a line to the audit, where it is kept.
    pub fn record_audit(&mut self, entry: AuditEntry)
        ensures
            audit_view(final(self).audit_data@) == audited(
                old(self).config,
                audit_view(old(self).audit_data@),
                audit_line(entry),
            ),
            final(self).config == old(self).config,
            final(self).shards == old(self).shards,
            final(self).indexes == old(self).indexes,
            final(self).versions == old(self).versions,
            final(self).security_rules == old(self).security_rules,
            final(self).doc_cache == old(self).doc_cache,
            final(self).marks == old(self).marks,
            final(self).id_sequence == old(self).id_sequence,
            final(self).indexes_ready == old(self).indexes_ready,
    {
        let ghost before = self.audit_data@;
        if self.config.enable_audit_log {
            self.audit_data.push(entry);
            proof {
                assert(audit_view(self.audit_data@) =~= audit_view(before).push(audit_line(entry)));
            }
        }
    }

    /// Where a collection stands in the table; it is made where it is not there.
    pub fn get_shard(&mut self, collection: &str) -> (i: usize)
        requires
            old(self).wf(),
        ensures
            final(self).wf(),
            i < final(self).shards.rows().len(),
            final(self).shards.rows()[i as int].0 == collection@,
            opened(old(self).shards@, final(self).shards@, collection@),
            same_setup(*old(self), *final(self)),
            final(self).versions == old(self).versions,
            final(self).audit_data == old(self).audit_data,
            final(self).doc_cache == old(self).doc_cache,
            final(self).id_sequence == old(self).id_sequence,
    {
        proof {
            self.shards.place_facts();
        }
        match self.shards.find(collection) {
            Some(i) => {
                proof {
                    assert(self.shards@.contains_key(collection@));
                    assert(self.shards@ =~= self.shards@.insert(collection@, self.shards@[collection@]));
                }
                i
            },
            None => {
                let at: usize = self.shards.len();
                let fresh = Shard::new(Some(0));
                let ghost s = fresh;
                let ghost before = self.shards;
                self.shards.push(collection.to_owned(), fresh);
                proof {
                    self.shards.place_facts();
                    assert(!before@.contains_key(collection@));
                    assert(self.shards@ == before@.insert(collection@, s));
                }
                at
            },
        }
    }

    /// Takes documents out of those that are held ready.
    pub(crate) fn forget(&mut self, collection: &String, ops: &Vec<WalOp>)
        requires
            old(self).doc_cache.wf(),
        ensures
            final(self).doc_cache.wf(),
            forall|s: Seq<char>| #[trigger]
                final(self).doc_cache@.contains_key(s) <==> old(self).doc_cache@.contains_key(s) && !speaks_of(
                    collection@,
                    ops_view(ops@),
                    s,
                ),
            forall|s: Seq<char>| #[trigger]
                final(self).doc_cache@.contains_key(s) ==> final(self).doc_cache@[s] == old(self).doc_cache@[s],
            same_setup(*old(self), *final(self)),
            final(self).shards == old(self).shards,
            final(self).versions == old(self).versions,
            final(self).audit_data == old(self).audit_data,
            final(self).id_sequence == old(self).id_sequence,
    {
        let ghost c = ops_view(ops@);
        let mut i: usize = 0;
        proof {
            assert(c.take(0) =~= Seq::<Change>::empty());
        }
        while i < ops.len()
            invariant
                self.doc_cache.wf(),
                c == ops_view(ops@),
                i <= ops@.len(),
                forall|s: Seq<char>| #[trigger]
                    self.doc_cache@.contains_key(s) <==> old(self).doc_cache@.contains_key(s) && !speaks_of(
                        collection@,
                        c.take(i as int),
                        s,
                    ),
                forall|s: Seq<char>| #[trigger]
                    self.doc_cache@.contains_key(s) ==> self.doc_cache@[s] == old(self).doc_cache@[s],
                same_setup(*old(self), *self),
                self.shards == old(self).shards,
                self.versions == old(self).versions,
                self.audit_data == old(self).audit_data,
                self.id_sequence == old(self).id_sequence,
            decreases ops@.len() - i,
        {
            let name = slot_name(collection.as_str(), ops[i].get_key().as_str());
            let ghost before = self.doc_cache@;
            let had = self.doc_cache.remove(&name);
            proof {
                let a = c.take(i as int);
                let b = c.take(i + 1);
                assert forall|s: Seq<char>| speaks_of(collection@, b, s) <==> speaks_of(collection@, a, s) || s == name@ by {
                    if speaks_of(collection@, a, s) {
                        let k = choose|k: int| 0 <= k < a.len() && s == slot(collection@, change_key(#[trigger] a[k]));
                        assert(b[k] == a[k]);
                    }
                    if speaks_of(collection@, b, s) && s != name@ {
                        let k = choose|k: int| 0 <= k < b.len() && s == slot(collection@, change_key(#[trigger] b[k]));
                        assert(a[k] == b[k]);
                    }
                    assert(b[i as int] == ops@[i as int]@);
                }
            }
            i = i + 1;
        }
        proof {
            assert(c.take(i as int) =~= c);
        }
    }

    /// Takes note of the changes of documents.
    pub fn bump_versions_by_keys(&mut self, ops: &Vec<WalOp>)
        requires
            old(self).versions.wf(),
        ensures
            final(self).versions.wf(),
            final(self).versions@ == bumped(old(self).versions@, op_keys(ops_view(ops@))),
            same_setup(*old(self), *final(self)),
            final(self).shards == old(self).shards,
            final(self).doc_cache == old(self).doc_cache,
            final(self).audit_data == old(self).audit_data,
            final(self).id_sequence == old(self).id_sequence,
    {
        let ghost keys = op_keys(ops_view(ops@));
        let ghost c = self.versions@;
        let mut i: usize = 0;
        proof {
            assert(keys.take(0) =~= Seq::<Seq<char>>::empty());
        }
        while i < ops.len()
            invariant
                self.versions.wf(),
                keys == op_keys(ops_view(ops@)),
                i <= ops@.len(),
                self.versions@ == bumped(c, keys.take(i as int)),
                same_setup(*old(self), *self),
                self.shards == old(self).shards,
                self.doc_cache == old(self).doc_cache,
                self.audit_data == old(self).audit_data,
                self.id_sequence == old(self).id_sequence,
            decreases ops@.len() - i,
        {
            self.versions.bump(ops[i].get_key().clone());
            proof {
                bumped_again(c, keys.take(i as int), seq![keys[i as int]]);
                assert(keys.take(i as int) + seq![keys[i as int]] =~= keys.take(i + 1));
            }
            i = i + 1;
        }
        proof {
            assert(keys.take(i as int) =~= keys);
        }
    }

    /// Plans and applies a batch of changes at a time. `files` is what was read from the
    /// files for the documents that the batch patches or deletes.
    pub fn write_batch_internal(
        &mut self,
        mutations: &Vec<BatchMutation>,
        now_nanos: i64,
        files: &NameTable<FileReads>,
    ) -> (r: Outcome)
        requires
            old(self).wf(),
            files_wf(*files),
            now_nanos >= 0,
        ensures
            final(self).wf(),
            batch_done(*old(self), *final(self), staged(env_of(*old(self), files@, now_nanos), wishes(mutations@))),
            outcome_is(r, *old(self), files@, staged(env_of(*old(self), files@, now_nanos), wishes(mutations@))),
            audit_view(final(self).audit_data@) == audited(
                old(self).config,
                audit_view(old(self).audit_data@),
                batch_line(true),
            ),
    {
        let ghost st = staged(env_of(*self, files@, now_nanos), wishes(mutations@));
        let plan = stage(
            &self.shards,
            files,
            self.config.value_blob_threshold_bytes,
            now_nanos,
            self.id_sequence,
            mutations,
        );
        self.id_sequence = plan.seq;
        let ids = plan.ids;
        let mut works = plan.works;
        let ghost rows = works.rows();
        let n: usize = works.len();
        let mut todo: Vec<(String, ShardWork)> = Vec::new();
        proof {
            works.place_facts();
            assert forall|i: int| 0 <= i < rows.len() implies (#[trigger] rows[i]).0 == st.order[i] && rows[i].1@
                == st.plans[st.order[i]] && st.plans.contains_key(st.order[i]) by {
                assert(table_names(works)[i] == rows[i].0);
                assert(works@.contains_key(rows[i].0));
                assert(works@[rows[i].0] == rows[i].1);
                assert(plans_of(works)[rows[i].0] == rows[i].1@);
            }
            assert forall|i: int, j: int| #![trigger st.order[i], st.order[j]] 0 <= i < j < rows.len() implies st.order[i]
                != st.order[j] by {
                assert(rows[i].0 == st.order[i] && rows[j].0 == st.order[j]);
                assert(works.place(rows[i].0) == i);
            }
            assert forall|c: Seq<char>| #[trigger] st.plans.contains_key(c) implies exists|i: int|
                0 <= i < st.order.len() && #[trigger] st.order[i] == c by {
                assert(plans_of(works).contains_key(c));
                assert(works.has(c));
                assert(rows[works.place(c)].0 == c);
                assert(st.order[works.place(c)] == c);
            }
        }
        while works.len() > 0
            invariant
                works.wf(),
                works.rows().len() + todo@.len() == rows.len(),
                works.rows() == rows.take(works.rows().len() as int),
                forall|k: int|
                    0 <= k < todo@.len() ==> (#[trigger] todo@[k]).0@ == rows[rows.len() - 1 - k].0 && todo@[k].1
                        == rows[rows.len() - 1 - k].1,
            decreases works.rows().len(),
        {
            let ghost before = works.rows();
            let row = works.pop();
            proof {
                assert(before.last() == rows[before.len() - 1]);
                assert(works.rows() =~= rows.take(works.rows().len() as int));
            }
            todo.push(row);
        }
        let mut applied: Vec<Applied> = Vec::new();
        let ghost start = *self;
        let ghost first = *old(self);
        let mut k: usize = 0;
        proof {
            assert(st.order.take(0) =~= Seq::<Seq<char>>::empty());
            assert(self.versions@ == bumped(first.versions@, batch_keys(st.order.take(0), st.plans)));
            assert forall|s: Seq<char>| !batch_speaks_of(st.order.take(0), st.plans, s) by {}
        }
        while todo.len() > 0
            invariant
                self.wf(),
                files_wf(*files),
                rows.len() == st.order.len(),
                rows.len() == n,
                k + todo@.len() == rows.len(),
                applied@.len() == k,
                forall|i: int|
                    0 <= i < rows.len() ==> (#[trigger] rows[i]).0 == st.order[i] && rows[i].1@ == st.plans[st.order[i]]
                        && st.plans.contains_key(st.order[i]),
                forall|i: int, j: int| #![trigger st.order[i], st.order[j]]
                    0 <= i < j < rows.len() ==> st.order[i] != st.order[j],
                forall|i: int|
                    0 <= i < todo@.len() ==> (#[trigger] todo@[i]).0@ == rows[rows.len() - 1 - i].0 && todo@[i].1
                        == rows[rows.len() - 1 - i].1,
                same_setup(first, *self),
                self.id_sequence == st.seq,
                self.audit_data == first.audit_data,
                self.versions@ == bumped(first.versions@, batch_keys(st.order.take(k as int), st.plans)),
                forall|s: Seq<char>| #[trigger]
                    self.doc_cache@.contains_key(s) <==> first.doc_cache@.contains_key(s) && !batch_speaks_of(
                        st.order.take(k as int),
                        st.plans,
                        s,
                    ),
                forall|s: Seq<char>| #[trigger]
                    self.doc_cache@.contains_key(s) ==> self.doc_cache@[s] == first.doc_cache@[s],
                forall|i: int|
                    0 <= i < k ==> #[trigger] shard_planned(first.shards@, self.shards@, st.plans, st.order[i]),
                forall|c: Seq<char>|
                    (forall|i: int| 0 <= i < k ==> #[trigger] st.order[i] != c) ==> #[trigger]
                        self.shards@.contains_key(c) == first.shards@.contains_key(c),
                forall|c: Seq<char>|
                    (forall|i: int| 0 <= i < k ==> #[trigger] st.order[i] != c) && #[trigger]
                        first.shards@.contains_key(c) ==> self.shards@[c] == first.shards@[c],
                forall|i: int|
                    0 <= i < k ==> was_applied(
                        first.shards@,
                        files@,
                        st.order[i],
                        st.plans[st.order[i]],
                        #[trigger] applied@[i],
                    ),
            decreases todo@.len(),
        {
            let ghost here = *self;
            let last: usize = todo.len() - 1;
            let ghost whole = todo@;
            let (col, work) = todo.remove(last);
            let ghost c = st.order[k as int];
            let ghost p = st.plans[c];
            proof {
                assert(whole[last as int].0@ == rows[k as int].0);
                assert(rows[k as int].0 == c);
                assert(forall|i: int| 0 <= i < k ==> #[trigger] st.order[i] != c);
                assert(here.shards@.contains_key(c) == first.shards@.contains_key(c));
            }
            let at = self.get_shard(col.as_str());
            let ghost with_shard = *self;
            proof {
                self.shards.place_facts();
                assert(self.shards@.contains_key(c));
            }
            let mut shard = self.shards.swap(at, Shard::new(None));
            let ghost s0 = shard;
            proof {
                assert(s0 == with_shard.shards@[c]);
                assert(is_shard(first.shards@, c, s0));
            }
            let done = apply_work(&mut shard, files, &col, work);
            let ghost s1 = shard;
            let gone = self.shards.swap(at, shard);
            proof {
                assert(self.shards@ =~= with_shard.shards@.insert(c, s1));
                assert(shards_wf(self.shards));
            }
            self.forget(&col, &done.ops);
            self.bump_versions_by_keys(&done.ops);
            let ghost prior = applied@;
            applied.push(done);
            proof {
                let o0 = st.order.take(k as int);
                let o1 = st.order.take(k + 1);
                assert(o1.drop_last() =~= o0);
                assert(o1.last() == c);
                bumped_again(first.versions@, batch_keys(o0, st.plans), op_keys(p.ops));
                assert forall|s: Seq<char>| batch_speaks_of(o1, st.plans, s) <==> batch_speaks_of(o0, st.plans, s)
                    || speaks_of(c, p.ops, s) by {
                    if batch_speaks_of(o0, st.plans, s) {
                        let i = choose|i: int| 0 <= i < o0.len() && speaks_of(o0[i], (#[trigger] st.plans[o0[i]]).ops, s);
                        assert(o1[i] == o0[i]);
                        assert(speaks_of(o1[i], st.plans[o1[i]].ops, s));
                    }
                    if speaks_of(c, p.ops, s) {
                        assert(speaks_of(o1[k as int], st.plans[o1[k as int]].ops, s));
                    }
                    if batch_speaks_of(o1, st.plans, s) {
                        let i = choose|i: int| 0 <= i < o1.len() && speaks_of(o1[i], (#[trigger] st.plans[o1[i]]).ops, s);
                        if i < k {
                            assert(o1[i] == o0[i]);
                            assert(speaks_of(o0[i], st.plans[o0[i]].ops, s));
                        }
                    }
                }
                assert forall|i: int| 0 <= i < k + 1 implies #[trigger] shard_planned(
                    first.shards@,
                    self.shards@,
                    st.plans,
                    st.order[i],
                ) by {
                    if i < k {
                        assert(rows[i].0 == st.order[i]);
                        assert(shard_planned(first.shards@, here.shards@, st.plans, st.order[i]));
                        assert(st.order[i] != c);
                        assert(here.shards@.contains_key(st.order[i]));
                        assert(self.shards@[st.order[i]] == here.shards@[st.order[i]]);
                    } else {
                        assert(shard_after(s0, s1, p));
                    }
                }
                assert forall|x: Seq<char>|
                    (forall|i: int| 0 <= i < k + 1 ==> #[trigger] st.order[i] != x) implies #[trigger]
                    self.shards@.contains_key(x) == first.shards@.contains_key(x) by {
                    assert(st.order[k as int] != x);
                    assert(here.shards@.contains_key(x) == first.shards@.contains_key(x));
                }
                assert forall|x: Seq<char>|
                    (forall|i: int| 0 <= i < k + 1 ==> #[trigger] st.order[i] != x) && #[trigger]
                    first.shards@.contains_key(x) implies self.shards@[x] == first.shards@[x] by {
                    assert(st.order[k as int] != x);
                    assert(here.shards@.contains_key(x) == first.shards@.contains_key(x));
                }
                assert forall|i: int| 0 <= i < k + 1 implies was_applied(
                    first.shards@,
                    files@,
                    st.order[i],
                    st.plans[st.order[i]],
                    #[trigger] applied@[i],
                ) by {
                    if i < k {
                        assert(applied@[i] == prior[i]);
                    } else {
                        assert(is_shard(first.shards@, st.order[i], s0));
                    }
                }
            }
            k = k + 1;
        }
        proof {
            assert(st.order.take(k as int) =~= st.order);
            assert forall|c: Seq<char>| #[trigger] shard_planned(first.shards@, self.shards@, st.plans, c) by {
                if st.plans.contains_key(c) {
                    let i = choose|i: int| 0 <= i < st.order.len() && #[trigger] st.order[i] == c;
                    assert(shard_planned(first.shards@, self.shards@, st.plans, st.order[i]));
                } else {
                    assert forall|i: int| 0 <= i < k implies #[trigger] st.order[i] != c by {
                        assert(rows[i].0 == st.order[i]);
                        assert(st.plans.contains_key(st.order[i]));
                    }
                    assert(self.shards@.contains_key(c) == first.shards@.contains_key(c));
                }
            }
        }
        self.record_audit(AuditEntry { op: AccessOp::Batch, collection: "<sharded>".to_owned(), doc_id: None, ok: true });
        let r = Outcome { ids, applied };
        proof {
            assert(r.applied@.len() == st.order.len());
            assert(names_view(r.ids@) == st.ids);
            assert(outcome_is(r, first, files@, st));
        }
        r
    }
}

/// `b` are the collections `a` with one more, which is new, where it was not there.
pub open spec fn opened(a: Map<Seq<char>, Shard>, b: Map<Seq<char>, Shard>, c: Seq<char>) -> bool {
    b.contains_key(c) && is_shard(a, c, b[c]) && b == a.insert(c, b[c])
}

} // verus!
