//! What the store does in the background.
use vstd::prelude::*;

use crate::document::firelite_doc::{decode_doc, Doc, FireLiteDoc};
use crate::document::value::{copy_bytes, parts_view, Val, Value};
use crate::engine::catalog::{index_records, put_index_records};
use crate::engine::engine::{is_shard, opened, same_setup, Hako};
use crate::engine::files::{read_doc, FileReads};
use crate::engine::types::IndexOp;
use crate::engine::write::shard_places;
use crate::error::{error_message, HakoError};
use crate::index::composite::composite_index::{docs_view, CompositeIndex};
use crate::index::composite::definition::Definition;
use crate::index::manager::{batch_indexed, batch_steps, indexed, IndexManager};
use crate::index::service::IndexingService;
use crate::index::storage::index_log::{DELETE, INSERT};
use crate::sorted_map::SortedMap;
use crate::storage::pointer::{place_bytes, Pointer};
use crate::storage::shard::Shard;
use crate::text::same_text;

verus! {

/// How often checkpoints, compaction and snapshots run, in milliseconds.
pub const MAINTENANCE_INTERVAL_MS: u64 = 5000;

/// How many bytes may wait for the blob file before its writer is called.
pub const BLOB_PRESSURE: usize = 16777216;

/// What the definitions of indexes say.
pub open spec fn defs_of(s: Seq<CompositeIndex>) -> Seq<Definition> {
    Seq::new(s.len(), |i: int| s[i].definition@)
}

/// The records that the logs of the indexes of a collection get for a document.
pub open spec fn doc_records(op: u8, defs: Seq<Definition>, c: Seq<char>, doc: (Seq<char>, Doc)) -> Seq<u8>
    decreases defs.len(),
{
    if defs.len() == 0 {
        Seq::empty()
    } else {
        let before = doc_records(op, defs.drop_last(), c, doc);
        if defs.last().collection == c {
            before + index_records(op, defs.last(), seq![doc])
        } else {
            before
        }
    }
}

/// The records that the logs of the indexes of a collection get for documents.
pub open spec fn docs_records(op: u8, defs: Seq<Definition>, c: Seq<char>, docs: Seq<(Seq<char>, Doc)>) -> Seq<u8>
    decreases docs.len(),
{
    if docs.len() == 0 {
        Seq::empty()
    } else {
        docs_records(op, defs, c, docs.drop_last()) + doc_records(op, defs, c, docs.last())
    }
}

/// A document put into, or taken out of, indexes leaves their definitions.
pub proof fn indexed_defs(a: IndexManager, b: IndexManager, put: bool, c: Seq<char>, id: Seq<char>, doc: Doc)
    requires
        indexed(a, b, put, c, id, doc),
    ensures
        defs_of(b.composite.indexes()) == defs_of(a.composite.indexes()),
{
    let (x, y) = (a.composite.indexes(), b.composite.indexes());
    assert forall|i: int| 0 <= i < x.len() implies y[i].definition@ == (#[trigger] x[i]).definition@ by {}
    assert(defs_of(y) =~= defs_of(x));
}

/// Appends the records that the logs of the indexes of a collection get for a document.
fn put_doc_records(op: u8, manager: &IndexManager, collection: &str, doc: &Vec<(String, FireLiteDoc)>, out: &mut Vec<u8>)
    requires
        doc@.len() == 1,
    ensures
        final(out)@ == old(out)@ + doc_records(
            op,
            defs_of(manager.composite.indexes()),
            collection@,
            docs_view(doc@)[0],
        ),
{
    let ghost start = out@;
    let ghost defs = defs_of(manager.composite.indexes());
    let ghost d = docs_view(doc@)[0];
    let mut i: usize = 0;
    proof {
        assert(docs_view(doc@) =~= seq![d]);
        assert(defs.take(0) =~= Seq::<Definition>::empty());
        assert(start + Seq::<u8>::empty() =~= start);
    }
    while i < manager.composite.len()
        invariant
            docs_view(doc@) == seq![d],
            defs == defs_of(manager.composite.indexes()),
            i <= manager.composite.indexes().len(),
            out@ == start + doc_records(op, defs.take(i as int), collection@, d),
        decreases manager.composite.indexes().len() - i,
    {
        let x = manager.composite.index_at(i);
        proof {
            assert(defs.take(i + 1).drop_last() =~= defs.take(i as int));
            assert(defs.take(i + 1).last() == x.definition@);
        }
        if same_text(x.definition.collection.as_str(), collection) {
            put_index_records(op, x, doc, out);
            proof {
                let r = doc_records(op, defs.take(i as int), collection@, d);
                let e = index_records(op, x.definition@, seq![d]);
                assert(start + r + e =~= start + (r + e));
            }
        }
        i = i + 1;
    }
    proof {
        assert(defs.take(i as int) =~= defs);
    }
}

/// Puts documents into, or takes them out of, the indexes of their collection, one after
/// the other. Hands back the records for the logs of its composite indexes.
fn follow(manager: &mut IndexManager, put: bool, collection: &str, docs: &Vec<(String, FireLiteDoc)>) -> (log: Vec<u8>)
    requires
        old(manager).wf(),
    ensures
        final(manager).wf(),
        batch_indexed(*old(manager), *final(manager), put, collection@, docs_view(docs@)),
        defs_of(final(manager).composite.indexes()) == defs_of(old(manager).composite.indexes()),
        log@ == docs_records(
            if put {
                INSERT
            } else {
                DELETE
            },
            defs_of(old(manager).composite.indexes()),
            collection@,
            docs_view(docs@),
        ),
{
    let op: u8 = if put {
        INSERT
    } else {
        DELETE
    };
    let ghost ds = docs_view(docs@);
    let ghost defs = defs_of(manager.composite.indexes());
    let ghost mut steps: Seq<IndexManager> = seq![*manager];
    let mut log: Vec<u8> = Vec::new();
    let mut i: usize = 0;
    proof {
        assert(ds.take(0) =~= Seq::<(Seq<char>, Doc)>::empty());
    }
    while i < docs.len()
        invariant
            manager.wf(),
            ds == docs_view(docs@),
            i <= docs@.len(),
            op == (if put {
                INSERT
            } else {
                DELETE
            }),
            defs_of(manager.composite.indexes()) == defs,
            log@ == docs_records(op, defs, collection@, ds.take(i as int)),
            steps.len() == i + 1,
            steps[0] == *old(manager),
            steps[i as int] == *manager,
            forall|k: int|
                0 <= k < i ==> indexed(#[trigger] steps[k], steps[k + 1], put, collection@, ds[k].0, ds[k].1),
        decreases docs@.len() - i,
    {
        let ghost before = *manager;
        proof {
            assert(ds.take(i + 1).drop_last() =~= ds.take(i as int));
            assert(ds.take(i + 1).last() == ds[i as int]);
        }
        let id = docs[i].0.as_str();
        if put {
            IndexingService::apply_put(manager, collection, id, &docs[i].1);
        } else {
            IndexingService::apply_delete(manager, collection, id, &docs[i].1);
        }
        proof {
            indexed_defs(before, *manager, put, collection@, ds[i as int].0, ds[i as int].1);
            let was = steps;
            steps = steps.push(*manager);
            assert forall|k: int| 0 <= k < i + 1 implies indexed(
                #[trigger] steps[k],
                steps[k + 1],
                put,
                collection@,
                ds[k].0,
                ds[k].1,
            ) by {
                assert(steps[k] == was[k]);
                if k < i {
                    assert(steps[k + 1] == was[k + 1]);
                }
            }
        }
        let mut one: Vec<(String, FireLiteDoc)> = Vec::new();
        one.push((docs[i].0.clone(), docs[i].1.clone()));
        proof {
            assert(docs_view(one@)[0] == ds[i as int]);
        }
        put_doc_records(op, manager, collection, &one, &mut log);
        i = i + 1;
    }
    proof {
        assert(ds.take(i as int) =~= ds);
        assert(batch_steps(steps, put, collection@, ds));
    }
    log
}

/// Lets the indexes follow changes of a collection. Hands back the records for the log of
/// the composite indexes.
pub fn apply_index_op(manager: &mut IndexManager, op: &IndexOp) -> (log: Vec<u8>)
    requires
        old(manager).wf(),
    ensures
        final(manager).wf(),
        exists|mid: IndexManager| #[trigger]
            batch_indexed(*old(manager), mid, true, op.collection@, docs_view(op.puts@)) && batch_indexed(
                mid,
                *final(manager),
                false,
                op.collection@,
                docs_view(op.deletes@),
            ),
        log@ == docs_records(
            INSERT,
            defs_of(old(manager).composite.indexes()),
            op.collection@,
            docs_view(op.puts@),
        ) + docs_records(
            DELETE,
            defs_of(old(manager).composite.indexes()),
            op.collection@,
            docs_view(op.deletes@),
        ),
{
    let mut log = follow(manager, true, op.collection.as_str(), &op.puts);
    let ghost mid = *manager;
    let mut more = follow(manager, false, op.collection.as_str(), &op.deletes);
    log.append(&mut more);
    proof {
        assert(batch_indexed(*old(manager), mid, true, op.collection@, docs_view(op.puts@)));
    }
    log
}

/// Whether checkpoints, compaction and snapshots are to run.
pub fn maintenance_due(elapsed_ms: u64, enabled: bool) -> (r: bool)
    ensures
        r == (enabled && elapsed_ms >= MAINTENANCE_INTERVAL_MS),
{
    elapsed_ms >= MAINTENANCE_INTERVAL_MS && enabled
}

/// Whether so much waits for the blob file of a collection that its writer is to be called.
pub fn blob_pressure(shard: &Shard) -> (r: bool)
    ensures
        r == (shard.pending_blob_bytes > BLOB_PRESSURE),
{
    shard.pending_blob_bytes > BLOB_PRESSURE
}

/// What the writer of the blob files does next.
#[derive(Debug, Clone, Copy, PartialEq, Eq, Structural)]
pub struct BlobStep {
    pub rest: bool,
    pub stop: bool,
}

/// What the writer of the blob files does after a round: it rests where there was nothing
/// to write and nobody called, and stops once it was told to and nothing is left.
pub fn blob_worker_step(processed_any: bool, triggered: bool, shutting_down: bool) -> (s: BlobStep)
    ensures
        s.rest == (!processed_any && !triggered),
        s.stop == (shutting_down && !processed_any),
{
    BlobStep { rest: !processed_any && !triggered, stop: shutting_down && !processed_any }
}

/// How many threads answer queries: as many as asked for, but at least 1 and at most 8.
pub fn query_threads(workers: usize) -> (n: usize)
    ensures
        n == (if workers < 1 {
            1
        } else if workers > 8 {
            8
        } else {
            workers as int
        }),
{
    if workers < 1 {
        1
    } else if workers > 8 {
        8
    } else {
        workers
    }
}

/// The values that the first fields of a document link to, one after the other; nothing
/// where one could not be read.
pub open spec fn linked_bytes(fields: Seq<(Seq<char>, Val)>, reads: Map<u64, Vec<u8>>) -> Option<Seq<u8>>
    decreases fields.len(),
{
    if fields.len() == 0 {
        Some(Seq::empty())
    } else {
        match linked_bytes(fields.drop_last(), reads) {
            None => None,
            Some(b) => match fields.last().1 {
                Val::BlobLink { offset, .. } => if reads.contains_key(offset) {
                    Some(b + reads[offset]@)
                } else {
                    None
                },
                _ => Some(b),
            },
        }
    }
}

/// The values that the documents of entries link to, one after the other.
pub open spec fn packed_bytes(entries: Seq<(Seq<char>, Pointer)>, reads: FileReads) -> Option<Seq<u8>>
    decreases entries.len(),
{
    if entries.len() == 0 {
        Some(Seq::empty())
    } else {
        let e = entries.last();
        match packed_bytes(entries.drop_last(), reads) {
            None => None,
            Some(b) => match place_bytes(e.1@, read_doc(reads, e.0)) {
                None => Some(b),
                Some(bytes) => match decode_doc(bytes) {
                    None => Some(b),
                    Some(d) => match linked_bytes(d.fields, reads.blobs@) {
                        None => None,
                        Some(x) => Some(b + x),
                    },
                },
            },
        }
    }
}

/// Appends the values that a document links to.
fn pack_doc(doc: &FireLiteDoc, reads: &SortedMap<u64, Vec<u8>>, out: &mut Vec<u8>) -> (ok: bool)
    requires
        reads.wf(),
    ensures
        ok == (linked_bytes(doc@.fields, reads@) is Some),
        ok ==> final(out)@ == old(out)@ + linked_bytes(doc@.fields, reads@)->Some_0,
{
    let ghost f = doc@.fields;
    let ghost start = out@;
    let mut i: usize = 0;
    proof {
        assert(f.take(0) =~= Seq::<(Seq<char>, Val)>::empty());
        assert(start + Seq::<u8>::empty() =~= start);
    }
    while i < doc.fields.len()
        invariant
            reads.wf(),
            f == doc@.fields,
            i <= doc.fields@.len(),
            linked_bytes(f.take(i as int), reads@) is Some,
            out@ == start + linked_bytes(f.take(i as int), reads@)->Some_0,
        decreases doc.fields@.len() - i,
    {
        proof {
            parts_view(doc.fields@[i as int].1);
            assert(f.take(i + 1).drop_last() =~= f.take(i as int));
            assert(f.take(i + 1).last() == f[i as int]);
        }
        if let Value::BlobLink { offset, .. } = &doc.fields[i].1 {
            match reads.get(offset) {
                Some(b) => {
                    let mut more = copy_bytes(b.as_slice());
                    let ghost m = more@;
                    let ghost had = linked_bytes(f.take(i as int), reads@)->Some_0;
                    out.append(&mut more);
                    proof {
                        assert(start + had + m =~= start + (had + m));
                    }
                },
                None => {
                    proof {
                        unread_link(f, i as int, reads@);
                    }
                    return false;
                },
            }
        }
        i = i + 1;
    }
    proof {
        assert(f.take(i as int) =~= f);
    }
    true
}

/// A link that could not be read spoils the whole.
proof fn unread_link(f: Seq<(Seq<char>, Val)>, i: int, reads: Map<u64, Vec<u8>>)
    requires
        0 <= i < f.len(),
        linked_bytes(f.take(i + 1), reads) is None,
    ensures
        linked_bytes(f, reads) is None,
    decreases f.len(),
{
    if f.take(i + 1) =~= f {
    } else {
        assert(f.drop_last().take(i + 1) =~= f.take(i + 1));
        unread_link(f.drop_last(), i, reads);
    }
}

/// A part that could not be read spoils the whole.
proof fn unread_part(s: Seq<(Seq<char>, Pointer)>, i: int, reads: FileReads)
    requires
        0 <= i < s.len(),
        packed_bytes(s.take(i + 1), reads) is None,
    ensures
        packed_bytes(s, reads) is None,
    decreases s.len(),
{
    if s.take(i + 1) =~= s {
    } else {
        assert(s.drop_last().take(i + 1) =~= s.take(i + 1));
        unread_part(s.drop_last(), i, reads);
    }
}

/// `b` are the collections `a` where the blob file of one now ends elsewhere.
pub open spec fn repacked(
    a: Map<Seq<char>, Shard>,
    b: Map<Seq<char>, Shard>,
    c: Seq<char>,
    end: Option<u64>,
) -> bool {
    &&& b.contains_key(c)
    &&& b == a.insert(c, b[c])
    &&& exists|s: Shard| #[trigger] is_shard(a, c, s) && b[c] == (Shard { blob_end: end, ..s })
}

impl Hako {
    /// Packs the blob file of a collection: hands back what it is to hold, the values that
    /// documents link to in the order of the keys. The documents stay as they are.
    pub fn vacuum(&mut self, collection: &str, reads: &FileReads) -> (r: Result<Vec<u8>, HakoError>)
        requires
            old(self).wf(),
            reads.wf(),
        ensures
            final(self).wf(),
            same_setup(*old(self), *final(self)),
            final(self).versions == old(self).versions,
            final(self).audit_data == old(self).audit_data,
            final(self).doc_cache == old(self).doc_cache,
            final(self).id_sequence == old(self).id_sequence,
            match (r, packed_bytes(final(self).shards@[collection@].index.seq(), *reads)) {
                (Ok(b), Some(m)) => b@ == m && repacked(
                    old(self).shards@,
                    final(self).shards@,
                    collection@,
                    Some(m.len() as u64),
                ),
                (Err(e), None) => e is Io && error_message(e) == "blob cannot be read"@ && opened(
                    old(self).shards@,
                    final(self).shards@,
                    collection@,
                ),
                _ => false,
            },
    {
        let ghost start = *self;
        let at = self.get_shard(collection);
        let ghost mid = *self;
        proof {
            self.shards.place_facts();
            assert(self.shards@.contains_key(collection@));
            assert(self.shards@[collection@] == self.shards.rows()[at as int].1);
            crate::engine::collections::opened_places(start.shards@, mid.shards@, collection@, collection@);
        }
        let shard = self.shards.thing(at);
        let ghost s = shard.index.seq();
        let mut out: Vec<u8> = Vec::new();
        let mut i: usize = 0;
        proof {
            assert(s.take(0) =~= Seq::<(Seq<char>, Pointer)>::empty());
        }
        while i < shard.index.len()
            invariant
                *self == mid,
                mid.wf(),
                opened(start.shards@, mid.shards@, collection@),
                same_setup(start, mid),
                start == *old(self),
                mid.versions == start.versions,
                mid.audit_data == start.audit_data,
                mid.doc_cache == start.doc_cache,
                mid.id_sequence == start.id_sequence,
                shard_places(mid.shards@, collection@) == shard_places(start.shards@, collection@),
                mid.shards@[collection@] == *shard,
                reads.wf(),
                s == shard.index.seq(),
                i <= s.len(),
                packed_bytes(s.take(i as int), *reads) == Some(out@),
            decreases s.len() - i,
        {
            proof {
                assert(s.take(i + 1).drop_last() =~= s.take(i as int));
                assert(s.take(i + 1).last() == s[i as int]);
            }
            let (k, p) = shard.index.entry(i);
            if let Some(b) = p.bytes(reads.documents.get(k)) {
                if let Some(d) = FireLiteDoc::decode(b.as_slice()) {
                    if !pack_doc(&d, &reads.blobs, &mut out) {
                        proof {
                            unread_part(s, i as int, *reads);
                        }
                        return Err(HakoError::Io("blob cannot be read".to_owned()));
                    }
                }
            }
            i = i + 1;
        }
        proof {
            assert(s.take(i as int) =~= s);
        }
        let mut shard = self.shards.swap(at, Shard::new(None));
        let ghost s0 = shard;
        shard.blob_end = Some(out.len() as u64);
        let ghost s1 = shard;
        let gone = self.shards.swap(at, shard);
        proof {
            assert(self.shards@ =~= mid.shards@.insert(collection@, s1));
            assert(self.shards@ =~= start.shards@.insert(collection@, s1));
            assert(is_shard(start.shards@, collection@, s0));
        }
        Ok(out)
    }
}

} // verus!
