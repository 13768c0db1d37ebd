//! Changes that come from elsewhere: they keep the times that they were made at.
use vstd::prelude::*;

use crate::document::firelite_doc::{decode_doc, Doc, FireLiteDoc};
use crate::engine::access::permitted;
use crate::engine::engine::{is_shard, op_keys, read_result, ready_doc, same_setup, Hako};
use crate::engine::files::FileReads;
use crate::engine::freshness::steady;
use crate::engine::marks::slot;
use crate::engine::store::got;
use crate::engine::types::AccessOp;
use crate::engine::versions::{bumped, change_is_seen};
use crate::engine::write::{shards_wf, Applied};
use crate::error::HakoError;
use crate::index::composite::composite_index::docs_view;
use crate::storage::blob::is_link;
use crate::storage::pointer::Place;
use crate::storage::shard::{applied, Shard};
use crate::storage::wal::{change_key, ops_view, Change, WalOp};

verus! {

/// `b` is the collection `a` after operations in their order.
pub open spec fn remote_after(a: Shard, b: Shard, ops: Seq<Change>) -> bool {
    &&& b.places() == applied(a.places(), ops)
    &&& b.next_tx_id == vstd::wrapping::u64_specs::wrapping_add(a.next_tx_id, 1)
    &&& b.blob_flush_queue == a.blob_flush_queue
    &&& b.pending_blob_bytes == a.pending_blob_bytes
    &&& b.blob_end == a.blob_end
}

/// `b` is the store `a` after changes of a collection that came from elsewhere.
pub open spec fn replicated(a: Hako, b: Hako, c: Seq<char>, ops: Seq<Change>) -> bool {
    &&& same_setup(a, b)
    &&& b.doc_cache == a.doc_cache
    &&& b.audit_data == a.audit_data
    &&& b.id_sequence == a.id_sequence
    &&& b.versions@ == bumped(a.versions@, op_keys(ops))
    &&& b.shards@.contains_key(c)
    &&& b.shards@ == a.shards@.insert(c, b.shards@[c])
    &&& exists|s: Shard| #[trigger] is_shard(a.shards@, c, s) && remote_after(s, b.shards@[c], ops)
}

/// What changes from elsewhere did to a collection, for its log and its indexes.
pub open spec fn replication_is(r: Applied, a: Hako, c: Seq<char>, ops: Seq<Change>) -> bool {
    &&& r.collection@ == c
    &&& ops_view(r.ops@) == ops
    &&& docs_view(r.puts@) == put_docs(ops)
    &&& r.deletes@.len() == 0
    &&& exists|s: Shard| #[trigger] is_shard(a.shards@, c, s) && r.tx_id == s.next_tx_id
}

/// The documents that operations put.
pub open spec fn put_docs(ops: Seq<Change>) -> Seq<(Seq<char>, Doc)>
    decreases ops.len(),
{
    if ops.len() == 0 {
        Seq::empty()
    } else {
        let before = put_docs(ops.drop_last());
        match ops.last() {
            Change::Put { key, value } => match decode_doc(value) {
                Some(d) => before.push((key, d)),
                None => before,
            },
            _ => before,
        }
    }
}

/// The documents that operations put.
fn docs_put(ops: &Vec<WalOp>) -> (r: Vec<(String, FireLiteDoc)>)
    ensures
        docs_view(r@) == put_docs(ops_view(ops@)),
{
    let ghost c = ops_view(ops@);
    let mut r: Vec<(String, FireLiteDoc)> = Vec::new();
    let mut i: usize = 0;
    proof {
        assert(c.take(0) =~= Seq::<Change>::empty());
        assert(docs_view(r@) =~= Seq::<(Seq<char>, Doc)>::empty());
    }
    while i < ops.len()
        invariant
            c == ops_view(ops@),
            i <= ops@.len(),
            docs_view(r@) == put_docs(c.take(i as int)),
        decreases ops@.len() - i,
    {
        proof {
            assert(c.take(i + 1).drop_last() =~= c.take(i as int));
            assert(c.take(i + 1).last() == ops@[i as int]@);
        }
        if let WalOp::PutInlined { key, value } = &ops[i] {
            if let Some(d) = FireLiteDoc::decode(value.as_slice()) {
                let ghost before = r@;
                let ghost dd = d@;
                r.push((key.clone(), d));
                proof {
                    assert(docs_view(r@) =~= docs_view(before).push((key@, dd)));
                }
            }
        }
        i = i + 1;
    }
    proof {
        assert(c.take(i as int) =~= c);
    }
    r
}

/// The time of an operation that came from elsewhere; 0 where it does not count.
pub open spec fn remote_time(c: Change) -> i64 {
    match c {
        Change::Put { value, .. } => match decode_doc(value) {
            Some(d) => d.time,
            None => 0,
        },
        Change::Delete { time, .. } => time,
        _ => 0,
    }
}

/// The time of an operation that came from elsewhere.
pub fn time_of_remote(op: &WalOp) -> (t: i64)
    ensures
        t == remote_time(op@),
{
    match op {
        WalOp::PutInlined { value, .. } => match FireLiteDoc::decode(value.as_slice()) {
            Some(d) => d.get_logical_time(),
            None => 0,
        },
        WalOp::Delete { timestamp, .. } => *timestamp,
        _ => 0,
    }
}

/// Whether something from time `t` is newer than what a read gave.
pub open spec fn is_newer(r: Result<Option<FireLiteDoc>, HakoError>, t: i64) -> bool {
    match r {
        Ok(Some(d)) => d@.time < t,
        _ => true,
    }
}

/// A read that tells whether something from time `t` is newer than the document of a key.
pub open spec fn weighed(a: Hako, b: Hako, reads: FileReads, c: Seq<char>, key: Seq<char>, t: i64, newer: bool) -> bool {
    exists|r: Result<Option<FireLiteDoc>, HakoError>| #[trigger] got(a, b, reads, c, key, r) && newer == is_newer(r, t)
}

impl Hako {
    /// Applies changes from elsewhere to a collection, in their order. They keep their
    /// times.
    pub fn apply_timestamped(&mut self, collection: &str, ops: Vec<WalOp>) -> (r: Applied)
        requires
            old(self).wf(),
        ensures
            final(self).wf(),
            replicated(*old(self), *final(self), collection@, ops_view(ops@)),
            replication_is(r, *old(self), collection@, ops_view(ops@)),
    {
        let ghost start = *self;
        let ghost c = collection@;
        let at = self.get_shard(collection);
        let ghost mid = *self;
        proof {
            self.shards.place_facts();
            assert(self.shards@.contains_key(c));
            assert(self.shards@[c] == self.shards.rows()[at as int].1);
        }
        let mut shard = self.shards.swap(at, Shard::new(None));
        let ghost s0 = shard;
        let tx_id: u64 = shard.next_tx_id;
        shard.next_tx_id = tx_id.wrapping_add(1);
        shard.apply(&ops);
        let ghost s1 = shard;
        let gone = self.shards.swap(at, shard);
        proof {
            assert(self.shards@ =~= mid.shards@.insert(c, s1));
            assert(self.shards@ =~= start.shards@.insert(c, s1));
            assert(shards_wf(self.shards));
            assert(is_shard(start.shards@, c, s0));
        }
        self.bump_versions_by_keys(&ops);
        let puts = docs_put(&ops);
        let r = Applied { collection: collection.to_owned(), tx_id, ops, puts, deletes: Vec::new() };
        proof {
            assert(remote_after(s0, self.shards@[c], ops_view(ops@)));
        }
        r
    }

    /// Whether something from time `t` is newer than the document of a key.
    pub fn is_newer_than_local(&mut self, collection: &str, key: &str, t: i64, reads: &FileReads) -> (newer: bool)
        requires
            old(self).wf(),
            reads.wf(),
        ensures
            final(self).wf(),
            weighed(*old(self), *final(self), *reads, collection@, key@, t, newer),
    {
        let r = self.get(collection, key, reads);
        let newer: bool = match &r {
            Ok(Some(d)) => d.get_logical_time() < t,
            _ => true,
        };
        proof {
            assert(got(*old(self), *self, *reads, collection@, key@, r));
        }
        newer
    }

    /// Whether a deletion from elsewhere comes too late: the document is as new, or newer.
    pub fn is_stale_remote_delete(&mut self, storage_col: &str, key: &str, timestamp: i64, reads: &FileReads) -> (r: bool)
        requires
            old(self).wf(),
            reads.wf(),
        ensures
            final(self).wf(),
            weighed(*old(self), *final(self), *reads, storage_col@, key@, timestamp, !r),
    {
        !self.is_newer_than_local(storage_col, key, timestamp, reads)
    }
}

/// The last change of a key decides where its document lies.
pub proof fn last_change_stays(m: Map<Seq<char>, Place>, ops: Seq<Change>, i: int)
    requires
        0 <= i < ops.len(),
        ops[i] is Put || ops[i] is Delete,
        forall|j: int| i < j < ops.len() ==> change_key(#[trigger] ops[j]) != change_key(ops[i]),
    ensures
        applied(m, ops).contains_key(change_key(ops[i])),
        applied(m, ops)[change_key(ops[i])] == (match ops[i] {
            Change::Put { value, .. } => Place::Inlined(value),
            Change::Delete { time, .. } => Place::Deleted { time },
            _ => arbitrary(),
        }),
    decreases ops.len(),
{
    if i < ops.len() - 1 {
        let pre = ops.drop_last();
        assert(pre[i] == ops[i]);
        assert(change_key(ops[ops.len() - 1]) != change_key(ops[i]));
        assert forall|j: int| i < j < pre.len() implies change_key(#[trigger] pre[j]) != change_key(pre[i]) by {
            assert(pre[j] == ops[j]);
        }
        last_change_stays(m, pre, i);
    }
}

/// A document from elsewhere is read back as it came, with the time that it came with.
pub proof fn remote_put_is_read(a: Hako, b: Hako, c: Seq<char>, ops: Seq<Change>, i: int, d: Doc, reads: FileReads)
    requires
        replicated(a, b, c, ops),
        0 <= i < ops.len(),
        ops[i] matches Change::Put { value, .. } && decode_doc(value) == Some(d),
        forall|j: int| i < j < ops.len() ==> change_key(#[trigger] ops[j]) != change_key(ops[i]),
        forall|k: int| 0 <= k < d.fields.len() ==> !is_link((#[trigger] d.fields[k]).1),
    ensures
        read_result(b.shards@, c, change_key(ops[i]), reads) == Some(Some(d)),
{
    let s = choose|s: Shard| #[trigger] is_shard(a.shards@, c, s) && remote_after(s, b.shards@[c], ops);
    last_change_stays(s.places(), ops, i);
}

/// Once a document came from elsewhere only what is later than it counts: the same change
/// that comes again is turned away.
pub proof fn only_later_counts(
    a: Hako,
    b: Hako,
    after: Hako,
    c: Seq<char>,
    ops: Seq<Change>,
    i: int,
    d: Doc,
    reads: FileReads,
    t: i64,
    newer: bool,
)
    requires
        replicated(a, b, c, ops),
        0 <= i < ops.len(),
        ops[i] matches Change::Put { value, .. } && decode_doc(value) == Some(d),
        forall|j: int| i < j < ops.len() ==> change_key(#[trigger] ops[j]) != change_key(ops[i]),
        forall|k: int| 0 <= k < d.fields.len() ==> !is_link((#[trigger] d.fields[k]).1),
        steady(a),
        a.versions@.next + ops.len() <= u64::MAX,
        permitted(a.security_rules@, c, AccessOp::Get),
        weighed(b, after, reads, c, change_key(ops[i]), t, newer),
    ensures
        newer == (d.time < t),
{
    let key = change_key(ops[i]);
    remote_put_is_read(a, b, c, ops, i, d, reads);
    let keys = op_keys(ops);
    change_is_seen(a.versions@, keys, key);
    assert(keys[i] == key);
    assert(keys.contains(key));
    assert(ready_doc(b, c, key) is None) by {
        if b.doc_cache@.contains_key(slot(c, key)) {
            assert(a.doc_cache@.contains_key(slot(c, key)));
        }
    }
}

} // verus!
