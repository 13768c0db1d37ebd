//! What is held ready of documents is never mistaken for a later version of them.
use vstd::prelude::*;

use crate::document::firelite_doc::FireLiteDoc;
use crate::engine::engine::{batch_done, batch_keys, op_keys, Hako};
use crate::engine::files::FileReads;
use crate::engine::remote::replicated;
use crate::engine::store::got;
use crate::engine::versions::{change_is_seen, clock_wf};
use crate::engine::write::{Applied, Staging};
use crate::error::HakoError;
use crate::net_sync::intake::{intake_into, taken};
use crate::storage::shard::{puts_of, Shard};
use crate::storage::wal::Change;

verus! {

/// No document that is held ready has a version that is still to come.
pub open spec fn cache_is_old(db: Hako) -> bool {
    forall|s: Seq<char>| #[trigger] db.doc_cache@.contains_key(s) ==> db.doc_cache@[s].0 < db.versions@.next
}

/// Every version that was given is below the next: those of documents, and those under which
/// documents are held ready.
pub open spec fn steady(db: Hako) -> bool {
    clock_wf(db.versions@) && cache_is_old(db)
}

/// A read keeps a store steady.
pub proof fn steady_after_read(
    a: Hako,
    b: Hako,
    reads: FileReads,
    c: Seq<char>,
    id: Seq<char>,
    r: Result<Option<FireLiteDoc>, HakoError>,
)
    requires
        steady(a),
        got(a, b, reads, c, id, r),
    ensures
        steady(b),
        b.versions@ == a.versions@,
{
}

/// A batch keeps a store steady, while there are versions left.
pub proof fn steady_after_batch(a: Hako, b: Hako, st: Staging)
    requires
        steady(a),
        batch_done(a, b, st),
        a.versions@.next + batch_keys(st.order, st.plans).len() <= u64::MAX,
    ensures
        steady(b),
{
    change_is_seen(a.versions@, batch_keys(st.order, st.plans), Seq::empty());
}

/// Changes through a server keep a store steady, while there are versions left.
pub proof fn steady_after_replication(a: Hako, b: Hako, c: Seq<char>, ops: Seq<Change>)
    requires
        steady(a),
        replicated(a, b, c, ops),
        a.versions@.next + ops.len() <= u64::MAX,
    ensures
        steady(b),
{
    change_is_seen(a.versions@, op_keys(ops), Seq::empty());
}

/// Changes of another node keep a store steady, while there are versions left.
pub proof fn steady_after_intake(
    a: Hako,
    e0: Map<Seq<char>, i64>,
    b: Hako,
    e1: Map<Seq<char>, i64>,
    c: Seq<char>,
    s: Shard,
    ops: Seq<Change>,
    reads: FileReads,
    r: Option<Applied>,
)
    requires
        steady(a),
        intake_into(a, e0, b, e1, c, s, ops, reads, r),
        a.versions@.next + ops.len() <= u64::MAX,
    ensures
        steady(b),
{
    let t = taken(ops, s.places(), s.blob_end, reads, a.config.value_blob_threshold_bytes as nat);
    taken_len(ops, s, reads, a.config.value_blob_threshold_bytes as nat);
    puts_len(t.ops);
    change_is_seen(a.versions@, op_keys(puts_of(t.ops)), Seq::empty());
}

/// No more operations put documents than there are.
proof fn puts_len(ops: Seq<Change>)
    ensures
        puts_of(ops).len() <= ops.len(),
    decreases ops.len(),
{
    if ops.len() > 0 {
        puts_len(ops.drop_last());
    }
}

/// No more is taken of a batch than came.
proof fn taken_len(ops: Seq<Change>, s: Shard, reads: FileReads, threshold: nat)
    ensures
        taken(ops, s.places(), s.blob_end, reads, threshold).ops.len() <= ops.len(),
    decreases ops.len(),
{
    if ops.len() > 0 {
        taken_len(ops.drop_last(), s, reads, threshold);
    }
}

} // verus!
