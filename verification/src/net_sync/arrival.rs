//! What comes from another node and is newer is what is read here from then on.
use vstd::prelude::*;

use crate::document::firelite_doc::{decode_doc, doc_bytes, Doc, FireLiteDoc};
use crate::engine::access::permitted;
use crate::engine::engine::{read_result, ready_doc, speaks_of, Hako};
use crate::engine::files::{read_doc, FileReads};
use crate::engine::marks::slot;
use crate::engine::store::got;
use crate::engine::types::AccessOp;
use crate::engine::write::Applied;
use crate::error::HakoError;
use crate::net_sync::intake::{
    beats, counts, first_delete, has_work, intake_into, placed, take_step, taken, Taken,
};
use crate::storage::blob::{
    comes_back, doc_end, doc_works, end_bounds, extraction_is_undone_later, is_link, pieces, pieces_ascend,
    skeleton_doc, skeleton_is_read, works_view, Work,
};
use crate::storage::pointer::{place_bytes, Place};
use crate::storage::shard::Shard;
use crate::storage::wal::{change_key, Change};

verus! {

/// No operation but that at `i` has its key.
pub open spec fn only_one(ops: Seq<Change>, i: int) -> bool {
    &&& 0 <= i < ops.len()
    &&& forall|j: int| 0 <= j < ops.len() && j != i ==> change_key(#[trigger] ops[j]) != change_key(ops[i])
}

/// Nothing that was taken has a key.
spec fn without(t: Taken, key: Seq<char>) -> bool {
    &&& t.ops.len() == t.docs.len()
    &&& forall|j: int| 0 <= j < t.docs.len() ==> (#[trigger] t.docs[j]).0 != key
    &&& forall|j: int| 0 <= j < t.works.len() ==> (#[trigger] t.works[j]).key != key
}

/// What is taken of operations without a key has not that key either.
proof fn stays_without(
    ops: Seq<Change>,
    m: Map<Seq<char>, Place>,
    end: Option<u64>,
    reads: FileReads,
    threshold: nat,
    key: Seq<char>,
)
    requires
        forall|j: int| 0 <= j < ops.len() ==> change_key(#[trigger] ops[j]) != key,
    ensures
        without(taken(ops, m, end, reads, threshold), key),
    decreases ops.len(),
{
    if ops.len() > 0 {
        let pre = ops.drop_last();
        assert forall|j: int| 0 <= j < pre.len() implies change_key(#[trigger] pre[j]) != key by {
            assert(pre[j] == ops[j]);
        }
        stays_without(pre, m, end, reads, threshold, key);
        assert(change_key(ops[ops.len() - 1]) != key);
    }
}

/// What is taken holds one operation of a key: the `at`th, behind the values `before` and
/// ahead of the values `after` that are kept aside.
spec fn holds_one(
    t: Taken,
    key: Seq<char>,
    doc: Option<Doc>,
    mine: Seq<Work>,
    from: Option<u64>,
    at: int,
    before: Seq<Work>,
    after: Seq<Work>,
) -> bool {
    &&& t.ops.len() == t.docs.len()
    &&& 0 <= at < t.docs.len()
    &&& t.docs[at] == (key, doc)
    &&& change_key(t.ops[at]) == key
    &&& forall|j: int| 0 <= j < t.docs.len() && j != at ==> (#[trigger] t.docs[j]).0 != key
    &&& t.works == before + mine + after
    &&& forall|j: int| 0 <= j < before.len() ==> (#[trigger] before[j]).key != key
    &&& forall|j: int| 0 <= j < after.len() ==> (#[trigger] after[j]).key != key
    &&& match from {
        Some(e) => {
            &&& t.end matches Some(f)
            &&& e <= f
            &&& forall|j: int| 0 <= j < after.len() ==> (#[trigger] after[j]).offset >= e
        },
        None => t.end is None,
    }
}

/// One more operation with another key leaves the one of a key as it is.
proof fn holds_one_still(
    t: Taken,
    next: Change,
    m: Map<Seq<char>, Place>,
    reads: FileReads,
    threshold: nat,
    key: Seq<char>,
    doc: Option<Doc>,
    mine: Seq<Work>,
    from: Option<u64>,
    at: int,
    before: Seq<Work>,
    after: Seq<Work>,
) -> (more: Seq<Work>)
    requires
        holds_one(t, key, doc, mine, from, at, before, after),
        change_key(next) != key,
    ensures
        holds_one(take_step(t, next, m, reads, threshold), key, doc, mine, from, at, before, more),
{
    let u = take_step(t, next, m, reads, threshold);
    if u == t {
        after
    } else {
        match next {
            Change::Put { key: k, value } => {
                let d = decode_doc(value)->Some_0;
                let w = doc_works(k, d, threshold, t.end);
                let more = after + w;
                assert(u.works =~= before + mine + more);
                if let Some(f) = t.end {
                    end_bounds(d.fields, threshold, f as nat);
                    pieces_ascend(d.fields, threshold, f as nat);
                    let p = pieces(d.fields, threshold, f as nat);
                    assert forall|j: int| 0 <= j < more.len() implies (#[trigger] more[j]).offset >= from->Some_0 by {
                        if j >= after.len() {
                            assert(more[j].offset == p[j - after.len()].0);
                        } else {
                            assert(more[j] == after[j]);
                        }
                    }
                }
                assert forall|j: int| 0 <= j < more.len() implies (#[trigger] more[j]).key != key by {
                    if j < after.len() {
                        assert(more[j] == after[j]);
                    }
                }
                more
            },
            _ => after,
        }
    }
}

/// What is taken of a batch in which one operation is newer and alone with its key holds
/// that operation.
proof fn the_one_is_held(
    ops: Seq<Change>,
    i: int,
    m: Map<Seq<char>, Place>,
    end: Option<u64>,
    reads: FileReads,
    threshold: nat,
) -> (r: (int, Seq<Work>, Seq<Work>))
    requires
        only_one(ops, i),
        beats(m, reads, ops[i]),
        counts(ops[i]),
    ensures
        ({
            let t = taken(ops, m, end, reads, threshold);
            let from = taken(ops.take(i), m, end, reads, threshold).end;
            let key = change_key(ops[i]);
            match ops[i] {
                Change::Put { value, .. } => {
                    let d = decode_doc(value)->Some_0;
                    let lean = skeleton_doc(d, threshold, from);
                    holds_one(
                        t,
                        key,
                        Some(lean),
                        doc_works(key, d, threshold, from),
                        doc_end(d, threshold, from),
                        r.0,
                        r.1,
                        r.2,
                    )
                },
                _ => holds_one(t, key, None, Seq::empty(), from, r.0, r.1, r.2),
            }
        }),
    decreases ops.len(),
{
    let key = change_key(ops[i]);
    let pre = ops.drop_last();
    let p = taken(pre, m, end, reads, threshold);
    if i == ops.len() - 1 {
        assert(ops.take(i) =~= pre);
        assert forall|j: int| 0 <= j < pre.len() implies change_key(#[trigger] pre[j]) != key by {
            assert(pre[j] == ops[j]);
        }
        stays_without(pre, m, end, reads, threshold, key);
        let t = taken(ops, m, end, reads, threshold);
        match ops[i] {
            Change::Put { value, .. } => {
                let d = decode_doc(value)->Some_0;
                let w = doc_works(key, d, threshold, p.end);
                assert(t.works =~= p.works + w + Seq::<Work>::empty());
                if let Some(f) = p.end {
                    end_bounds(d.fields, threshold, f as nat);
                }
            },
            _ => {
                assert(t.works =~= p.works + Seq::<Work>::empty() + Seq::<Work>::empty());
            },
        }
        (p.docs.len() as int, p.works, Seq::empty())
    } else {
        assert forall|j: int| 0 <= j < pre.len() && j != i implies change_key(#[trigger] pre[j]) != change_key(pre[i]) by {
            assert(pre[j] == ops[j]);
        }
        assert(pre.take(i) =~= ops.take(i));
        let (at, before, after) = the_one_is_held(pre, i, m, end, reads, threshold);
        let from = taken(ops.take(i), m, end, reads, threshold).end;
        let next = ops.last();
        assert(change_key(ops[ops.len() - 1]) != key);
        match ops[i] {
            Change::Put { value, .. } => {
                let d = decode_doc(value)->Some_0;
                let lean = skeleton_doc(d, threshold, from);
                let more = holds_one_still(
                    p,
                    next,
                    m,
                    reads,
                    threshold,
                    key,
                    Some(lean),
                    doc_works(key, d, threshold, from),
                    doc_end(d, threshold, from),
                    at,
                    before,
                    after,
                );
                (at, before, more)
            },
            _ => {
                let more = holds_one_still(
                    p,
                    next,
                    m,
                    reads,
                    threshold,
                    key,
                    None,
                    Seq::empty(),
                    from,
                    at,
                    before,
                    after,
                );
                (at, before, more)
            },
        }
    }
}

/// Nothing is held ready of a key once a change of it was taken.
proof fn not_held_ready(
    a: Hako,
    e0: Map<Seq<char>, i64>,
    b: Hako,
    e1: Map<Seq<char>, i64>,
    c: Seq<char>,
    s: Shard,
    ops: Seq<Change>,
    reads: FileReads,
    r: Option<Applied>,
    i: int,
)
    requires
        intake_into(a, e0, b, e1, c, s, ops, reads, r),
        only_one(ops, i),
        counts(ops[i]),
        beats(s.places(), reads, ops[i]),
    ensures
        ready_doc(b, c, change_key(ops[i])) is None,
{
    let threshold = a.config.value_blob_threshold_bytes as nat;
    let t = taken(ops, s.places(), s.blob_end, reads, threshold);
    let key = change_key(ops[i]);
    let (at, before, after) = the_one_is_held(ops, i, s.places(), s.blob_end, reads, threshold);
    assert(speaks_of(c, t.ops, slot(c, key))) by {
        assert(change_key(t.ops[at]) == key);
    }
    assert(!b.doc_cache@.contains_key(slot(c, key)));
}

/// The place of a key that stands once among documents.
proof fn placed_at(
    m: Map<Seq<char>, Place>,
    docs: Seq<(Seq<char>, Option<Doc>)>,
    works: Seq<Work>,
    ops: Seq<Change>,
    at: int,
)
    requires
        0 <= at < docs.len(),
        forall|j: int| 0 <= j < docs.len() && j != at ==> (#[trigger] docs[j]).0 != docs[at].0,
    ensures
        placed(m, docs, works, ops).contains_key(docs[at].0),
        placed(m, docs, works, ops)[docs[at].0] == (match docs[at].1 {
            Some(d) => if has_work(works, docs[at].0) {
                Place::BlobPending(d)
            } else {
                Place::Inlined(doc_bytes(d))
            },
            None => Place::Deleted { time: first_delete(ops, docs[at].0) },
        }),
    decreases docs.len(),
{
    if at < docs.len() - 1 {
        let pre = docs.drop_last();
        assert forall|j: int| 0 <= j < pre.len() && j != at implies (#[trigger] pre[j]).0 != pre[at].0 by {
            assert(pre[j] == docs[j]);
        }
        placed_at(m, pre, works, ops, at);
        assert(docs[docs.len() - 1].0 != docs[at].0);
    }
}

/// A document that comes in a batch from another node, is newer than what lies here and alone
/// with its key is what is read from then on, its large values among the rest.
pub proof fn newer_document_is_read(
    a: Hako,
    e0: Map<Seq<char>, i64>,
    b: Hako,
    e1: Map<Seq<char>, i64>,
    c: Seq<char>,
    s: Shard,
    ops: Seq<Change>,
    reads: FileReads,
    r: Option<Applied>,
    i: int,
    d: Doc,
    later: FileReads,
)
    requires
        intake_into(a, e0, b, e1, c, s, ops, reads, r),
        only_one(ops, i),
        ops[i] matches Change::Put { value, .. } && decode_doc(value) == Some(d),
        beats(s.places(), reads, ops[i]),
        forall|k: int| 0 <= k < d.fields.len() ==> !is_link((#[trigger] d.fields[k]).1) && comes_back(d.fields[k].1),
    ensures
        read_result(b.shards@, c, change_key(ops[i]), later) == Some(Some(d)),
{
    let threshold = a.config.value_blob_threshold_bytes as nat;
    let m = s.places();
    let t = taken(ops, m, s.blob_end, reads, threshold);
    let from = taken(ops.take(i), m, s.blob_end, reads, threshold).end;
    let key = change_key(ops[i]);
    let value = ops[i]->Put_value;
    let lean = skeleton_doc(d, threshold, from);
    let mine = doc_works(key, d, threshold, from);
    let (at, before, after) = the_one_is_held(ops, i, m, s.blob_end, reads, threshold);
    placed_at(m, t.docs, t.works, t.ops, at);
    skeleton_is_read(value, d, threshold, from);
    let queue = works_view(s.blob_flush_queue@);
    let all = works_view(b.shards@[c].blob_flush_queue@);
    let place = b.shards@[c].places()[key];
    assert(place_bytes(place, read_doc(later, key)) == Some(doc_bytes(lean)));
    match from {
        Some(e) => {
            end_bounds(d.fields, threshold, e as nat);
            assert(all =~= (queue + before) + mine + after);
            extraction_is_undone_later(key, d, threshold, e, queue + before, after, later.blobs@);
        },
        None => {
            assert(lean == d);
        },
    }
}

/// A deletion that comes in a batch from another node, is newer than what lies here and alone
/// with its key ends the document.
pub proof fn newer_deletion_ends(
    a: Hako,
    e0: Map<Seq<char>, i64>,
    b: Hako,
    e1: Map<Seq<char>, i64>,
    c: Seq<char>,
    s: Shard,
    ops: Seq<Change>,
    reads: FileReads,
    r: Option<Applied>,
    i: int,
    later: FileReads,
)
    requires
        intake_into(a, e0, b, e1, c, s, ops, reads, r),
        only_one(ops, i),
        ops[i] is Delete,
        beats(s.places(), reads, ops[i]),
    ensures
        read_result(b.shards@, c, change_key(ops[i]), later) == Some(None::<Doc>),
{
    let threshold = a.config.value_blob_threshold_bytes as nat;
    let m = s.places();
    let t = taken(ops, m, s.blob_end, reads, threshold);
    let (at, before, after) = the_one_is_held(ops, i, m, s.blob_end, reads, threshold);
    placed_at(m, t.docs, t.works, t.ops, at);
}

/// What a read of a document gives after a batch from another node that holds one newer
/// change of it and no other: the document of the change, or none where it was deleted,
/// whatever was held ready of it before.
pub proof fn newer_change_is_got(
    a: Hako,
    e0: Map<Seq<char>, i64>,
    b: Hako,
    e1: Map<Seq<char>, i64>,
    c: Seq<char>,
    s: Shard,
    ops: Seq<Change>,
    reads: FileReads,
    r: Option<Applied>,
    i: int,
    later: FileReads,
    after: Hako,
    g: Result<Option<FireLiteDoc>, HakoError>,
)
    requires
        intake_into(a, e0, b, e1, c, s, ops, reads, r),
        only_one(ops, i),
        counts(ops[i]),
        beats(s.places(), reads, ops[i]),
        ops[i] matches Change::Put { value, .. } ==> {
            let d = decode_doc(value)->Some_0;
            forall|k: int| 0 <= k < d.fields.len() ==> !is_link((#[trigger] d.fields[k]).1) && comes_back(d.fields[k].1)
        },
        permitted(a.security_rules@, c, AccessOp::Get),
        got(b, after, later, c, change_key(ops[i]), g),
    ensures
        match ops[i] {
            Change::Put { value, .. } => g matches Ok(Some(x)) && Some(x@) == decode_doc(value),
            _ => g matches Ok(None),
        },
{
    not_held_ready(a, e0, b, e1, c, s, ops, reads, r, i);
    match ops[i] {
        Change::Put { value, .. } => {
            newer_document_is_read(a, e0, b, e1, c, s, ops, reads, r, i, decode_doc(value)->Some_0, later);
        },
        _ => {
            newer_deletion_ends(a, e0, b, e1, c, s, ops, reads, r, i, later);
        },
    }
}

} // verus!
