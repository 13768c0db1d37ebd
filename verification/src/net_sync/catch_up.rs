//! A node that takes what another tells it reads what the other reads.
use vstd::prelude::*;

use crate::document::firelite_doc::{decode_doc, document_round_trip, Doc};
use crate::engine::engine::{read_result, shard_queue, Hako};
use crate::engine::files::{read_doc, FileReads};
use crate::engine::marks::{stays, Kept};
use crate::engine::write::{shard_end, shard_places, Applied};
use crate::net_sync::arrival::{newer_deletion_ends, newer_document_is_read, only_one};
use crate::net_sync::delta::{delta_collected, delta_one, deltas};
use crate::net_sync::intake::{intake_into, local_time};
use crate::sorted_map::{ascending, ascending_entry, key_lt, key_order_total};
use crate::storage::blob::{comes_back, has_links, is_link, Work};
use crate::storage::pointer::{place_bytes, place_time_pending, Place, Pointer};
use crate::storage::shard::Shard;
use crate::storage::wal::{change_key, Change};

verus! {

/// A key that has something to tell is told once: the place among what is told.
pub proof fn each_is_told_once(
    entries: Seq<(Seq<char>, Pointer)>,
    marks: Kept,
    c: Seq<char>,
    since: i64,
    reads: FileReads,
    has_file: bool,
    queue: Seq<Work>,
    i: int,
) -> (k: int)
    requires
        ascending::<String, Pointer>(entries),
        0 <= i < entries.len(),
        delta_one(entries[i].0, entries[i].1@, marks, c, since, reads, has_file, queue) is Some,
    ensures
        only_one(deltas(entries, marks, c, since, reads, has_file, queue), k),
        Some(deltas(entries, marks, c, since, reads, has_file, queue)[k]) == delta_one(
            entries[i].0,
            entries[i].1@,
            marks,
            c,
            since,
            reads,
            has_file,
            queue,
        ),
    decreases entries.len(),
{
    let pre = entries.drop_last();
    let a = deltas(pre, marks, c, since, reads, has_file, queue);
    let b = deltas(entries, marks, c, since, reads, has_file, queue);
    let last = entries[entries.len() - 1];
    assert(ascending::<String, Pointer>(pre));
    if i == entries.len() - 1 {
        assert forall|j: int| 0 <= j < a.len() implies change_key(#[trigger] a[j]) != last.0 by {
            told_of_an_entry(pre, marks, c, since, reads, has_file, queue, j);
            let n = choose|n: int| 0 <= n < pre.len() && (#[trigger] pre[n]).0 == change_key(a[j]);
            assert(pre[n] == entries[n]);
            assert(key_lt::<String>(entries[n].0, last.0));
            key_order_total::<String>(last.0, last.0);
        }
        assert(b.last() == delta_one(last.0, last.1@, marks, c, since, reads, has_file, queue)->Some_0);
        assert(change_key(b.last()) == last.0);
        assert forall|j: int| 0 <= j < b.len() && j != a.len() implies change_key(#[trigger] b[j]) != change_key(
            b[a.len() as int],
        ) by {
            assert(b[j] == a[j]);
        }
        a.len() as int
    } else {
        assert(pre[i] == entries[i]);
        let k = each_is_told_once(pre, marks, c, since, reads, has_file, queue, i);
        assert(change_key(a[k]) == entries[i].0);
        assert(key_lt::<String>(entries[i].0, last.0));
        key_order_total::<String>(last.0, last.0);
        assert(b[k] == a[k]);
        assert forall|j: int| 0 <= j < b.len() && j != k implies change_key(#[trigger] b[j]) != change_key(b[k]) by {
            if j < a.len() {
                assert(b[j] == a[j]);
            }
        }
        k
    }
}

/// What is told is of a key of the collection.
proof fn told_of_an_entry(
    entries: Seq<(Seq<char>, Pointer)>,
    marks: Kept,
    c: Seq<char>,
    since: i64,
    reads: FileReads,
    has_file: bool,
    queue: Seq<Work>,
    j: int,
)
    requires
        0 <= j < deltas(entries, marks, c, since, reads, has_file, queue).len(),
    ensures
        exists|n: int|
            0 <= n < entries.len() && (#[trigger] entries[n]).0 == change_key(
                deltas(entries, marks, c, since, reads, has_file, queue)[j],
            ),
    decreases entries.len(),
{
    let pre = entries.drop_last();
    let a = deltas(pre, marks, c, since, reads, has_file, queue);
    if j < a.len() {
        told_of_an_entry(pre, marks, c, since, reads, has_file, queue, j);
        let n = choose|n: int| 0 <= n < pre.len() && (#[trigger] pre[n]).0 == change_key(a[j]);
        assert(entries[n] == pre[n]);
    } else {
        assert(entries[entries.len() - 1] == entries.last());
    }
}

/// A part of what was told holds a key once where the whole does.
proof fn once_in_part(ops: Seq<Change>, k: int, lo: int, hi: int)
    requires
        only_one(ops, k),
        0 <= lo <= k < hi <= ops.len(),
    ensures
        only_one(ops.subrange(lo, hi), k - lo),
        ops.subrange(lo, hi)[k - lo] == ops[k],
{
    let part = ops.subrange(lo, hi);
    assert forall|j: int| 0 <= j < part.len() && j != k - lo implies change_key(#[trigger] part[j]) != change_key(
        part[k - lo],
    ) by {
        assert(part[j] == ops[lo + j]);
    }
}

/// The number of the entry of a key.
proof fn entry_of(s: Shard, key: Seq<char>) -> (i: int)
    requires
        s.wf(),
        s.places().contains_key(key),
    ensures
        0 <= i < s.index.seq().len(),
        s.index.seq()[i].0 == key,
        s.index.seq()[i].1@ == s.places()[key],
{
    let e = s.index.seq();
    let i = choose|i: int| 0 <= i < e.len() && (#[trigger] e[i]).0 == key;
    ascending_entry::<String, Pointer>(e, i);
    i
}

/// A node that takes the message in which another tells it of a document that is newer than
/// its own reads the document as the other does.
pub proof fn document_arrives(
    from0: Hako,
    from: Hako,
    c: Seq<char>,
    since: i64,
    reads: FileReads,
    ops: Seq<Change>,
    key: Seq<char>,
    d: Doc,
    lo: int,
    hi: int,
    to0: Hako,
    e0: Map<Seq<char>, i64>,
    to: Hako,
    e1: Map<Seq<char>, i64>,
    s: Shard,
    own: FileReads,
    r: Option<Applied>,
    later: FileReads,
)
    requires
        from.wf(),
        !from0.marks@.collections.contains(c),
        delta_collected(from0, from, c, since, reads, ops),
        !stays(from0.marks@, c, key),
        shard_places(from.shards@, c).contains_key(key),
        place_time_pending(shard_places(from.shards@, c)[key]) > since,
        read_result(from.shards@, c, key, reads) == Some(Some(d)),
        d.fits(),
        forall|k: int| 0 <= k < d.fields.len() ==> !is_link((#[trigger] d.fields[k]).1) && comes_back(d.fields[k].1),
        0 <= lo <= hi <= ops.len(),
        exists|k: int| lo <= k < hi && change_key(#[trigger] ops[k]) == key,
        intake_into(to0, e0, to, e1, c, s, ops.subrange(lo, hi), own, r),
        s.places().contains_key(key) ==> d.time > local_time(s.places()[key], read_doc(own, key)),
    ensures
        read_result(to.shards@, c, key, later) == Some(Some(d)),
{
    let shard = from.shards@[c];
    let i = entry_of(shard, key);
    let file = shard_end(from.shards@, c) is Some;
    let queue = shard_queue(from.shards@, c);
    let b = place_bytes(shard.places()[key], read_doc(reads, key))->Some_0;
    let stored = decode_doc(b)->Some_0;
    if has_links(stored) {
        document_round_trip(d);
    }
    let k = each_is_told_once(shard.index.seq(), from0.marks@, c, since, reads, file, queue, i);
    let n = choose|n: int| lo <= n < hi && change_key(#[trigger] ops[n]) == key;
    assert(change_key(ops[k]) == key);
    assert(n == k);
    once_in_part(ops, k, lo, hi);
    newer_document_is_read(to0, e0, to, e1, c, s, ops.subrange(lo, hi), own, r, k - lo, d, later);
}

/// A node that takes the message in which another tells it of the end of a document, later
/// than what it has of it, finds the document no more.
pub proof fn deletion_arrives(
    from0: Hako,
    from: Hako,
    c: Seq<char>,
    since: i64,
    reads: FileReads,
    ops: Seq<Change>,
    key: Seq<char>,
    time: i64,
    lo: int,
    hi: int,
    to0: Hako,
    e0: Map<Seq<char>, i64>,
    to: Hako,
    e1: Map<Seq<char>, i64>,
    s: Shard,
    own: FileReads,
    r: Option<Applied>,
    later: FileReads,
)
    requires
        from.wf(),
        !from0.marks@.collections.contains(c),
        delta_collected(from0, from, c, since, reads, ops),
        !stays(from0.marks@, c, key),
        shard_places(from.shards@, c).contains_key(key),
        shard_places(from.shards@, c)[key] == (Place::Deleted { time }),
        time > since,
        0 <= lo <= hi <= ops.len(),
        exists|k: int| lo <= k < hi && change_key(#[trigger] ops[k]) == key,
        intake_into(to0, e0, to, e1, c, s, ops.subrange(lo, hi), own, r),
        s.places().contains_key(key) ==> time > local_time(s.places()[key], read_doc(own, key)),
    ensures
        read_result(to.shards@, c, key, later) == Some(None::<Doc>),
{
    let shard = from.shards@[c];
    let i = entry_of(shard, key);
    let file = shard_end(from.shards@, c) is Some;
    let queue = shard_queue(from.shards@, c);
    let k = each_is_told_once(shard.index.seq(), from0.marks@, c, since, reads, file, queue, i);
    let n = choose|n: int| lo <= n < hi && change_key(#[trigger] ops[n]) == key;
    assert(change_key(ops[k]) == key);
    assert(n == k);
    once_in_part(ops, k, lo, hi);
    newer_deletion_ends(to0, e0, to, e1, c, s, ops.subrange(lo, hi), own, r, k - lo, later);
}

} // verus!
