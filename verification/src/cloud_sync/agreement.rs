//! Stores that hear of the same changes in different orders come to agree.
use vstd::prelude::*;

use crate::cloud_sync::ingest::{
    admitted, encrypts, flushed_one, item_ops, judged, judged_along, judged_one, ops_from, own_fp, taken, text_view, took,
    Circle, Flush, Item,
};
use crate::document::firelite_doc::{decode_doc, Doc};
use crate::engine::access::permitted;
use crate::engine::engine::{is_shard, op_keys, read_result, ready_doc, Hako};
use crate::engine::files::FileReads;
use crate::engine::freshness::{cache_is_old, steady};
use crate::engine::marks::slot;
use crate::engine::remote::{
    last_change_stays, remote_after, remote_put_is_read, remote_time, replicated, weighed,
};
use crate::engine::types::AccessOp;
use crate::engine::versions::change_is_seen;
use crate::storage::blob::is_link;
use crate::storage::shard::{applied_elsewhere, Shard};
use crate::storage::wal::{change_key, ops_view, Change};

verus! {

/// A store in which documents of a collection may be read, and what it holds ready of a key is
/// what a read gives.
pub open spec fn settled(db: Hako, c: Seq<char>, key: Seq<char>, reads: FileReads) -> bool {
    &&& permitted(db.security_rules@, c, AccessOp::Get)
    &&& steady(db)
    &&& ready_doc(db, c, key) matches Some(d) ==> read_result(db.shards@, c, key, reads) == Some(Some(d))
}

/// A change that came from an admitted peer: it is judged, and applied if it is newer.
pub open spec fn came(a: Hako, b: Hako, reads: FileReads, c: Seq<char>, op: Change) -> bool {
    exists|m: Hako, ok: bool| #[trigger]
        judged_one(a, m, reads, c, true, op, ok) && if ok {
            replicated(m, b, c, seq![op])
        } else {
            b == m
        }
}

/// Whether a change carries a time and no links: a deletion, or a document of a time.
pub open spec fn carries(op: Change) -> bool {
    match op {
        Change::Put { value, .. } => {
            &&& decode_doc(value) matches Some(d)
            &&& d.time != 0
            &&& forall|k: int| 0 <= k < d.fields.len() ==> !is_link((#[trigger] d.fields[k]).1)
        },
        Change::Delete { .. } => true,
        _ => false,
    }
}

/// What a change makes of its document.
pub open spec fn made_of(op: Change) -> Option<Doc> {
    match op {
        Change::Put { value, .. } => decode_doc(value),
        _ => None,
    }
}

/// What a read gives after a change came: what the change carried if it was newer than the
/// document here, and else what it gave before.
pub proof fn newer_counts(a: Hako, b: Hako, reads: FileReads, c: Seq<char>, op: Change)
    requires
        settled(a, c, change_key(op), reads),
        a.versions@.next < u64::MAX,
        carries(op),
        came(a, b, reads, c, op),
    ensures
        settled(b, c, change_key(op), reads),
        b.versions@.next <= a.versions@.next + 1,
        read_result(b.shards@, c, change_key(op), reads) == (match read_result(a.shards@, c, change_key(op), reads) {
            Some(Some(d)) => if d.time < remote_time(op) {
                Some(made_of(op))
            } else {
                Some(Some(d))
            },
            _ => Some(made_of(op)),
        }),
{
    let key = change_key(op);
    let (m, ok) = choose|m: Hako, ok: bool| #[trigger]
        judged_one(a, m, reads, c, true, op, ok) && if ok {
            replicated(m, b, c, seq![op])
        } else {
            b == m
        };
    assert(weighed(a, m, reads, c, key, remote_time(op), ok));
    assert(read_result(m.shards@, c, key, reads) == read_result(a.shards@, c, key, reads));
    assert(cache_is_old(m));
    assert(settled(m, c, key, reads));
    if ok {
        let ops = seq![op];
        let keys = op_keys(ops);
        assert(keys =~= seq![key]);
        assert(keys[0] == key);
        change_is_seen(m.versions@, keys, key);
        assert(ready_doc(b, c, key) is None) by {
            if b.doc_cache@.contains_key(slot(c, key)) {
                assert(m.doc_cache@.contains_key(slot(c, key)));
            }
        }
        match op {
            Change::Put { value, .. } => {
                remote_put_is_read(m, b, c, ops, 0, decode_doc(value)->Some_0, reads);
            },
            _ => {
                let s = choose|s: Shard| #[trigger] is_shard(m.shards@, c, s) && remote_after(s, b.shards@[c], ops);
                last_change_stays(s.places(), ops, 0);
            },
        }
    }
}

/// A batch of one change from an admitted peer is that change as it came: it is judged, and
/// applied if it is newer. Where it is not, nothing is told to anyone.
pub proof fn one_change_is_flushed(
    a: Hako,
    e0: Map<Seq<char>, i64>,
    b: Hako,
    e1: Map<Seq<char>, i64>,
    circle: Circle,
    reads: FileReads,
    c: Seq<char>,
    item: Item,
    r: Flush,
)
    requires
        flushed_one(a, e0, b, e1, circle, reads, c, seq![item], r),
        !a.marks@.collections.contains(item.collection),
        admitted(encrypts(a, c, item.collection), own_fp(a), circle.caps, item.sender),
    ensures
        came(a, b, reads, c, item.op),
        r.applied is None ==> r.relays@.len() == 0,
{
    let items = seq![item];
    assert(items[0] == item);
    let enc = encrypts(a, c, item.collection);
    let (m, oks) = choose|m: Hako, oks: Seq<bool>|
        #![trigger judged(a, m, reads, c, enc, own_fp(a), circle.caps, items, oks)]
        judged(a, m, reads, c, enc, own_fp(a), circle.caps, items, oks) && took(
            m,
            e0,
            b,
            e1,
            circle,
            c,
            item.prefix,
            item.collection,
            enc,
            own_fp(a),
            taken(items, oks),
            r,
        );
    let t = choose|t: Seq<Hako>| #[trigger]
        judged_along(t, a, m, reads, c, enc, own_fp(a), circle.caps, items, oks);
    assert(t.last() == t[1]);
    assert(judged_one(a, m, reads, c, true, item.op, oks[0]));
    reveal_with_fuel(taken, 2);
    assert(items.drop_last() =~= Seq::<Item>::empty());
    assert(oks.last() == oks[0]);
    if oks[0] {
        assert(taken(items, oks) =~= items);
        assert(item_ops(items) =~= seq![item.op]);
    } else {
        assert(taken(items, oks) =~= Seq::<Item>::empty());
        if r.relays@.len() > 0 {
            let first = r.relays@[0];
            assert(ops_view(first.ops@).len() == first.ops@.len());
            assert(ops_view(first.ops@) == ops_from(Seq::<Item>::empty(), text_view(first.origin)));
        }
    }
}

/// A change that came leaves every other document of the collection as it was read.
pub proof fn others_are_left_alone(a: Hako, b: Hako, reads: FileReads, c: Seq<char>, op: Change, key: Seq<char>)
    requires
        came(a, b, reads, c, op),
        key != change_key(op),
    ensures
        read_result(b.shards@, c, key, reads) == read_result(a.shards@, c, key, reads),
{
    let (m, ok) = choose|m: Hako, ok: bool| #[trigger]
        judged_one(a, m, reads, c, true, op, ok) && if ok {
            replicated(m, b, c, seq![op])
        } else {
            b == m
        };
    assert(read_result(m.shards@, c, key, reads) == read_result(a.shards@, c, key, reads));
    if ok {
        let ops = seq![op];
        let s = choose|s: Shard| #[trigger] is_shard(m.shards@, c, s) && remote_after(s, b.shards@[c], ops);
        applied_elsewhere(s.places(), ops, key);
    }
}

/// Of two changes of a document the later one is what a read gives in the end, whichever
/// came first, unless the later one deletes what the earlier one put: only documents are
/// compared, and a deletion leaves none.
pub proof fn order_of_arrival_does_not_matter(
    a: Hako,
    b1: Hako,
    b2: Hako,
    c1: Hako,
    c2: Hako,
    reads: FileReads,
    c: Seq<char>,
    x: Change,
    y: Change,
)
    requires
        settled(a, c, change_key(x), reads),
        a.versions@.next + 2 <= u64::MAX,
        carries(x),
        carries(y),
        change_key(x) == change_key(y),
        remote_time(x) < remote_time(y),
        y is Put || x is Delete,
        came(a, b1, reads, c, x),
        came(b1, b2, reads, c, y),
        came(a, c1, reads, c, y),
        came(c1, c2, reads, c, x),
    ensures
        read_result(b2.shards@, c, change_key(x), reads) == read_result(c2.shards@, c, change_key(x), reads),
{
    newer_counts(a, b1, reads, c, x);
    newer_counts(b1, b2, reads, c, y);
    newer_counts(a, c1, reads, c, y);
    newer_counts(c1, c2, reads, c, x);
}

} // verus!
