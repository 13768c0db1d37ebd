//! What a peer that was away has missed.
use vstd::prelude::*;
use vstd::string::*;

use crate::cloud_sync::packet::{CloudPacket, VersionMap};
use crate::document::firelite_doc::{doc_bytes, names_view, Doc};
use crate::engine::access::{begins, encrypted, is_collection_encrypted, text_begins};
use crate::engine::collections::{discovered, opened_places, places_same, visible_of};
use crate::engine::engine::{batch_done, env_of, Hako};
use crate::engine::files::{read_doc, FileReads};
use crate::engine::marks::{slot, stays, Kept};
use crate::engine::remote::last_change_stays;
use crate::engine::store::{put_lies, shard_opened};
use crate::engine::types::Wish;
use crate::engine::write::{shard_end, shard_places, staged};
use crate::sorted_map::{ascending, ascending_entry, entries_map, key_order_total};
use crate::storage::blob::skeleton_doc;
use crate::storage::pointer::{place_bytes, place_time, Place, Pointer};
use crate::storage::shard::{applied, is_version};
use crate::storage::wal::{change_key, ops_view, stamp_of_document, Change, WalOp};
use crate::sync_guard::{caps_allow, config_fingerprint, fingerprint, flows, known_caps, store_key, told_fp, CapsMap, PeerCaps};
use crate::text::{chars_of, text_of};

verus! {

/// What a key has to tell since a time: a document that is newer, or its end. What stays on
/// this device is not told, and a document whose bytes cannot be read is left out.
pub open spec fn missed_one(
    key: Seq<char>,
    p: Place,
    marks: Kept,
    filter: Seq<char>,
    since: i64,
    reads: FileReads,
) -> Option<Change> {
    if place_time(p) <= since || stays(marks, filter, key) {
        None
    } else {
        match p {
            Place::Deleted { time } => Some(Change::Delete { key, time }),
            _ => match place_bytes(p, read_doc(reads, key)) {
                Some(b) => Some(Change::Put { key, value: b }),
                None => None,
            },
        }
    }
}

/// What the entries of a collection have to tell since a time, in the order of the keys.
pub open spec fn missed(
    entries: Seq<(Seq<char>, Pointer)>,
    marks: Kept,
    filter: Seq<char>,
    since: i64,
    reads: FileReads,
) -> Seq<Change>
    decreases entries.len(),
{
    if entries.len() == 0 {
        Seq::empty()
    } else {
        let before = missed(entries.drop_last(), marks, filter, since, reads);
        let e = entries.last();
        match missed_one(e.0, e.1@, marks, filter, since, reads) {
            Some(op) => before.push(op),
            None => before,
        }
    }
}

/// What is told of a collection is about its keys: newer than the time, not marked to stay
/// here, and each only once.
pub proof fn missed_is_for_others(
    entries: Seq<(Seq<char>, Pointer)>,
    marks: Kept,
    filter: Seq<char>,
    since: i64,
    reads: FileReads,
    k: int,
)
    requires
        0 <= k < missed(entries, marks, filter, since, reads).len(),
    ensures
        exists|i: int| #![trigger entries[i]]
            0 <= i < entries.len() && place_time(entries[i].1@) > since && !stays(marks, filter, entries[i].0)
                && missed_one(entries[i].0, entries[i].1@, marks, filter, since, reads) == Some(
                missed(entries, marks, filter, since, reads)[k],
            ),
    decreases entries.len(),
{
    let pre = entries.drop_last();
    let a = missed(pre, marks, filter, since, reads);
    if k < a.len() {
        missed_is_for_others(pre, marks, filter, since, reads, k);
        let i = choose|i: int| #![trigger pre[i]]
            0 <= i < pre.len() && place_time(pre[i].1@) > since && !stays(marks, filter, pre[i].0) && missed_one(
                pre[i].0,
                pre[i].1@,
                marks,
                filter,
                since,
                reads,
            ) == Some(a[k]);
        assert(entries[i] == pre[i]);
    } else {
        assert(entries[entries.len() - 1] == entries.last());
    }
}

/// Nothing that is marked to stay on this device is told.
pub proof fn marked_is_not_told(
    entries: Seq<(Seq<char>, Pointer)>,
    marks: Kept,
    filter: Seq<char>,
    since: i64,
    reads: FileReads,
    op: Change,
)
    requires
        missed(entries, marks, filter, since, reads).contains(op),
    ensures
        !stays(marks, filter, change_key(op)),
{
    let m = missed(entries, marks, filter, since, reads);
    let k = choose|k: int| 0 <= k < m.len() && m[k] == op;
    missed_is_for_others(entries, marks, filter, since, reads, k);
}

/// Where a key that has something to tell stands among what is told; the keys behind it
/// come later.
proof fn told_at(
    entries: Seq<(Seq<char>, Pointer)>,
    marks: Kept,
    filter: Seq<char>,
    since: i64,
    reads: FileReads,
    i: int,
) -> (k: int)
    requires
        ascending::<String, Pointer>(entries),
        0 <= i < entries.len(),
        missed_one(entries[i].0, entries[i].1@, marks, filter, since, reads) is Some,
    ensures
        0 <= k < missed(entries, marks, filter, since, reads).len(),
        missed(entries, marks, filter, since, reads)[k] == missed_one(
            entries[i].0,
            entries[i].1@,
            marks,
            filter,
            since,
            reads,
        )->Some_0,
        forall|j: int|
            k < j < missed(entries, marks, filter, since, reads).len() ==> change_key(
                #[trigger] missed(entries, marks, filter, since, reads)[j],
            ) != entries[i].0,
    decreases entries.len(),
{
    let pre = entries.drop_last();
    let a = missed(pre, marks, filter, since, reads);
    let b = missed(entries, marks, filter, since, reads);
    if i == entries.len() - 1 {
        assert(b[a.len() as int] == missed_one(entries[i].0, entries[i].1@, marks, filter, since, reads)->Some_0);
        a.len() as int
    } else {
        assert(ascending::<String, Pointer>(pre));
        assert(pre[i] == entries[i]);
        let k = told_at(pre, marks, filter, since, reads, i);
        let last = entries[entries.len() - 1];
        assert(crate::sorted_map::key_lt::<String>(entries[i].0, last.0));
        key_order_total::<String>(entries[i].0, last.0);
        assert forall|j: int| k < j < b.len() implies change_key(#[trigger] b[j]) != entries[i].0 by {
            if j < a.len() {
                assert(b[j] == a[j]);
            }
        }
        assert(b[k] == a[k]);
        k
    }
}

/// A peer that applies what it is told has of each such key what this store has: the same
/// bytes, or the same end.
pub proof fn told_is_caught_up(
    entries: Seq<(Seq<char>, Pointer)>,
    marks: Kept,
    filter: Seq<char>,
    since: i64,
    reads: FileReads,
    peer: Map<Seq<char>, Place>,
    i: int,
)
    requires
        ascending::<String, Pointer>(entries),
        0 <= i < entries.len(),
        missed_one(entries[i].0, entries[i].1@, marks, filter, since, reads) is Some,
    ensures
        ({
            let after = applied(peer, missed(entries, marks, filter, since, reads));
            &&& after.contains_key(entries[i].0)
            &&& match entries[i].1@ {
                Place::Deleted { time } => after[entries[i].0] == Place::Deleted { time },
                p => Some(after[entries[i].0]) == (match place_bytes(p, read_doc(reads, entries[i].0)) {
                    Some(b) => Some(Place::Inlined(b)),
                    None => None,
                }),
            }
        }),
{
    let m = missed(entries, marks, filter, since, reads);
    let k = told_at(entries, marks, filter, since, reads, i);
    assert(change_key(m[k]) == entries[i].0);
    last_change_stays(peer, m, k);
}

/// Nothing keeps a document on this device: neither its collection is marked nor its id, by
/// itself or behind the name of the collection and a colon.
pub open spec fn unmarked(marks: Kept, collection: Seq<char>, key: Seq<char>) -> bool {
    &&& !marks.collections.contains(collection)
    &&& forall|id: Seq<char>| #[trigger] marks.documents.contains(collection + "\0"@ + id) ==> key != id && key
        != collection + ":"@ + id
}

/// What is not marked does not stay.
pub proof fn unmarked_goes(marks: Kept, collection: Seq<char>, key: Seq<char>)
    requires
        unmarked(marks, collection, key),
    ensures
        !stays(marks, collection, key),
{
    let c = collection + ":"@;
    reveal_strlit(":");
    if begins(key, c) {
        let id = key.skip(collection.len() as int + 1);
        assert(key =~= c + id) by {
            assert(key.subrange(0, c.len() as int) =~= c);
        }
        assert(!marks.documents.contains(slot(collection, id)));
    }
}

/// A peer that comes back is told of every deletion that is later than what it has.
pub proof fn later_deletion_is_told(
    entries: Seq<(Seq<char>, Pointer)>,
    marks: Kept,
    filter: Seq<char>,
    since: i64,
    reads: FileReads,
    i: int,
    time: i64,
)
    requires
        0 <= i < entries.len(),
        entries[i].1@ == (Place::Deleted { time }),
        time > since,
        unmarked(marks, filter, entries[i].0),
    ensures
        missed(entries, marks, filter, since, reads).contains(Change::Delete { key: entries[i].0, time }),
{
    unmarked_goes(marks, filter, entries[i].0);
    told_somewhere(entries, marks, filter, since, reads, i);
}

/// A peer that comes back is told of every document that lies in memory and is later than
/// what it has: of its bytes as they are.
pub proof fn later_document_is_told(
    entries: Seq<(Seq<char>, Pointer)>,
    marks: Kept,
    filter: Seq<char>,
    since: i64,
    reads: FileReads,
    i: int,
    d: Doc,
)
    requires
        0 <= i < entries.len(),
        entries[i].1@ == Place::Inlined(doc_bytes(d)) || entries[i].1@ == Place::BlobPending(d),
        d.time > since,
        unmarked(marks, filter, entries[i].0),
    ensures
        missed(entries, marks, filter, since, reads).contains(
            Change::Put { key: entries[i].0, value: doc_bytes(d) },
        ),
{
    unmarked_goes(marks, filter, entries[i].0);
    stamp_of_document(d);
    told_somewhere(entries, marks, filter, since, reads, i);
}

/// A peer that has nothing yet, from before all times, is told of every document whose bytes
/// can be had, wherever they lie: of one whose time memory does not tell too.
pub proof fn readable_document_is_told(
    entries: Seq<(Seq<char>, Pointer)>,
    marks: Kept,
    filter: Seq<char>,
    since: i64,
    reads: FileReads,
    i: int,
)
    requires
        0 <= i < entries.len(),
        since < 0,
        unmarked(marks, filter, entries[i].0),
    ensures
        entries[i].1@ is Segment || entries[i].1@ is Blob ==> (reads.documents@.contains_key(entries[i].0)
            ==> missed(entries, marks, filter, since, reads).contains(
            Change::Put { key: entries[i].0, value: reads.documents@[entries[i].0]@ },
        )),
        entries[i].1@ matches Place::BlobPendingData { skeleton, .. } ==> missed(
            entries,
            marks,
            filter,
            since,
            reads,
        ).contains(Change::Put { key: entries[i].0, value: skeleton }),
{
    unmarked_goes(marks, filter, entries[i].0);
    if missed_one(entries[i].0, entries[i].1@, marks, filter, since, reads) is Some {
        told_somewhere(entries, marks, filter, since, reads, i);
    }
}

/// What a key has to tell stands among what is told.
proof fn told_somewhere(
    entries: Seq<(Seq<char>, Pointer)>,
    marks: Kept,
    filter: Seq<char>,
    since: i64,
    reads: FileReads,
    i: int,
)
    requires
        0 <= i < entries.len(),
        missed_one(entries[i].0, entries[i].1@, marks, filter, since, reads) is Some,
    ensures
        missed(entries, marks, filter, since, reads).contains(
            missed_one(entries[i].0, entries[i].1@, marks, filter, since, reads)->Some_0,
        ),
    decreases entries.len(),
{
    let pre = entries.drop_last();
    let a = missed(pre, marks, filter, since, reads);
    let b = missed(entries, marks, filter, since, reads);
    let op = missed_one(entries[i].0, entries[i].1@, marks, filter, since, reads)->Some_0;
    if i == entries.len() - 1 {
        assert(b[a.len() as int] == op);
    } else {
        assert(pre[i] == entries[i]);
        told_somewhere(pre, marks, filter, since, reads, i);
        let k = choose|k: int| 0 <= k < a.len() && a[k] == op;
        assert(b[k] == op);
    }
}

/// A peer is told of nothing that it has already: a deletion that is told is later than what
/// it has, and so is a document. Both are what the store has of the key.
pub proof fn only_later_is_told(
    entries: Seq<(Seq<char>, Pointer)>,
    marks: Kept,
    filter: Seq<char>,
    since: i64,
    reads: FileReads,
    k: int,
)
    requires
        0 <= k < missed(entries, marks, filter, since, reads).len(),
    ensures
        match missed(entries, marks, filter, since, reads)[k] {
            Change::Delete { key, time } => {
                &&& time > since
                &&& exists|i: int|
                    0 <= i < entries.len() && (#[trigger] entries[i]).0 == key && entries[i].1@ == (Place::Deleted {
                        time,
                    })
            },
            Change::Put { key, value } => {
                &&& exists|i: int|
                    0 <= i < entries.len() && (#[trigger] entries[i]).0 == key && (match entries[i].1@ {
                        Place::Inlined(b) => b == value,
                        Place::BlobPending(d) => doc_bytes(d) == value,
                        Place::BlobPendingData { skeleton, .. } => skeleton == value,
                        Place::Deleted { .. } => false,
                        _ => reads.documents@.contains_key(key) && reads.documents@[key]@ == value,
                    })
                &&& forall|d: Doc|
                    value == #[trigger] doc_bytes(d) && since >= 0 ==> d.time > since
            },
            _ => false,
        },
{
    let m = missed(entries, marks, filter, since, reads);
    missed_is_for_others(entries, marks, filter, since, reads, k);
    let i = choose|i: int| #![trigger entries[i]]
        0 <= i < entries.len() && place_time(entries[i].1@) > since && !stays(marks, filter, entries[i].0)
            && missed_one(entries[i].0, entries[i].1@, marks, filter, since, reads) == Some(m[k]);
    assert(entries[i].0 == change_key(m[k]));
    if let Change::Put { key, value } = m[k] {
        assert forall|d: Doc| value == #[trigger] doc_bytes(d) && since >= 0 implies d.time > since by {
            stamp_of_document(d);
            if let Place::BlobPending(e) = entries[i].1@ {
                stamp_of_document(e);
            }
        }
    }
}

/// Looks for what a collection has to tell since a time.
pub fn collect_catchup_ops(
    db: &mut Hako,
    storage_col: &str,
    filter_col: &str,
    since_ts: i64,
    reads: &FileReads,
) -> (r: Vec<WalOp>)
    requires
        old(db).wf(),
        reads.wf(),
    ensures
        final(db).wf(),
        shard_opened(*old(db), *final(db), storage_col@),
        ops_view(r@) == missed(
            final(db).shards@[storage_col@].index.seq(),
            final(db).marks@,
            filter_col@,
            since_ts,
            *reads,
        ),
        forall|key: Seq<char>| #[trigger]
            final(db).shards@[storage_col@].places().contains_key(key) && unmarked(final(db).marks@, filter_col@, key)
                ==> match final(db).shards@[storage_col@].places()[key] {
                Place::Deleted { time } => time > since_ts ==> ops_view(r@).contains(Change::Delete { key, time }),
                Place::Inlined(b) => (exists|d: Doc| b == #[trigger] doc_bytes(d) && d.time > since_ts) ==> ops_view(
                    r@,
                ).contains(Change::Put { key, value: b }),
                _ => true,
            },
{
    let at = db.get_shard(storage_col);
    proof {
        db.shards.place_facts();
        assert(db.shards@.contains_key(storage_col@));
        assert(db.shards@[storage_col@] == db.shards.rows()[at as int].1);
    }
    let shard = db.shards.thing(at);
    let ghost s = shard.index.seq();
    let ghost marks = db.marks@;
    let mut r: Vec<WalOp> = Vec::new();
    let mut i: usize = 0;
    proof {
        assert(s.take(0) =~= Seq::<(Seq<char>, Pointer)>::empty());
        assert(ops_view(r@) =~= Seq::<Change>::empty());
    }
    while i < shard.index.len()
        invariant
            db.marks.wf(),
            marks == db.marks@,
            reads.wf(),
            s == shard.index.seq(),
            i <= s.len(),
            ops_view(r@) == missed(s.take(i as int), marks, filter_col@, since_ts, *reads),
        decreases s.len() - i,
    {
        proof {
            assert(s.take(i + 1).drop_last() =~= s.take(i as int));
            assert(s.take(i + 1).last() == s[i as int]);
        }
        let ghost before = r@;
        let (k, p) = shard.index.entry(i);
        if p.time() > since_ts && !db.marks.is_local_only(filter_col, k.as_str()) {
            match p {
                Pointer::Deleted { timestamp } => {
                    let op = WalOp::Delete { key: k.clone(), timestamp: *timestamp };
                    let ghost o = op@;
                    r.push(op);
                    proof {
                        assert(ops_view(r@) =~= ops_view(before).push(o));
                    }
                },
                _ => {
                    if let Some(b) = p.bytes(reads.documents.get(k)) {
                        let op = WalOp::PutInlined { key: k.clone(), value: b };
                        let ghost o = op@;
                        r.push(op);
                        proof {
                            assert(ops_view(r@) =~= ops_view(before).push(o));
                        }
                    }
                },
            }
        }
        i = i + 1;
    }
    proof {
        assert(s.take(i as int) =~= s);
        let places = shard.places();
        assert forall|key: Seq<char>| #[trigger] places.contains_key(key) && unmarked(
            marks,
            filter_col@,
            key,
        ) implies match places[key] {
            Place::Deleted { time } => time > since_ts ==> ops_view(r@).contains(Change::Delete { key, time }),
            Place::Inlined(b) => (exists|d: Doc| b == #[trigger] doc_bytes(d) && d.time > since_ts) ==> ops_view(
                r@,
            ).contains(Change::Put { key, value: b }),
            _ => true,
        } by {
            let n = entry_of_key(s, key);
            match places[key] {
                Place::Deleted { time } => {
                    if time > since_ts {
                        later_deletion_is_told(s, marks, filter_col@, since_ts, *reads, n, time);
                    }
                },
                Place::Inlined(b) => {
                    if exists|d: Doc| b == #[trigger] doc_bytes(d) && d.time > since_ts {
                        let d = choose|d: Doc| b == #[trigger] doc_bytes(d) && d.time > since_ts;
                        later_document_is_told(s, marks, filter_col@, since_ts, *reads, n, d);
                    }
                },
                _ => {},
            }
        }
    }
    r
}

/// The number of the entry of a key.
proof fn entry_of_key(s: Seq<(Seq<char>, Pointer)>, key: Seq<char>) -> (i: int)
    requires
        ascending::<String, Pointer>(s),
        entries_map(s).contains_key(key),
    ensures
        0 <= i < s.len(),
        s[i].0 == key,
        s[i].1 == entries_map(s)[key],
{
    let i = choose|i: int| 0 <= i < s.len() && #[trigger] s[i].0 == key;
    ascending_entry::<String, Pointer>(s, i);
    i
}

/// A document that is put is told to a peer that comes back later with what was before: the
/// document with the time of the write, links in place of its large values.
pub proof fn written_document_is_told(
    a: Hako,
    b: Hako,
    files: Map<Seq<char>, FileReads>,
    nanos: i64,
    c: Seq<char>,
    id: Seq<char>,
    d: Doc,
    since: i64,
    reads: FileReads,
)
    requires
        b.wf(),
        id.len() > 0,
        batch_done(a, b, staged(env_of(a, files, nanos), seq![Wish::Put { collection: c, id, doc: d }])),
        (nanos as int / 1000) as i64 > since,
        unmarked(b.marks@, c, id),
    ensures
        missed(b.shards@[c].index.seq(), b.marks@, c, since, reads).contains(
            Change::Put {
                key: id,
                value: doc_bytes(
                    skeleton_doc(
                        Doc { fields: d.fields, time: (nanos as int / 1000) as i64 },
                        a.config.value_blob_threshold_bytes as nat,
                        shard_end(a.shards@, c),
                    ),
                ),
            },
        ),
{
    put_lies(a, b, files, nanos, c, id, d);
    let s = b.shards@[c].index.seq();
    let n = entry_of_key(s, id);
    let stamped = Doc { fields: d.fields, time: (nanos as int / 1000) as i64 };
    let lean = skeleton_doc(stamped, a.config.value_blob_threshold_bytes as nat, shard_end(a.shards@, c));
    later_document_is_told(s, b.marks@, c, since, reads, n, lean);
}

/// A message with changes of a collection, if there are any.
pub open spec fn carries(p: Option<CloudPacket>, msg_id: u128, collection: Seq<char>, ops: Seq<Change>) -> bool {
    match p {
        None => ops.len() == 0,
        Some(m) => {
            &&& m matches CloudPacket::Replication { msg_id: n, collection: c, ops: o }
            &&& n == msg_id
            &&& c@ == collection
            &&& ops_view(o@) == ops
            &&& ops.len() > 0
        },
    }
}

/// A message with changes of a collection, if there are any.
pub fn replication(msg_id: u128, collection: &str, ops: Vec<WalOp>) -> (p: Option<CloudPacket>)
    ensures
        carries(p, msg_id, collection@, ops_view(ops@)),
{
    if ops.len() == 0 {
        None
    } else {
        Some(CloudPacket::Replication { msg_id, collection: collection.to_owned(), ops })
    }
}

/// What the server tells a peer of a collection of its room since a time. A collection that
/// the server encrypts is told only to a peer with the same key.
pub open spec fn caught_up(
    a: Hako,
    b: Hako,
    storage: Seq<char>,
    plain: Seq<char>,
    since: i64,
    peer: Option<PeerCaps>,
    reads: FileReads,
    r: Option<CloudPacket>,
) -> bool {
    if !flows(encrypted(a.config, storage), fingerprint(store_key(a.config)), told_fp(peer)) {
        b == a && r is None
    } else {
        &&& shard_opened(a, b, storage)
        &&& carries(r, 0, plain, missed(b.shards@[storage].index.seq(), b.marks@, plain, since, reads))
    }
}

/// What the server tells a peer of a collection of its room since a time.
pub fn catchup_deltas(
    db: &mut Hako,
    storage_col: &str,
    plain_col: &str,
    since_ts: i64,
    peer_key: &String,
    caps: &CapsMap,
    reads: &FileReads,
) -> (r: Option<CloudPacket>)
    requires
        old(db).wf(),
        caps.wf(),
        reads.wf(),
    ensures
        final(db).wf(),
        caught_up(
            *old(db),
            *final(db),
            storage_col@,
            plain_col@,
            since_ts,
            known_caps(caps@, peer_key@),
            *reads,
            r,
        ),
{
    let fp = config_fingerprint(&db.config);
    if !caps_allow(is_collection_encrypted(&db.config, storage_col), &fp, caps.get(peer_key)) {
        return None;
    }
    let ops = collect_catchup_ops(db, storage_col, plain_col, since_ts, reads);
    replication(0, plain_col, ops)
}

/// What a client tells the server of a collection since a time.
pub fn client_deltas(db: &mut Hako, collection: &str, server_ts: i64, msg_id: u128, reads: &FileReads) -> (r: Option<
    CloudPacket,
>)
    requires
        old(db).wf(),
        reads.wf(),
    ensures
        final(db).wf(),
        shard_opened(*old(db), *final(db), collection@),
        carries(
            r,
            msg_id,
            collection@,
            missed(
                final(db).shards@[collection@].index.seq(),
                final(db).marks@,
                collection@,
                server_ts,
                *reads,
            ),
        ),
{
    let ops = collect_catchup_ops(db, collection, collection, server_ts, reads);
    replication(msg_id, collection, ops)
}

/// How far the collections of a room have come, by the names that its clients know. Those
/// of no room have no prefix before the underscore.
pub open spec fn room_versions_are(
    db: Hako,
    prefix: Seq<char>,
    names: Seq<Seq<char>>,
    m: Map<Seq<char>, i64>,
) -> bool {
    &&& forall|plain: Seq<char>| #[trigger]
        m.contains_key(plain) <==> plain.len() > 0 && visible_of(names).contains(prefix + "_"@ + plain)
    &&& forall|plain: Seq<char>| #[trigger]
        m.contains_key(plain) ==> is_version(shard_places(db.shards@, prefix + "_"@ + plain), m[plain])
}

/// How far the collections of a room have come, where `dirs` are the directories of the
/// store.
pub fn server_room_version_map(db: &mut Hako, prefix: &str, dirs: &Vec<String>) -> (r: VersionMap)
    requires
        old(db).wf(),
    ensures
        final(db).wf(),
        places_same(*old(db), *final(db)),
        r.wf(),
        room_versions_are(*old(db), prefix@, names_view(dirs@), r@),
{
    let cols = discovered(dirs);
    let ghost names = names_view(cols@);
    let ghost start = *db;
    let mut marker = prefix.to_owned();
    marker.append("_");
    let ghost mark = marker@;
    let skip: usize = chars_of(marker.as_str()).len();
    let mut r: VersionMap = VersionMap::new();
    let mut i: usize = 0;
    while i < cols.len()
        invariant
            db.wf(),
            r.wf(),
            places_same(start, *db),
            names == names_view(cols@),
            mark == marker@,
            mark == prefix@ + "_"@,
            skip == mark.len(),
            i <= cols@.len(),
            forall|plain: Seq<char>| #[trigger]
                r@.contains_key(plain) <==> plain.len() > 0 && names.take(i as int).contains(mark + plain),
            forall|plain: Seq<char>| #[trigger]
                r@.contains_key(plain) ==> is_version(shard_places(start.shards@, mark + plain), r@[plain]),
        decreases cols@.len() - i,
    {
        let col = cols[i].clone();
        let v = chars_of(col.as_str());
        let total: usize = v.len();
        let ghost before = r@;
        let ghost name = col@;
        proof {
            assert(names[i as int] == name);
            assert(names.take(i + 1) =~= names.take(i as int).push(name));
            assert forall|x: Seq<char>| names.take(i + 1).contains(x) <==> names.take(i as int).contains(x) || x == name by {
                let a = names.take(i as int);
                let b = names.take(i + 1);
                if a.contains(x) {
                    let k = choose|k: int| 0 <= k < a.len() && a[k] == x;
                    assert(b[k] == x);
                }
                if b.contains(x) && x != name {
                    let k = choose|k: int| 0 <= k < b.len() && b[k] == x;
                    assert(a[k] == x);
                }
                assert(b[i as int] == name);
            }
        }
        if text_begins(col.as_str(), marker.as_str()) && total > skip {
            let plain = text_of(&v, skip, total);
            let ghost rest = plain@;
            proof {
                assert(name =~= mark + rest);
            }
            let ghost here = *db;
            let t = db.get_collection_version(col.as_str());
            let had = r.insert(plain, t);
            proof {
                assert(shard_places(here.shards@, name) == shard_places(start.shards@, name));
                assert forall|x: Seq<char>| #[trigger] shard_places(db.shards@, x) == shard_places(start.shards@, x) by {
                    assert(shard_places(here.shards@, x) == shard_places(start.shards@, x));
                    opened_places(here.shards@, db.shards@, name, x);
                }
                assert forall|p: Seq<char>| mark + p == name implies p == rest by {
                    assert((mark + p).skip(mark.len() as int) =~= p);
                    assert((mark + rest).skip(mark.len() as int) =~= rest);
                }
            }
        } else {
            proof {
                assert forall|p: Seq<char>| p.len() > 0 implies mark + p != name by {
                    assert((mark + p).take(mark.len() as int) =~= mark);
                }
            }
        }
        i = i + 1;
    }
    proof {
        assert(names.take(i as int) =~= names);
    }
    r
}

/// Of a collection that the server encrypts nothing is told to a peer that has not told of the
/// same key.
pub proof fn strangers_are_told_nothing(
    a: Hako,
    b: Hako,
    storage: Seq<char>,
    plain: Seq<char>,
    since: i64,
    peer: Option<PeerCaps>,
    reads: FileReads,
    r: Option<CloudPacket>,
)
    requires
        caught_up(a, b, storage, plain, since, peer, reads, r),
        encrypted(a.config, storage),
        told_fp(peer) != Some(fingerprint(store_key(a.config))),
    ensures
        r is None,
        b == a,
{
}

} // verus!
