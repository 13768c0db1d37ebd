//! What a node tells another of its collections.
use vstd::prelude::*;

use crate::cloud_sync::ingest::EchoCache;
use crate::document::firelite_doc::{decode_doc, doc_bytes, names_view, FireLiteDoc};
use crate::engine::access::{encrypted, is_collection_encrypted};
use crate::engine::engine::{shard_queue, Hako};
use crate::engine::files::{read_doc, FileReads};
use crate::engine::marks::{stays, Kept};
use crate::engine::store::shard_opened;
use crate::engine::write::shard_end;
use crate::net_sync::packet::NetPacket;
use crate::sorted_map::SortedMap;
use crate::storage::blob::{
    attempted_doc, doc_has_links, has_links, resolve_doc, resolved_doc, works_view, Work,
};
use crate::storage::pointer::{place_bytes, place_time_pending, Place, Pointer};
use crate::storage::shard::Shard;
use crate::storage::wal::{change_key, change_time, ops_view, Change, WalOp};
use crate::sync_guard::{caps_allow, config_fingerprint, flows, known_caps, no_fingerprint, same_fingerprint, told_fp, CapsMap, PeerCaps};
use crate::cloud_sync::ingest::own_fp;
use crate::document::firelite_doc::names_contain;
use crate::document::value::copy_bytes;
use crate::text::same_text;

verus! {

/// How many changes go into one message.
pub const DELTA_CHUNK: usize = 50;

/// The bytes of a document as they are sent: with the values that it links to. Nothing where
/// one of them cannot be read.
pub open spec fn full_bytes(b: Seq<u8>, has_file: bool, queue: Seq<Work>, blobs: Map<u64, Vec<u8>>) -> Option<Seq<u8>> {
    match decode_doc(b) {
        Some(d) => if has_links(d) {
            match resolved_doc(d, has_file, queue, blobs) {
                Some(f) => Some(doc_bytes(f)),
                None => None,
            }
        } else {
            Some(b)
        },
        None => Some(b),
    }
}

/// The bytes of a document as they are sent.
fn make_full(b: Vec<u8>, shard: &Shard, reads: &FileReads) -> (r: Option<Vec<u8>>)
    requires
        reads.wf(),
    ensures
        match (r, full_bytes(b@, shard.blob_end is Some, works_view(shard.blob_flush_queue@), reads.blobs@)) {
            (Some(x), Some(y)) => x@ == y,
            (None, None) => true,
            _ => false,
        },
{
    if let Some(mut doc) = FireLiteDoc::decode(b.as_slice()) {
        if doc_has_links(&doc) {
            return match resolve_doc(&mut doc, shard.blob_end.is_some(), &shard.blob_flush_queue, &reads.blobs) {
                Ok(_) => Some(doc.encode()),
                Err(_) => None,
            };
        }
    }
    Some(b)
}

/// The bytes of the document that an operation puts, as they are sent.
pub open spec fn op_bytes(
    op: Change,
    reads: FileReads,
    has_file: bool,
    queue: Seq<Work>,
) -> Option<Seq<u8>> {
    let raw = match op {
        Change::Put { value, .. } => Some(value),
        Change::Segment { key, .. } => read_doc(reads, key),
        Change::Blob { key, .. } => read_doc(reads, key),
        Change::Delete { .. } => None,
    };
    match raw {
        Some(b) => full_bytes(b, has_file, queue, reads.blobs@),
        None => None,
    }
}

/// The bytes of the document that an operation puts, as they are sent.
pub fn resolve_op_to_bytes(op: &WalOp, shard: &Shard, reads: &FileReads) -> (r: Option<Vec<u8>>)
    requires
        reads.wf(),
    ensures
        match (r, op_bytes(op@, *reads, shard.blob_end is Some, works_view(shard.blob_flush_queue@))) {
            (Some(x), Some(y)) => x@ == y,
            (None, None) => true,
            _ => false,
        },
{
    let raw: Option<Vec<u8>> = match op {
        WalOp::PutInlined { value, .. } => Some(copy_bytes(value.as_slice())),
        WalOp::Put { key, .. } => match reads.documents.get(key) {
            Some(b) => Some(copy_bytes(b.as_slice())),
            None => None,
        },
        WalOp::PutBlob { key, .. } => match reads.documents.get(key) {
            Some(b) => Some(copy_bytes(b.as_slice())),
            None => None,
        },
        WalOp::Delete { .. } => None,
    };
    match raw {
        Some(b) => make_full(b, shard, reads),
        None => None,
    }
}

/// What a key has to tell since a time: a newer document with all its values, or its end.
/// What stays on this device is not told.
pub open spec fn delta_one(
    key: Seq<char>,
    p: Place,
    marks: Kept,
    c: Seq<char>,
    since: i64,
    reads: FileReads,
    has_file: bool,
    queue: Seq<Work>,
) -> Option<Change> {
    if stays(marks, c, key) || place_time_pending(p) <= since {
        None
    } else {
        match p {
            Place::Deleted { time } => Some(Change::Delete { key, time }),
            _ => match place_bytes(p, read_doc(reads, key)) {
                Some(b) => if decode_doc(b) is None {
                    None
                } else {
                    match full_bytes(b, has_file, queue, reads.blobs@) {
                        Some(f) => Some(Change::Put { key, value: f }),
                        None => None,
                    }
                },
                None => None,
            },
        }
    }
}

/// What the entries of a collection have to tell since a time, in the order of the keys.
pub open spec fn deltas(
    entries: Seq<(Seq<char>, Pointer)>,
    marks: Kept,
    c: Seq<char>,
    since: i64,
    reads: FileReads,
    has_file: bool,
    queue: Seq<Work>,
) -> Seq<Change>
    decreases entries.len(),
{
    if entries.len() == 0 {
        Seq::empty()
    } else {
        let before = deltas(entries.drop_last(), marks, c, since, reads, has_file, queue);
        match delta_one(entries.last().0, entries.last().1@, marks, c, since, reads, has_file, queue) {
            Some(op) => before.push(op),
            None => before,
        }
    }
}

/// Nothing that is marked to stay on this device is told.
pub proof fn marked_is_not_told(
    entries: Seq<(Seq<char>, Pointer)>,
    marks: Kept,
    c: Seq<char>,
    since: i64,
    reads: FileReads,
    has_file: bool,
    queue: Seq<Work>,
    op: Change,
)
    requires
        deltas(entries, marks, c, since, reads, has_file, queue).contains(op),
    ensures
        !stays(marks, c, change_key(op)),
    decreases entries.len(),
{
    if entries.len() > 0 {
        let a = deltas(entries.drop_last(), marks, c, since, reads, has_file, queue);
        let b = deltas(entries, marks, c, since, reads, has_file, queue);
        let k = choose|k: int| 0 <= k < b.len() && b[k] == op;
        if k < a.len() {
            assert(a[k] == op);
            marked_is_not_told(entries.drop_last(), marks, c, since, reads, has_file, queue, op);
        }
    }
}

/// What a collection has to tell since a time: nothing where it stays on this device.
pub open spec fn delta_collected(a: Hako, b: Hako, c: Seq<char>, since: i64, reads: FileReads, ops: Seq<Change>) -> bool {
    if a.marks@.collections.contains(c) {
        b == a && ops.len() == 0
    } else {
        &&& shard_opened(a, b, c)
        &&& ops == deltas(
            b.shards@[c].index.seq(),
            a.marks@,
            c,
            since,
            reads,
            shard_end(b.shards@, c) is Some,
            shard_queue(b.shards@, c),
        )
    }
}

/// Looks for what a collection has to tell since a time.
pub fn collect_delta_ops(db: &mut Hako, collection: &str, since_time: i64, reads: &FileReads) -> (r: Vec<WalOp>)
    requires
        old(db).wf(),
        reads.wf(),
    ensures
        final(db).wf(),
        delta_collected(*old(db), *final(db), collection@, since_time, *reads, ops_view(r@)),
{
    let mut r: Vec<WalOp> = Vec::new();
    if db.marks.is_collection_local(collection) {
        return r;
    }
    let at = db.get_shard(collection);
    proof {
        db.shards.place_facts();
        assert(db.shards@.contains_key(collection@));
        assert(db.shards@[collection@] == db.shards.rows()[at as int].1);
    }
    let shard = db.shards.thing(at);
    let ghost s = shard.index.seq();
    let ghost marks = db.marks@;
    let ghost file = shard.blob_end is Some;
    let ghost queue = works_view(shard.blob_flush_queue@);
    let mut i: usize = 0;
    proof {
        assert(s.take(0) =~= Seq::<(Seq<char>, Pointer)>::empty());
        assert(ops_view(r@) =~= Seq::<Change>::empty());
    }
    while i < shard.index.len()
        invariant
            db.marks.wf(),
            marks == db.marks@,
            reads.wf(),
            s == shard.index.seq(),
            file == shard.blob_end is Some,
            queue == works_view(shard.blob_flush_queue@),
            i <= s.len(),
            ops_view(r@) == deltas(s.take(i as int), marks, collection@, since_time, *reads, file, queue),
        decreases s.len() - i,
    {
        proof {
            assert(s.take(i + 1).drop_last() =~= s.take(i as int));
            assert(s.take(i + 1).last() == s[i as int]);
        }
        let ghost before = r@;
        let (k, p) = shard.index.entry(i);
        if !db.marks.is_local_only(collection, k.as_str()) && p.time_pending() > since_time {
            match p {
                Pointer::Deleted { timestamp } => {
                    let op = WalOp::Delete { key: k.clone(), timestamp: *timestamp };
                    let ghost o = op@;
                    r.push(op);
                    proof {
                        assert(ops_view(r@) =~= ops_view(before).push(o));
                    }
                },
                _ => {
                    if let Some(b) = p.bytes(reads.documents.get(k)) {
                        if FireLiteDoc::decode(b.as_slice()).is_some() {
                            if let Some(f) = make_full(b, shard, reads) {
                                let op = WalOp::PutInlined { key: k.clone(), value: f };
                                let ghost o = op@;
                                r.push(op);
                                proof {
                                    assert(ops_view(r@) =~= ops_view(before).push(o));
                                }
                            }
                        }
                    }
                },
            }
        }
        i = i + 1;
    }
    proof {
        assert(s.take(i as int) =~= s);
    }
    r
}

/// Whether a collection may leave for a peer.
pub fn peer_may_send(db: &Hako, caps: &CapsMap, peer_id: &String, col: &str, local_fp: &[u8; 32]) -> (r: bool)
    requires
        caps.wf(),
    ensures
        r == flows(encrypted(db.config, col@), local_fp@, told_fp(known_caps(caps@, peer_id@))),
{
    caps_allow(is_collection_encrypted(&db.config, col), local_fp, caps.get(peer_id))
}

/// A message with changes of a collection that is not passed on.
pub open spec fn brings(p: NetPacket, msg_id: u128, c: Seq<char>, ops: Seq<Change>) -> bool {
    &&& p matches NetPacket::Replication { msg_id: n, collection, ops: o }
    &&& n == msg_id
    &&& collection@ == c
    &&& ops_view(o@) == ops
}

/// Messages that bring changes in pieces of a fixed size.
pub open spec fn in_chunks(r: Seq<NetPacket>, c: Seq<char>, ops: Seq<Change>) -> bool {
    &&& r.len() == (ops.len() + DELTA_CHUNK - 1) / DELTA_CHUNK as int
    &&& forall|i: int|
        0 <= i < r.len() ==> brings(
            #[trigger] r[i],
            0,
            c,
            ops.subrange(DELTA_CHUNK * i, if DELTA_CHUNK * (i + 1) <= ops.len() {
                DELTA_CHUNK * (i + 1)
            } else {
                ops.len() as int
            }),
        )
}

/// Splits changes into messages.
pub fn chunked(collection: &str, ops: &Vec<WalOp>) -> (r: Vec<NetPacket>)
    ensures
        in_chunks(r@, collection@, ops_view(ops@)),
{
    let ghost s = ops_view(ops@);
    let total: usize = ops.len();
    let mut r: Vec<NetPacket> = Vec::new();
    let mut i: usize = 0;
    while i < total
        invariant
            total == ops@.len(),
            s == ops_view(ops@),
            i <= total,
            i == DELTA_CHUNK * r@.len() || i == total,
            i < total ==> i == DELTA_CHUNK * r@.len(),
            i == total ==> r@.len() == (total + DELTA_CHUNK - 1) / DELTA_CHUNK as int,
            forall|k: int|
                0 <= k < r@.len() ==> brings(
                    #[trigger] r@[k],
                    0,
                    collection@,
                    s.subrange(DELTA_CHUNK * k, if DELTA_CHUNK * (k + 1) <= s.len() {
                        DELTA_CHUNK * (k + 1)
                    } else {
                        s.len() as int
                    }),
                ),
        decreases total - i,
    {
        let end: usize = if total - i > DELTA_CHUNK {
            i + DELTA_CHUNK
        } else {
            total
        };
        let mut part: Vec<WalOp> = Vec::new();
        let mut j: usize = i;
        while j < end
            invariant
                i <= j <= end <= total,
                total == ops@.len(),
                part@.len() == j - i,
                forall|k: int| 0 <= k < part@.len() ==> (#[trigger] part@[k])@ == ops@[i + k]@,
            decreases end - j,
        {
            part.push(ops[j].clone());
            j = j + 1;
        }
        let ghost before = r@;
        proof {
            assert(ops_view(part@) =~= s.subrange(i as int, end as int));
        }
        r.push(NetPacket::Replication { msg_id: 0, collection: collection.to_owned(), ops: part });
        proof {
            assert forall|k: int| 0 <= k < r@.len() implies brings(
                #[trigger] r@[k],
                0,
                collection@,
                s.subrange(DELTA_CHUNK * k, if DELTA_CHUNK * (k + 1) <= s.len() {
                    DELTA_CHUNK * (k + 1)
                } else {
                    s.len() as int
                }),
            ) by {
                if k < before.len() {
                    assert(r@[k] == before[k]);
                }
            }
        }
        i = end;
    }
    r
}

/// What a node tells a peer of a collection since a time: nothing where it may not leave for
/// the peer.
pub open spec fn delta_sent(
    a: Hako,
    b: Hako,
    c: Seq<char>,
    since: i64,
    peer: Option<PeerCaps>,
    reads: FileReads,
    r: Seq<NetPacket>,
) -> bool {
    if !flows(encrypted(a.config, c), own_fp(a), told_fp(peer)) {
        b == a && r.len() == 0
    } else {
        exists|ops: Seq<Change>| #[trigger] delta_collected(a, b, c, since, reads, ops) && in_chunks(r, c, ops)
    }
}

/// Tells a peer what it has missed of a collection.
pub fn delta_send(
    db: &mut Hako,
    caps: &CapsMap,
    peer_id: &String,
    collection: &str,
    since_time: i64,
    reads: &FileReads,
) -> (r: Vec<NetPacket>)
    requires
        old(db).wf(),
        caps.wf(),
        reads.wf(),
    ensures
        final(db).wf(),
        delta_sent(
            *old(db),
            *final(db),
            collection@,
            since_time,
            known_caps(caps@, peer_id@),
            *reads,
            r@,
        ),
{
    let fp = config_fingerprint(&db.config);
    if !peer_may_send(db, caps, peer_id, collection, &fp) {
        return Vec::new();
    }
    let ops = collect_delta_ops(db, collection, since_time, reads);
    let r = chunked(collection, &ops);
    proof {
        assert(delta_collected(*old(db), *db, collection@, since_time, *reads, ops_view(ops@)));
    }
    r
}

/// The bytes of a document that a new peer gets: with the values that it links to, as far as
/// they can be read.
pub open spec fn best_bytes(b: Seq<u8>, has_file: bool, queue: Seq<Work>, blobs: Map<u64, Vec<u8>>) -> Seq<u8> {
    match decode_doc(b) {
        Some(d) => if has_links(d) {
            doc_bytes(attempted_doc(d, has_file, queue, blobs))
        } else {
            b
        },
        None => b,
    }
}

/// What a new peer gets of a collection: its documents, but for those that stay on this
/// device.
pub open spec fn everything(
    entries: Seq<(Seq<char>, Pointer)>,
    marks: Kept,
    c: Seq<char>,
    reads: FileReads,
    has_file: bool,
    queue: Seq<Work>,
) -> Seq<Change>
    decreases entries.len(),
{
    if entries.len() == 0 {
        Seq::empty()
    } else {
        let before = everything(entries.drop_last(), marks, c, reads, has_file, queue);
        let e = entries.last();
        match place_bytes(e.1@, read_doc(reads, e.0)) {
            Some(b) => if stays(marks, c, e.0) {
                before
            } else {
                before.push(Change::Put { key: e.0, value: best_bytes(b, has_file, queue, reads.blobs@) })
            },
            None => before,
        }
    }
}

/// Messages that bring one change each.
pub open spec fn one_by_one(r: Seq<NetPacket>, c: Seq<char>, ops: Seq<Change>) -> bool {
    &&& r.len() == ops.len()
    &&& forall|i: int| 0 <= i < r.len() ==> brings(#[trigger] r[i], 0, c, seq![ops[i]])
}

/// What a new peer gets of a collection: nothing where it may not leave for the peer.
pub open spec fn bootstrapped(
    a: Hako,
    b: Hako,
    c: Seq<char>,
    peer: Option<PeerCaps>,
    reads: FileReads,
    r: Seq<NetPacket>,
) -> bool {
    if !flows(encrypted(a.config, c), own_fp(a), told_fp(peer)) {
        b == a && r.len() == 0
    } else {
        &&& shard_opened(a, b, c)
        &&& one_by_one(
            r,
            c,
            everything(
                b.shards@[c].index.seq(),
                a.marks@,
                c,
                reads,
                shard_end(b.shards@, c) is Some,
                shard_queue(b.shards@, c),
            ),
        )
    }
}

/// Tells a new peer all of a collection.
pub fn bootstrap(db: &mut Hako, caps: &CapsMap, peer_id: &String, col: &str, reads: &FileReads) -> (r: Vec<NetPacket>)
    requires
        old(db).wf(),
        caps.wf(),
        reads.wf(),
    ensures
        final(db).wf(),
        bootstrapped(*old(db), *final(db), col@, known_caps(caps@, peer_id@), *reads, r@),
{
    let fp = config_fingerprint(&db.config);
    let mut r: Vec<NetPacket> = Vec::new();
    if !peer_may_send(db, caps, peer_id, col, &fp) {
        return r;
    }
    let at = db.get_shard(col);
    proof {
        db.shards.place_facts();
        assert(db.shards@.contains_key(col@));
        assert(db.shards@[col@] == db.shards.rows()[at as int].1);
    }
    let shard = db.shards.thing(at);
    let ghost s = shard.index.seq();
    let ghost marks = db.marks@;
    let ghost file = shard.blob_end is Some;
    let ghost queue = works_view(shard.blob_flush_queue@);
    let mut i: usize = 0;
    proof {
        assert(s.take(0) =~= Seq::<(Seq<char>, Pointer)>::empty());
    }
    while i < shard.index.len()
        invariant
            db.marks.wf(),
            marks == db.marks@,
            reads.wf(),
            s == shard.index.seq(),
            file == shard.blob_end is Some,
            queue == works_view(shard.blob_flush_queue@),
            i <= s.len(),
            one_by_one(r@, col@, everything(s.take(i as int), marks, col@, *reads, file, queue)),
        decreases s.len() - i,
    {
        proof {
            assert(s.take(i + 1).drop_last() =~= s.take(i as int));
            assert(s.take(i + 1).last() == s[i as int]);
        }
        let ghost before = r@;
        let ghost sent = everything(s.take(i as int), marks, col@, *reads, file, queue);
        let (k, p) = shard.index.entry(i);
        if let Some(b) = p.bytes(reads.documents.get(k)) {
            if !db.marks.is_local_only(col, k.as_str()) {
                let ghost raw = b@;
                let mut value = b;
                if let Some(mut doc) = FireLiteDoc::decode(value.as_slice()) {
                    if doc_has_links(&doc) {
                        let tried = resolve_doc(
                            &mut doc,
                            shard.blob_end.is_some(),
                            &shard.blob_flush_queue,
                            &reads.blobs,
                        );
                        value = doc.encode();
                    }
                }
                proof {
                    assert(value@ == best_bytes(raw, file, queue, reads.blobs@));
                }
                let op = WalOp::PutInlined { key: k.clone(), value };
                let ghost o = op@;
                let mut ops: Vec<WalOp> = Vec::new();
                ops.push(op);
                proof {
                    assert(ops_view(ops@) =~= seq![o]);
                }
                r.push(NetPacket::Replication { msg_id: 0, collection: col.to_owned(), ops });
                proof {
                    let now = everything(s.take(i + 1), marks, col@, *reads, file, queue);
                    assert(now =~= sent.push(o));
                    assert forall|j: int| 0 <= j < r@.len() implies brings(#[trigger] r@[j], 0, col@, seq![now[j]]) by {
                        if j < before.len() {
                            assert(r@[j] == before[j]);
                        }
                    }
                }
            }
        }
        i = i + 1;
    }
    proof {
        assert(s.take(i as int) =~= s);
    }
    r
}

/// What is sent of the log of a collection, and what is still remembered of changes from
/// elsewhere.
#[verifier::ext_equal]
pub struct MeshTail {
    pub out: Seq<Change>,
    pub echo: Map<Seq<char>, i64>,
}

/// One more operation of the log: one that came from elsewhere is not sent back, and is
/// forgotten; one that stays on this device is not sent; a document is sent with its values,
/// where they can be read.
pub open spec fn mesh_step(
    t: MeshTail,
    op: Change,
    c: Seq<char>,
    marks: Kept,
    reads: FileReads,
    has_file: bool,
    queue: Seq<Work>,
) -> MeshTail {
    let key = change_key(op);
    if t.echo.contains_key(key) && t.echo[key] == change_time(op) {
        MeshTail { out: t.out, echo: t.echo.remove(key) }
    } else if stays(marks, c, key) {
        t
    } else {
        match op_bytes(op, reads, has_file, queue) {
            Some(b) => MeshTail { out: t.out.push(Change::Put { key, value: b }), echo: t.echo },
            None => if op is Delete {
                MeshTail { out: t.out.push(op), echo: t.echo }
            } else {
                t
            },
        }
    }
}

/// What is sent of the log of a collection.
pub open spec fn mesh_tailed(
    echo: Map<Seq<char>, i64>,
    ops: Seq<Change>,
    c: Seq<char>,
    marks: Kept,
    reads: FileReads,
    has_file: bool,
    queue: Seq<Work>,
) -> MeshTail
    decreases ops.len(),
{
    if ops.len() == 0 {
        MeshTail { out: Seq::empty(), echo }
    } else {
        mesh_step(mesh_tailed(echo, ops.drop_last(), c, marks, reads, has_file, queue), ops.last(), c, marks, reads, has_file, queue)
    }
}

/// Nothing that is marked to stay on this device is sent when the log grows.
pub proof fn marked_is_not_sent(
    echo: Map<Seq<char>, i64>,
    ops: Seq<Change>,
    c: Seq<char>,
    marks: Kept,
    reads: FileReads,
    has_file: bool,
    queue: Seq<Work>,
    op: Change,
)
    requires
        mesh_tailed(echo, ops, c, marks, reads, has_file, queue).out.contains(op),
    ensures
        !stays(marks, c, change_key(op)),
    decreases ops.len(),
{
    if ops.len() > 0 {
        let a = mesh_tailed(echo, ops.drop_last(), c, marks, reads, has_file, queue).out;
        let b = mesh_tailed(echo, ops, c, marks, reads, has_file, queue).out;
        let k = choose|k: int| 0 <= k < b.len() && b[k] == op;
        if k < a.len() {
            assert(a[k] == op);
            marked_is_not_sent(echo, ops.drop_last(), c, marks, reads, has_file, queue, op);
        }
    }
}

/// What is sent of the log of a collection that has grown.
pub fn mesh_outgoing(
    db: &mut Hako,
    echo: &mut EchoCache,
    col: &str,
    ops: &Vec<WalOp>,
    reads: &FileReads,
) -> (r: Vec<WalOp>)
    requires
        old(db).wf(),
        old(echo).wf(),
        reads.wf(),
    ensures
        final(db).wf(),
        final(echo).wf(),
        shard_opened(*old(db), *final(db), col@),
        (MeshTail { out: ops_view(r@), echo: final(echo)@ }) == mesh_tailed(
            old(echo)@,
            ops_view(ops@),
            col@,
            final(db).marks@,
            *reads,
            shard_end(final(db).shards@, col@) is Some,
            shard_queue(final(db).shards@, col@),
        ),
{
    let at = db.get_shard(col);
    proof {
        db.shards.place_facts();
        assert(db.shards@.contains_key(col@));
        assert(db.shards@[col@] == db.shards.rows()[at as int].1);
    }
    let shard = db.shards.thing(at);
    let ghost marks = db.marks@;
    let ghost file = shard.blob_end is Some;
    let ghost queue = works_view(shard.blob_flush_queue@);
    let ghost s = ops_view(ops@);
    let ghost e0 = echo@;
    let mut r: Vec<WalOp> = Vec::new();
    let mut i: usize = 0;
    proof {
        assert(s.take(0) =~= Seq::<Change>::empty());
        assert(ops_view(r@) =~= Seq::<Change>::empty());
    }
    while i < ops.len()
        invariant
            db.marks.wf(),
            marks == db.marks@,
            echo.wf(),
            reads.wf(),
            file == shard.blob_end is Some,
            queue == works_view(shard.blob_flush_queue@),
            s == ops_view(ops@),
            i <= ops@.len(),
            (MeshTail { out: ops_view(r@), echo: echo@ }) == mesh_tailed(
                e0,
                s.take(i as int),
                col@,
                marks,
                *reads,
                file,
                queue,
            ),
        decreases ops@.len() - i,
    {
        proof {
            assert(s.take(i + 1).drop_last() =~= s.take(i as int));
            assert(s.take(i + 1).last() == ops@[i as int]@);
        }
        let op = &ops[i];
        let key = op.get_key();
        let ghost before = r@;
        let back: bool = match echo.get(key) {
            Some(t) => *t == op.time(),
            None => false,
        };
        if back {
            let gone = echo.remove(key);
        } else if !db.marks.is_local_only(col, key.as_str()) {
            match resolve_op_to_bytes(op, shard, reads) {
                Some(b) => {
                    let out = WalOp::PutInlined { key: key.clone(), value: b };
                    let ghost o = out@;
                    r.push(out);
                    proof {
                        assert(ops_view(r@) =~= ops_view(before).push(o));
                    }
                },
                None => {
                    if let WalOp::Delete { .. } = op {
                        let out = op.clone();
                        let ghost o = out@;
                        r.push(out);
                        proof {
                            assert(ops_view(r@) =~= ops_view(before).push(o));
                        }
                    }
                },
            }
        }
        i = i + 1;
    }
    proof {
        assert(s.take(i as int) =~= s);
    }
    r
}

/// The nodes that are connected.
pub type Peers = SortedMap<String, ()>;

/// The peers that a collection may leave for, in order.
pub open spec fn fan_out(
    enc: bool,
    local_fp: Seq<u8>,
    caps: Map<Seq<char>, PeerCaps>,
    peers: Seq<(Seq<char>, ())>,
) -> Seq<Seq<char>>
    decreases peers.len(),
{
    if peers.len() == 0 {
        Seq::empty()
    } else {
        let before = fan_out(enc, local_fp, caps, peers.drop_last());
        if flows(enc, local_fp, told_fp(known_caps(caps, peers.last().0))) {
            before.push(peers.last().0)
        } else {
            before
        }
    }
}

/// The peers that a collection may leave for: all of them where it is not encrypted here,
/// and else those with the same key.
pub fn fan_out_to(enc: bool, local_fp: &[u8; 32], caps: &CapsMap, peers: &Peers) -> (r: Vec<String>)
    requires
        caps.wf(),
    ensures
        names_view(r@) == fan_out(enc, local_fp@, caps@, peers.seq()),
{
    let ghost s = peers.seq();
    let mut r: Vec<String> = Vec::new();
    let mut i: usize = 0;
    proof {
        assert(s.take(0) =~= Seq::<(Seq<char>, ())>::empty());
        assert(names_view(r@) =~= Seq::<Seq<char>>::empty());
    }
    while i < peers.len()
        invariant
            caps.wf(),
            s == peers.seq(),
            i <= s.len(),
            names_view(r@) == fan_out(enc, local_fp@, caps@, s.take(i as int)),
        decreases s.len() - i,
    {
        proof {
            assert(s.take(i + 1).drop_last() =~= s.take(i as int));
            assert(s.take(i + 1).last() == s[i as int]);
        }
        let peer = peers.entry(i).0;
        if caps_allow(enc, local_fp, caps.get(peer)) {
            let ghost before = r@;
            r.push(peer.clone());
            proof {
                assert(names_view(r@) =~= names_view(before).push(s[i as int].0));
            }
        }
        i = i + 1;
    }
    proof {
        assert(s.take(i as int) =~= s);
    }
    r
}

/// Whether a message of a sender is passed on to a peer: not back to the sender, and where
/// the sender encrypts the collection only to those that told of the same key as it did.
pub open spec fn passes_on(caps: Map<Seq<char>, PeerCaps>, c: Seq<char>, sender: Seq<char>, peer: Seq<char>) -> bool {
    &&& peer != sender
    &&& match known_caps(caps, sender) {
        Some(o) => names_view(o.encrypted_cols@).contains(c) ==> told_fp(known_caps(caps, peer)) == Some(o.key_fp@),
        None => true,
    }
}

/// The peers that a message is passed on to, in order.
pub open spec fn passed_on(
    caps: Map<Seq<char>, PeerCaps>,
    c: Seq<char>,
    sender: Seq<char>,
    peers: Seq<(Seq<char>, ())>,
) -> Seq<Seq<char>>
    decreases peers.len(),
{
    if peers.len() == 0 {
        Seq::empty()
    } else {
        let before = passed_on(caps, c, sender, peers.drop_last());
        if passes_on(caps, c, sender, peers.last().0) {
            before.push(peers.last().0)
        } else {
            before
        }
    }
}

/// The peers that a message is passed on to.
pub fn relay_mesh(caps: &CapsMap, collection: &str, sender: &String, peers: &Peers) -> (r: Vec<String>)
    requires
        caps.wf(),
    ensures
        names_view(r@) == passed_on(caps@, collection@, sender@, peers.seq()),
{
    let ghost s = peers.seq();
    let origin = caps.get(sender);
    let mut r: Vec<String> = Vec::new();
    let mut i: usize = 0;
    proof {
        assert(s.take(0) =~= Seq::<(Seq<char>, ())>::empty());
        assert(names_view(r@) =~= Seq::<Seq<char>>::empty());
    }
    while i < peers.len()
        invariant
            caps.wf(),
            s == peers.seq(),
            i <= s.len(),
            match origin {
                Some(o) => known_caps(caps@, sender@) == Some(*o),
                None => known_caps(caps@, sender@) is None,
            },
            names_view(r@) == passed_on(caps@, collection@, sender@, s.take(i as int)),
        decreases s.len() - i,
    {
        proof {
            assert(s.take(i + 1).drop_last() =~= s.take(i as int));
            assert(s.take(i + 1).last() == s[i as int]);
        }
        let peer = peers.entry(i).0;
        let ok: bool = match origin {
            Some(o) => if names_contain(&o.encrypted_cols, collection) {
                match caps.get(peer) {
                    Some(p) => same_fingerprint(&p.key_fp, &o.key_fp),
                    None => false,
                }
            } else {
                true
            },
            None => true,
        };
        if !same_text(peer.as_str(), sender.as_str()) && ok {
            let ghost before = r@;
            r.push(peer.clone());
            proof {
                assert(names_view(r@) =~= names_view(before).push(s[i as int].0));
            }
        }
        i = i + 1;
    }
    proof {
        assert(s.take(i as int) =~= s);
    }
    r
}

/// Of a collection that this node encrypts nothing is told to a peer that has not told of the
/// same key.
pub proof fn strangers_are_told_nothing(
    a: Hako,
    b: Hako,
    c: Seq<char>,
    since: i64,
    peer: Option<PeerCaps>,
    reads: FileReads,
    r: Seq<NetPacket>,
)
    requires
        delta_sent(a, b, c, since, peer, reads, r),
        encrypted(a.config, c),
        told_fp(peer) != Some(own_fp(a)),
    ensures
        r.len() == 0,
        b == a,
{
}

/// Changes of an encrypted collection are sent on only to peers that have told of the same
/// key.
pub proof fn strangers_are_sent_nothing(
    local_fp: Seq<u8>,
    caps: Map<Seq<char>, PeerCaps>,
    peers: Seq<(Seq<char>, ())>,
    x: Seq<char>,
)
    requires
        fan_out(true, local_fp, caps, peers).contains(x),
    ensures
        told_fp(known_caps(caps, x)) == Some(local_fp),
        local_fp != no_fingerprint(),
    decreases peers.len(),
{
    if peers.len() > 0 {
        let a = fan_out(true, local_fp, caps, peers.drop_last());
        let b = fan_out(true, local_fp, caps, peers);
        let i = choose|i: int| 0 <= i < b.len() && b[i] == x;
        if i < a.len() {
            assert(a[i] == x);
            strangers_are_sent_nothing(local_fp, caps, peers.drop_last(), x);
        }
    }
}

/// A message is never passed back to its sender, goes to peers only, and where the sender
/// encrypts the collection only to those that told of the sender's key.
pub proof fn passed_on_to_others(
    caps: Map<Seq<char>, PeerCaps>,
    c: Seq<char>,
    sender: Seq<char>,
    peers: Seq<(Seq<char>, ())>,
    x: Seq<char>,
)
    requires
        passed_on(caps, c, sender, peers).contains(x),
    ensures
        x != sender,
        peers.contains((x, ())),
        known_caps(caps, sender) matches Some(o) ==> (names_view(o.encrypted_cols@).contains(c) ==> told_fp(
            known_caps(caps, x),
        ) == Some(o.key_fp@)),
    decreases peers.len(),
{
    if peers.len() > 0 {
        let pre = peers.drop_last();
        let a = passed_on(caps, c, sender, pre);
        let b = passed_on(caps, c, sender, peers);
        let i = choose|i: int| 0 <= i < b.len() && b[i] == x;
        if i < a.len() {
            assert(a[i] == x);
            passed_on_to_others(caps, c, sender, pre, x);
            let j = choose|j: int| 0 <= j < pre.len() && pre[j] == (x, ());
            assert(peers[j] == (x, ()));
        } else {
            assert(peers[peers.len() - 1] == (x, ()));
        }
    }
}

} // verus!
