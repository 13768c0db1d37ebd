//! What leaves when the log of a collection has grown.
use vstd::prelude::*;

use crate::cloud_sync::catchup::{carries, replication};
use crate::cloud_sync::ingest::{encrypts, own_fp, recipients, relay_to, EchoCache, PeerMap};
use crate::cloud_sync::packet::CloudPacket;
use crate::cloud_sync::rooms::{echo_key, echo_name, owner_is, RoomRegistry};
use crate::document::firelite_doc::{decode_doc, doc_bytes, names_view, FireLiteDoc};
use crate::engine::access::{is_collection_encrypted, is_sync_excluded, sync_excluded};
use crate::engine::engine::{shard_queue, Hako};
use crate::engine::files::FileReads;
use crate::engine::marks::{stays, Kept};
use crate::engine::store::shard_opened;
use crate::engine::write::shard_end;
use crate::storage::blob::{doc_has_links, has_links, resolve_doc, resolved_doc, works_view, Work};
use crate::storage::shard::Shard;
use crate::storage::wal::{change_key, change_time, ops_view, Change, WalOp};
use crate::sync_guard::{config_fingerprint, CapsMap};

verus! {

/// An operation as it is sent: a document with links carries the values that it links to,
/// where they can be read.
pub open spec fn sendable(op: Change, has_file: bool, queue: Seq<Work>, blobs: Map<u64, Vec<u8>>) -> Change {
    match op {
        Change::Put { key, value } => match decode_doc(value) {
            Some(d) => if has_links(d) {
                match resolved_doc(d, has_file, queue, blobs) {
                    Some(f) => Change::Put { key, value: doc_bytes(f) },
                    None => op,
                }
            } else {
                op
            },
            None => op,
        },
        _ => op,
    }
}

/// What is sent, and what is still remembered of changes from elsewhere.
#[verifier::ext_equal]
pub struct Tail {
    pub out: Seq<Change>,
    pub echo: Map<Seq<char>, i64>,
}

/// One more operation of the log: one that came from elsewhere is not sent back, and is
/// forgotten; one that stays on this device is not sent.
pub open spec fn tail_step(
    t: Tail,
    op: Change,
    prefix: Seq<char>,
    plain: Seq<char>,
    marks: Kept,
    has_file: bool,
    queue: Seq<Work>,
    blobs: Map<u64, Vec<u8>>,
) -> Tail {
    let name = echo_name(prefix, plain, change_key(op));
    if !(op is Put || op is Delete) {
        t
    } else if t.echo.contains_key(name) && t.echo[name] == change_time(op) {
        Tail { out: t.out, echo: t.echo.remove(name) }
    } else if stays(marks, plain, change_key(op)) {
        t
    } else {
        Tail { out: t.out.push(sendable(op, has_file, queue, blobs)), echo: t.echo }
    }
}

/// What is sent of the operations of a log.
pub open spec fn tailed(
    echo: Map<Seq<char>, i64>,
    ops: Seq<Change>,
    prefix: Seq<char>,
    plain: Seq<char>,
    marks: Kept,
    has_file: bool,
    queue: Seq<Work>,
    blobs: Map<u64, Vec<u8>>,
) -> Tail
    decreases ops.len(),
{
    if ops.len() == 0 {
        Tail { out: Seq::empty(), echo }
    } else {
        tail_step(
            tailed(echo, ops.drop_last(), prefix, plain, marks, has_file, queue, blobs),
            ops.last(),
            prefix,
            plain,
            marks,
            has_file,
            queue,
            blobs,
        )
    }
}

/// Nothing that is marked to stay on this device is sent.
pub proof fn marked_is_not_sent(
    echo: Map<Seq<char>, i64>,
    ops: Seq<Change>,
    prefix: Seq<char>,
    plain: Seq<char>,
    marks: Kept,
    has_file: bool,
    queue: Seq<Work>,
    blobs: Map<u64, Vec<u8>>,
    op: Change,
)
    requires
        tailed(echo, ops, prefix, plain, marks, has_file, queue, blobs).out.contains(op),
    ensures
        !stays(marks, plain, change_key(op)),
    decreases ops.len(),
{
    if ops.len() > 0 {
        let a = tailed(echo, ops.drop_last(), prefix, plain, marks, has_file, queue, blobs).out;
        let b = tailed(echo, ops, prefix, plain, marks, has_file, queue, blobs).out;
        let k = choose|k: int| 0 <= k < b.len() && b[k] == op;
        if k < a.len() {
            assert(a[k] == op);
            marked_is_not_sent(echo, ops.drop_last(), prefix, plain, marks, has_file, queue, blobs, op);
        }
    }
}

/// A change that came from elsewhere is not sent back: the first entry of the log with its
/// key and time is passed over.
pub proof fn echo_is_not_sent(
    echo: Map<Seq<char>, i64>,
    op: Change,
    prefix: Seq<char>,
    plain: Seq<char>,
    marks: Kept,
    has_file: bool,
    queue: Seq<Work>,
    blobs: Map<u64, Vec<u8>>,
)
    requires
        op is Put || op is Delete,
        echo.contains_key(echo_name(prefix, plain, change_key(op))),
        echo[echo_name(prefix, plain, change_key(op))] == change_time(op),
    ensures
        tailed(echo, seq![op], prefix, plain, marks, has_file, queue, blobs) == (Tail {
            out: Seq::empty(),
            echo: echo.remove(echo_name(prefix, plain, change_key(op))),
        }),
{
    assert(seq![op].drop_last() =~= Seq::<Change>::empty());
    assert(tailed(echo, seq![op].drop_last(), prefix, plain, marks, has_file, queue, blobs) == (Tail {
        out: Seq::empty(),
        echo,
    }));
}

/// An operation as it is sent.
fn make_sendable(op: &WalOp, shard: &Shard, reads: &FileReads) -> (r: WalOp)
    requires
        reads.wf(),
    ensures
        r@ == sendable(op@, shard.blob_end is Some, works_view(shard.blob_flush_queue@), reads.blobs@),
{
    if let WalOp::PutInlined { key, value } = op {
        if let Some(mut doc) = FireLiteDoc::decode(value.as_slice()) {
            if doc_has_links(&doc) {
                match resolve_doc(&mut doc, shard.blob_end.is_some(), &shard.blob_flush_queue, &reads.blobs) {
                    Ok(_) => {
                        return WalOp::PutInlined { key: key.clone(), value: doc.encode() };
                    },
                    Err(_) => {},
                }
            }
        }
    }
    op.clone()
}

/// What is sent of the operations of a log.
pub fn outgoing(
    db: &mut Hako,
    echo: &mut EchoCache,
    storage_col: &str,
    prefix: &str,
    plain_col: &str,
    ops: &Vec<WalOp>,
    reads: &FileReads,
) -> (r: Vec<WalOp>)
    requires
        old(db).wf(),
        old(echo).wf(),
        reads.wf(),
    ensures
        final(db).wf(),
        final(echo).wf(),
        shard_opened(*old(db), *final(db), storage_col@),
        (Tail { out: ops_view(r@), echo: final(echo)@ }) == tailed(
            old(echo)@,
            ops_view(ops@),
            prefix@,
            plain_col@,
            final(db).marks@,
            shard_end(final(db).shards@, storage_col@) is Some,
            shard_queue(final(db).shards@, storage_col@),
            reads.blobs@,
        ),
{
    let at = db.get_shard(storage_col);
    proof {
        db.shards.place_facts();
        assert(db.shards@.contains_key(storage_col@));
        assert(db.shards@[storage_col@] == db.shards.rows()[at as int].1);
    }
    let shard = db.shards.thing(at);
    let ghost marks = db.marks@;
    let ghost file = shard.blob_end is Some;
    let ghost queue = works_view(shard.blob_flush_queue@);
    let ghost s = ops_view(ops@);
    let ghost e0 = echo@;
    let mut r: Vec<WalOp> = Vec::new();
    let mut i: usize = 0;
    proof {
        assert(s.take(0) =~= Seq::<Change>::empty());
        assert(ops_view(r@) =~= Seq::<Change>::empty());
    }
    while i < ops.len()
        invariant
            db.marks.wf(),
            marks == db.marks@,
            echo.wf(),
            reads.wf(),
            file == shard.blob_end is Some,
            queue == works_view(shard.blob_flush_queue@),
            s == ops_view(ops@),
            i <= ops@.len(),
            (Tail { out: ops_view(r@), echo: echo@ }) == tailed(
                e0,
                s.take(i as int),
                prefix@,
                plain_col@,
                marks,
                file,
                queue,
                reads.blobs@,
            ),
        decreases ops@.len() - i,
    {
        proof {
            assert(s.take(i + 1).drop_last() =~= s.take(i as int));
            assert(s.take(i + 1).last() == ops@[i as int]@);
        }
        let op = &ops[i];
        let counts: bool = match op {
            WalOp::PutInlined { .. } => true,
            WalOp::Delete { .. } => true,
            _ => false,
        };
        if counts {
            let key = op.get_key();
            let name = echo_key(prefix, plain_col, key.as_str());
            let back: bool = match echo.get(&name) {
                Some(t) => *t == op.time(),
                None => false,
            };
            if back {
                let gone = echo.remove(&name);
            } else if !db.marks.is_local_only(plain_col, key.as_str()) {
                let ghost before = r@;
                let out = make_sendable(op, shard, reads);
                let ghost o = out@;
                r.push(out);
                proof {
                    assert(ops_view(r@) =~= ops_view(before).push(o));
                }
            }
        }
        i = i + 1;
    }
    proof {
        assert(s.take(i as int) =~= s);
    }
    r
}

/// What the server sends when the log of a collection has grown, and to whom: nothing where
/// the collection belongs to no room.
pub open spec fn server_tailed(
    a: Hako,
    e0: Map<Seq<char>, i64>,
    b: Hako,
    e1: Map<Seq<char>, i64>,
    owner: Option<(Seq<char>, Seq<char>)>,
    caps: CapsMap,
    peers: PeerMap,
    c: Seq<char>,
    ops: Seq<Change>,
    msg_id: u128,
    reads: FileReads,
    r: Option<(CloudPacket, Vec<String>)>,
) -> bool {
    match owner {
        None => b == a && e1 == e0 && r is None,
        Some((prefix, plain)) => {
            let t = tailed(
                e0,
                ops,
                prefix,
                plain,
                a.marks@,
                shard_end(b.shards@, c) is Some,
                shard_queue(b.shards@, c),
                reads.blobs@,
            );
            &&& shard_opened(a, b, c)
            &&& e1 == t.echo
            &&& match r {
                None => t.out.len() == 0,
                Some((p, to)) => {
                    &&& carries(Some(p), msg_id, plain, t.out)
                    &&& names_view(to@) == recipients(
                        prefix,
                        plain,
                        encrypts(a, c, plain),
                        own_fp(a),
                        caps@,
                        None,
                        peers.seq(),
                    )
                },
            }
        },
    }
}

/// What the server sends when the log of a collection has grown, and to whom.
pub fn server_outbound(
    db: &mut Hako,
    rooms: &RoomRegistry,
    echo: &mut EchoCache,
    caps: &CapsMap,
    peers: &PeerMap,
    col: &str,
    ops: &Vec<WalOp>,
    msg_id: u128,
    reads: &FileReads,
) -> (r: Option<(CloudPacket, Vec<String>)>)
    requires
        old(db).wf(),
        rooms.wf(),
        old(echo).wf(),
        caps.wf(),
        reads.wf(),
    ensures
        final(db).wf(),
        final(echo).wf(),
        exists|owner: Option<(Seq<char>, Seq<char>)>|
            #![trigger owner_is(rooms@.prefixes, col@, owner)]
            owner_is(rooms@.prefixes, col@, owner) && server_tailed(
                *old(db),
                old(echo)@,
                *final(db),
                final(echo)@,
                owner,
                *caps,
                *peers,
                col@,
                ops_view(ops@),
                msg_id,
                *reads,
                r,
            ),
{
    match rooms.prefix_of(col) {
        None => {
            proof {
                assert(owner_is(rooms@.prefixes, col@, None));
            }
            None
        },
        Some((prefix, plain)) => {
            let enc: bool = is_collection_encrypted(&db.config, col) || is_collection_encrypted(
                &db.config,
                plain.as_str(),
            );
            let fp = config_fingerprint(&db.config);
            let out = outgoing(db, echo, col, prefix.as_str(), plain.as_str(), ops, reads);
            let r = match replication(msg_id, plain.as_str(), out) {
                None => None,
                Some(p) => Some((p, relay_to(prefix.as_str(), plain.as_str(), enc, &fp, caps, &None, peers))),
            };
            proof {
                assert(owner_is(rooms@.prefixes, col@, Some((prefix@, plain@))));
            }
            r
        },
    }
}

/// What a client sends when the log of a collection has grown: nothing of those that never
/// replicate.
pub fn client_outbound(
    db: &mut Hako,
    echo: &mut EchoCache,
    col: &str,
    ops: &Vec<WalOp>,
    msg_id: u128,
    reads: &FileReads,
) -> (r: Option<CloudPacket>)
    requires
        old(db).wf(),
        old(echo).wf(),
        reads.wf(),
    ensures
        final(db).wf(),
        final(echo).wf(),
        sync_excluded(col@) ==> r is None && *final(db) == *old(db) && *final(echo) == *old(echo),
        !sync_excluded(col@) ==> shard_opened(*old(db), *final(db), col@) && ({
            let t = tailed(
                old(echo)@,
                ops_view(ops@),
                ""@,
                col@,
                final(db).marks@,
                shard_end(final(db).shards@, col@) is Some,
                shard_queue(final(db).shards@, col@),
                reads.blobs@,
            );
            final(echo)@ == t.echo && carries(r, msg_id, col@, t.out)
        }),
{
    if is_sync_excluded(col) {
        return None;
    }
    let out = outgoing(db, echo, col, "", col, ops, reads);
    replication(msg_id, col, out)
}

} // verus!
