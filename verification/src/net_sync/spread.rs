//! What nodes of a mesh tell each other, whom they tell it, and how they find each other.
use vstd::prelude::*;
use vstd::string::*;

use crate::cloud_sync::catchup::{unmarked, unmarked_goes};
use crate::cloud_sync::ingest::own_fp;
use crate::config::HakoConfig;
use crate::document::firelite_doc::{doc_bytes, document_round_trip, names_view, with_field_holds, Doc, FireLiteDoc};
use crate::document::value::Val;
use crate::engine::access::encrypted;
use crate::engine::collections::syncing_of;
use crate::engine::engine::Hako;
use crate::engine::files::{reads_are, FileReads};
use crate::engine::marks::{stays, Kept};
use crate::engine::store::shard_opened;
use crate::engine::types::{CompositeIndexInfo, IndexList};
use crate::engine::upkeep::attempt_gives_whole;
use crate::engine::write::{empty_doc, shard_places, Applied};
use crate::error::HakoError;
use crate::index::composite::definition::SortDirection;
use crate::net_sync::address::{dotted, endpoint, first_label, is_best};
use crate::net_sync::beacon::{
    beacon_bytes, heard_beacon, heard_of, heard_of_all, lately, merged, Beacon, Known, Sighting,
};
use crate::net_sync::delta::{
    delta_one, delta_sent, deltas, everything, fan_out, in_chunks, mesh_tailed, passed_on, passes_on,
};
use crate::net_sync::discovery::{numbered_mode, DiscoveryMode};
use crate::net_sync::intake::{bare_id, behind_colon, intake_done, noted, taken};
use crate::net_sync::packet::{NetPacket, NetworkStatus, SyncStatus};
use crate::net_sync::peer::{
    all_of, answer_one, answered_along, changes_heard, composite_needs, field_needs, heard, list_needs,
    supplied_along, supply_one, tail_sent, tells_caps, wished, IndexNeed, NetStep,
};
use crate::net_sync::syncer::{
    checkpoint_comes_back, checkpoint_doc, dials, doc_offsets, found, kept_offsets, left_out, node_made, offset_fields, status_is, to_dial,
    NetSyncer,
};
use crate::sorted_map::{ascending, entries_map};
use crate::storage::blob::{resolved_doc, works_view, Work};
use crate::storage::pointer::{place_time_pending, Place, Pointer};
use crate::storage::shard::is_version;
use crate::storage::wal::{change_key, change_time, ops_view, Change};
use crate::sync_guard::{caps_of, encrypted_of, fingerprint, flows, known_caps, told_fp, PeerCaps};
use crate::util::decimal::{digits, digits_are_read, read_digits};
use crate::util::sort::{sorted_from, sorted_holds};

verus! {

proof fn told_among(
    entries: Seq<(Seq<char>, Pointer)>,
    marks: Kept,
    c: Seq<char>,
    since: i64,
    reads: FileReads,
    has_file: bool,
    queue: Seq<Work>,
    i: int,
    op: Change,
)
    requires
        0 <= i < entries.len(),
        delta_one(entries[i].0, entries[i].1@, marks, c, since, reads, has_file, queue) == Some(op),
    ensures
        deltas(entries, marks, c, since, reads, has_file, queue).contains(op),
    decreases entries.len(),
{
    let pre = entries.drop_last();
    let (a, b) = (
        deltas(pre, marks, c, since, reads, has_file, queue),
        deltas(entries, marks, c, since, reads, has_file, queue),
    );
    if i < pre.len() {
        assert(pre[i] == entries[i]);
        told_among(pre, marks, c, since, reads, has_file, queue, i, op);
        let k = choose|k: int| 0 <= k < a.len() && a[k] == op;
        assert(b[k] == op);
    } else {
        assert(b[b.len() - 1] == op);
    }
}

/// A node is told of every deletion that is later than what it has, unless a mark keeps it on
/// this device.
pub proof fn later_deletion_is_told_on(
    entries: Seq<(Seq<char>, Pointer)>,
    marks: Kept,
    c: Seq<char>,
    since: i64,
    reads: FileReads,
    has_file: bool,
    queue: Seq<Work>,
    i: int,
    time: i64,
)
    requires
        0 <= i < entries.len(),
        unmarked(marks, c, entries[i].0),
        entries[i].1@ == (Place::Deleted { time }),
        time > since,
    ensures
        deltas(entries, marks, c, since, reads, has_file, queue).contains(Change::Delete { key: entries[i].0, time }),
{
    unmarked_goes(marks, c, entries[i].0);
    told_among(entries, marks, c, since, reads, has_file, queue, i, Change::Delete { key: entries[i].0, time });
}

/// A node is told of every document that lies in memory and is later than what it has, with the
/// values that it links to, unless a mark keeps it on this device.
pub proof fn later_document_is_told_on(
    entries: Seq<(Seq<char>, Pointer)>,
    marks: Kept,
    c: Seq<char>,
    since: i64,
    reads: FileReads,
    has_file: bool,
    queue: Seq<Work>,
    i: int,
    d: Doc,
    f: Doc,
)
    requires
        0 <= i < entries.len(),
        unmarked(marks, c, entries[i].0),
        entries[i].1@ == Place::Inlined(doc_bytes(d)),
        d.fits(),
        place_time_pending(entries[i].1@) > since,
        resolved_doc(d, has_file, queue, reads.blobs@) == Some(f),
    ensures
        deltas(entries, marks, c, since, reads, has_file, queue).contains(
            Change::Put { key: entries[i].0, value: doc_bytes(f) },
        ),
{
    unmarked_goes(marks, c, entries[i].0);
    document_round_trip(d);
    if !crate::storage::blob::has_links(d) {
        assert forall|k: int| 0 <= k < d.fields.len() implies !crate::storage::blob::is_link((#[trigger] d.fields[k]).1) by {
            assert(!(d.fields[k].1 is BlobLink));
        }
        assert(f == d);
    }
    told_among(
        entries,
        marks,
        c,
        since,
        reads,
        has_file,
        queue,
        i,
        Change::Put { key: entries[i].0, value: doc_bytes(f) },
    );
}

/// A new node gets every document of a collection that lies in memory, but for those that stay
/// on this device, one entry after the other.
pub proof fn new_node_gets_documents(
    a: Seq<(Seq<char>, Pointer)>,
    b: Seq<(Seq<char>, Pointer)>,
    e: (Seq<char>, Pointer),
    d: Doc,
    marks: Kept,
    c: Seq<char>,
    reads: FileReads,
    has_file: bool,
    queue: Seq<Work>,
)
    requires
        d.fits(),
        forall|i: int| 0 <= i < d.fields.len() ==> !((#[trigger] d.fields[i]).1 is BlobLink),
    ensures
        everything(a + b, marks, c, reads, has_file, queue) == everything(a, marks, c, reads, has_file, queue)
            + everything(b, marks, c, reads, has_file, queue),
        e.1@ == Place::Inlined(doc_bytes(d)) && unmarked(marks, c, e.0) ==> everything(
            seq![e],
            marks,
            c,
            reads,
            has_file,
            queue,
        ) == seq![Change::Put { key: e.0, value: doc_bytes(d) }],
        e.1@ is Deleted || stays(marks, c, e.0) ==> everything(seq![e], marks, c, reads, has_file, queue).len() == 0,
    decreases b.len(),
{
    let none = Seq::<(Seq<char>, Pointer)>::empty();
    assert(seq![e].drop_last() =~= none);
    assert(everything(none, marks, c, reads, has_file, queue) =~= Seq::<Change>::empty());
    document_round_trip(d);
    if unmarked(marks, c, e.0) {
        unmarked_goes(marks, c, e.0);
    }
    let p = Change::Put { key: e.0, value: doc_bytes(d) };
    assert(Seq::<Change>::empty().push(p) =~= seq![p]);
    let x = everything(a, marks, c, reads, has_file, queue);
    if b.len() == 0 {
        assert(a + b =~= a);
        assert(x + everything(b, marks, c, reads, has_file, queue) =~= x);
    } else {
        new_node_gets_documents(a, b.drop_last(), e, d, marks, c, reads, has_file, queue);
        assert((a + b).drop_last() =~= a + b.drop_last());
        assert((a + b).last() == b.last());
        assert(everything(a + b, marks, c, reads, has_file, queue) =~= x + everything(
            b,
            marks,
            c,
            reads,
            has_file,
            queue,
        ));
    }
}

/// Every change that is to be told goes out, in messages of fifty and in order: the `k`th change
/// stands in the message number `k / 50`, at the place `k % 50`.
pub proof fn every_change_goes_out(r: Seq<NetPacket>, c: Seq<char>, ops: Seq<Change>, k: int)
    requires
        in_chunks(r, c, ops),
        0 <= k < ops.len(),
    ensures
        0 <= k / 50 < r.len(),
        r[k / 50] matches NetPacket::Replication { collection, ops: o, .. } && collection@ == c && k % 50 < ops_view(
            o@,
        ).len() <= 50 && ops_view(o@)[k % 50] == ops[k],
{
    let i = k / 50;
    assert(50 * i <= k < 50 * (i + 1));
    assert(crate::net_sync::delta::brings(r[i], 0, c, ops.subrange(50 * i, if 50 * (i + 1) <= ops.len() {
        50 * (i + 1)
    } else {
        ops.len() as int
    })));
}

/// A change made here is sent on, unless it came from elsewhere or stays on this device: a
/// deletion as it is, and a document with the values that it links to.
pub proof fn own_change_spreads(
    echo: Map<Seq<char>, i64>,
    ops: Seq<Change>,
    c: Seq<char>,
    marks: Kept,
    reads: FileReads,
    has_file: bool,
    queue: Seq<Work>,
    key: Seq<char>,
    time: i64,
    d: Doc,
    f: Doc,
    delete: bool,
)
    requires
        d.fits(),
        resolved_doc(d, has_file, queue, reads.blobs@) == Some(f),
        unmarked(marks, c, key),
        !mesh_tailed(echo, ops, c, marks, reads, has_file, queue).echo.contains_key(key),
    ensures
        ({
            let op = if delete {
                Change::Delete { key, time }
            } else {
                Change::Put { key, value: doc_bytes(d) }
            };
            let sent = if delete {
                op
            } else {
                Change::Put { key, value: doc_bytes(f) }
            };
            mesh_tailed(echo, ops.push(op), c, marks, reads, has_file, queue).out == mesh_tailed(
                echo,
                ops,
                c,
                marks,
                reads,
                has_file,
                queue,
            ).out.push(sent)
        }),
        mesh_tailed(echo, Seq::empty(), c, marks, reads, has_file, queue).out.len() == 0,
        mesh_tailed(echo, Seq::empty(), c, marks, reads, has_file, queue).echo == echo,
{
    unmarked_goes(marks, c, key);
    document_round_trip(d);
    let op = if delete {
        Change::Delete { key, time }
    } else {
        Change::Put { key, value: doc_bytes(d) }
    };
    assert(ops.push(op).drop_last() =~= ops);
    if !crate::storage::blob::has_links(d) {
        assert forall|k: int| 0 <= k < d.fields.len() implies !crate::storage::blob::is_link((#[trigger] d.fields[k]).1) by {
            assert(!(d.fields[k].1 is BlobLink));
        }
        assert(f == d);
    }
}

/// A change that came from elsewhere is not sent back, and is then forgotten.
pub proof fn arrival_is_not_sent_back(
    echo: Map<Seq<char>, i64>,
    op: Change,
    c: Seq<char>,
    marks: Kept,
    reads: FileReads,
    has_file: bool,
    queue: Seq<Work>,
)
    requires
        echo.contains_key(change_key(op)),
        echo[change_key(op)] == change_time(op),
    ensures
        mesh_tailed(echo, seq![op], c, marks, reads, has_file, queue).out.len() == 0,
        !mesh_tailed(echo, seq![op], c, marks, reads, has_file, queue).echo.contains_key(change_key(op)),
{
    assert(seq![op].drop_last() =~= Seq::<Change>::empty());
    assert(mesh_tailed(echo, Seq::empty(), c, marks, reads, has_file, queue).echo == echo);
}

/// Every peer that a collection may leave for is sent its changes, and no other.
pub proof fn all_allowed_are_sent(
    enc: bool,
    local_fp: Seq<u8>,
    caps: Map<Seq<char>, PeerCaps>,
    a: Seq<(Seq<char>, ())>,
    b: Seq<(Seq<char>, ())>,
    peer: Seq<char>,
)
    ensures
        fan_out(enc, local_fp, caps, a + b) == fan_out(enc, local_fp, caps, a) + fan_out(enc, local_fp, caps, b),
        !enc || flows(true, local_fp, told_fp(known_caps(caps, peer))) ==> fan_out(enc, local_fp, caps, seq![(peer, ())])
            == seq![peer],
        enc && !flows(true, local_fp, told_fp(known_caps(caps, peer))) ==> fan_out(
            enc,
            local_fp,
            caps,
            seq![(peer, ())],
        ).len() == 0,
    decreases b.len(),
{
    let none = Seq::<(Seq<char>, ())>::empty();
    assert(seq![(peer, ())].drop_last() =~= none);
    assert(fan_out(enc, local_fp, caps, none) =~= Seq::<Seq<char>>::empty());
    assert(Seq::<Seq<char>>::empty().push(peer) =~= seq![peer]);
    let x = fan_out(enc, local_fp, caps, a);
    if b.len() == 0 {
        assert(a + b =~= a);
        assert(x + fan_out(enc, local_fp, caps, b) =~= x);
    } else {
        all_allowed_are_sent(enc, local_fp, caps, a, b.drop_last(), peer);
        assert((a + b).drop_last() =~= a + b.drop_last());
        assert((a + b).last() == b.last());
        assert(fan_out(enc, local_fp, caps, a + b) =~= x + fan_out(enc, local_fp, caps, b));
    }
}

/// A message is passed on to every peer but its sender, and where the sender encrypts the
/// collection to those that told of the same key.
pub proof fn passed_on_to_all_others(
    caps: Map<Seq<char>, PeerCaps>,
    c: Seq<char>,
    sender: Seq<char>,
    peers: Seq<(Seq<char>, ())>,
    i: int,
)
    requires
        0 <= i < peers.len(),
        peers[i].0 != sender,
        caps.contains_key(sender) && names_view(caps[sender].encrypted_cols@).contains(c) ==> told_fp(
            known_caps(caps, peers[i].0),
        ) == Some(caps[sender].key_fp@),
    ensures
        passed_on(caps, c, sender, peers).contains(peers[i].0),
    decreases peers.len(),
{
    let pre = peers.drop_last();
    let (a, b) = (passed_on(caps, c, sender, pre), passed_on(caps, c, sender, peers));
    if i < pre.len() {
        assert(pre[i] == peers[i]);
        passed_on_to_all_others(caps, c, sender, pre, i);
        let k = choose|k: int| 0 <= k < a.len() && a[k] == peers[i].0;
        assert(b[k] == peers[i].0);
    } else {
        assert(passes_on(caps, c, sender, peers[i].0));
        assert(b[b.len() - 1] == peers[i].0);
    }
}

/// A peer that is behind in a collection is told what it has missed since the time that it told;
/// one that is not behind is told nothing.
pub proof fn peer_behind_is_told(
    t: Seq<Hako>,
    groups: Seq<Seq<NetPacket>>,
    excluded: Map<Seq<char>, ()>,
    peer: Option<PeerCaps>,
    files: Map<Seq<char>, FileReads>,
    versions: Seq<(Seq<char>, i64)>,
    i: int,
)
    requires
        answered_along(t, groups, excluded, peer, files, versions),
        0 <= i < versions.len(),
    ensures
        excluded.contains_key(versions[i].0) ==> groups[i].len() == 0 && t[i + 1] == t[i],
        !excluded.contains_key(versions[i].0) ==> exists|m: Hako, v: i64|
            #![trigger shard_opened(t[i], m, versions[i].0), is_version(shard_places(t[i].shards@, versions[i].0), v)]
            shard_opened(t[i], m, versions[i].0) && is_version(shard_places(t[i].shards@, versions[i].0), v) && (v
                <= versions[i].1 ==> groups[i].len() == 0) && (v > versions[i].1 ==> exists|reads: FileReads| #[trigger]
                reads_are(files, versions[i].0, reads) && delta_sent(
                    m,
                    t[i + 1],
                    versions[i].0,
                    versions[i].1,
                    peer,
                    reads,
                    groups[i],
                )),
{
    let v = versions[i];
    assert(answer_one(t[i], t[i + 1], excluded, peer, files, v.0, v.1, groups[i]));
}

/// A new peer gets of every collection that replicates one message for each document, where the
/// collection may leave for it.
pub proof fn new_peer_is_supplied(
    t: Seq<Hako>,
    groups: Seq<Seq<NetPacket>>,
    excluded: Map<Seq<char>, ()>,
    peer: Option<PeerCaps>,
    files: Map<Seq<char>, FileReads>,
    cols: Seq<Seq<char>>,
    i: int,
)
    requires
        supplied_along(t, groups, excluded, peer, files, cols),
        0 <= i < cols.len(),
    ensures
        excluded.contains_key(cols[i]) ==> groups[i].len() == 0,
        !excluded.contains_key(cols[i]) && flows(encrypted(t[i].config, cols[i]), own_fp(t[i]), told_fp(peer))
            ==> exists|reads: FileReads| #[trigger]
            reads_are(files, cols[i], reads) && groups[i].len() == everything(
                t[i + 1].shards@[cols[i]].index.seq(),
                t[i].marks@,
                cols[i],
                reads,
                crate::engine::write::shard_end(t[i + 1].shards@, cols[i]) is Some,
                crate::engine::engine::shard_queue(t[i + 1].shards@, cols[i]),
            ).len(),
{
    let c = cols[i];
    assert(supply_one(t[i], t[i + 1], excluded, peer, files, c, groups[i]));
}

/// The messages of groups go out one group after the other.
pub proof fn groups_go_out(a: Seq<Seq<NetPacket>>, b: Seq<Seq<NetPacket>>, g: Seq<NetPacket>)
    ensures
        all_of(a + b) == all_of(a) + all_of(b),
        all_of(seq![g]) == g,
        all_of(Seq::empty()).len() == 0,
    decreases b.len(),
{
    assert(seq![g].drop_last() =~= Seq::<Seq<NetPacket>>::empty());
    assert(all_of(Seq::empty()) =~= Seq::<NetPacket>::empty());
    assert(Seq::<NetPacket>::empty() + g =~= g);
    if b.len() == 0 {
        assert(a + b =~= a);
        assert(all_of(a) + all_of(b) =~= all_of(a));
    } else {
        groups_go_out(a, b.drop_last(), g);
        assert((a + b).drop_last() =~= a + b.drop_last());
        assert((a + b).last() == b.last());
        assert(all_of(a + b) =~= all_of(a) + all_of(b));
    }
}

/// A message with changes is taken where the collection replicates, the message is new, and the
/// collection is not encrypted or the peer has told of the same key; and a node that relays
/// passes it on.
pub proof fn new_message_is_taken(
    a: Hako,
    n0: NetSyncer,
    b: Hako,
    n1: NetSyncer,
    peer: Seq<char>,
    reads: FileReads,
    msg_id: u128,
    c: Seq<char>,
    ops: Seq<Change>,
    r: NetStep,
)
    requires
        changes_heard(a, n0, b, n1, peer, reads, msg_id, c, ops, r),
        !n0.excluded@.contains_key(c),
        msg_id == 0 || !n0.seen_messages.seq().contains(msg_id),
        flows(encrypted(a.config, c), own_fp(a), told_fp(known_caps(n0.caps@, peer))),
    ensures
        intake_done(a, n0.echo_cache@, b, n1.echo_cache@, c, ops, reads, r.applied),
        msg_id != 0 && n0.enable_relay ==> names_view(r.pass_to@) == passed_on(n0.caps@, c, peer, n0.peers.seq()),
        !n0.enable_relay ==> r.pass_to@.len() == 0,
        msg_id != 0 ==> n1.seen_messages.seq().contains(msg_id),
{
    if !n0.enable_relay {
        assert(names_view(r.pass_to@).len() == r.pass_to@.len());
    }
    if msg_id != 0 {
        let s = n0.seen_messages.seq();
        assert(s.push(msg_id)[s.len() as int] == msg_id);
        let q = n1.seen_messages.seq();
        assert(q[q.len() - 1] == msg_id);
    }
}

/// A node wishes for each index that another tells of: one for each field of each collection,
/// and the composite ones with their columns.
pub proof fn indexes_are_wished_for(
    text: bool,
    a: Seq<(String, Vec<String>)>,
    b: Seq<(String, Vec<String>)>,
    row: (String, Vec<String>),
    i: int,
    list: Seq<CompositeIndexInfo>,
    k: int,
)
    requires
        0 <= i < row.1@.len(),
        0 <= k < list.len(),
    ensures
        list_needs(text, a + b) == list_needs(text, a) + list_needs(text, b),
        list_needs(text, seq![row]).len() == row.1@.len(),
        list_needs(text, seq![row])[i] == (if text {
            IndexNeed::Fts { collection: row.0@, field: row.1@[i]@ }
        } else {
            IndexNeed::Secondary { collection: row.0@, field: row.1@[i]@ }
        }),
        composite_needs(list).len() == list.len(),
        composite_needs(list)[k] matches IndexNeed::Composite { collection, columns } && collection == list[k].collection@
            && columns.len() == list[k].fields@.len() && forall|m: int|
            0 <= m < columns.len() ==> (#[trigger] columns[m]).0 == list[k].fields@[m].field@ && (
            list[k].fields@[m].direction@ == "desc"@ ==> columns[m].1 == SortDirection::Desc) && (
            list[k].fields@[m].direction@ == "asc"@ ==> columns[m].1 == SortDirection::Asc),
    decreases b.len(),
{
    reveal_strlit("asc");
    reveal_strlit("desc");
    assert("asc"@.len() != "desc"@.len());
    assert(seq![row].drop_last() =~= Seq::<(String, Vec<String>)>::empty());
    assert(list_needs(text, Seq::empty()) =~= Seq::<IndexNeed>::empty());
    let n = field_needs(text, row.0@, names_view(row.1@));
    assert(Seq::<IndexNeed>::empty() + n =~= n);
    if b.len() == 0 {
        assert(a + b =~= a);
        assert(list_needs(text, a) + list_needs(text, b) =~= list_needs(text, a));
    } else {
        indexes_are_wished_for(text, a, b.drop_last(), row, i, list, k);
        assert((a + b).drop_last() =~= a + b.drop_last());
        assert((a + b).last() == b.last());
        assert(list_needs(text, a + b) =~= list_needs(text, a) + list_needs(text, b));
    }
}

/// What a listing asks for: its indexes of fields, its full-text indexes and its composite ones.
pub proof fn listing_is_wished_for(list: IndexList, need: IndexNeed)
    ensures
        wished(list).contains(need) <==> list_needs(false, list.secondary@).contains(need) || list_needs(
            true,
            list.fts@,
        ).contains(need) || composite_needs(list.composite@).contains(need),
{
    let (x, y, z) = (list_needs(false, list.secondary@), list_needs(true, list.fts@), composite_needs(list.composite@));
    let w = wished(list);
    if x.contains(need) {
        let i = choose|i: int| 0 <= i < x.len() && x[i] == need;
        assert(w[i] == need);
    }
    if y.contains(need) {
        let i = choose|i: int| 0 <= i < y.len() && y[i] == need;
        assert(w[x.len() + i] == need);
    }
    if z.contains(need) {
        let i = choose|i: int| 0 <= i < z.len() && z[i] == need;
        assert(w[x.len() + y.len() + i] == need);
    }
    if w.contains(need) {
        let i = choose|i: int| 0 <= i < w.len() && w[i] == need;
        if i < x.len() {
            assert(x[i] == need);
        } else if i < x.len() + y.len() {
            assert(y[i - x.len()] == need);
        } else {
            assert(z[i - x.len() - y.len()] == need);
        }
    }
}

/// What was taken from elsewhere is remembered by its time, the last change of a key counting,
/// and everything else as before.
pub proof fn taken_is_noted(m: Map<Seq<char>, i64>, ops: Seq<Change>, op: Change, other: Seq<char>)
    requires
        other != change_key(op),
    ensures
        noted(m, Seq::empty()) == m,
        noted(m, ops.push(op)).contains_key(change_key(op)),
        noted(m, ops.push(op))[change_key(op)] == change_time(op),
        noted(m, ops.push(op)).contains_key(other) == noted(m, ops).contains_key(other),
        noted(m, ops).contains_key(other) ==> noted(m, ops.push(op))[other] == noted(m, ops)[other],
{
    assert(ops.push(op).drop_last() =~= ops);
}

/// The id in a key is what stands behind its first colon, and a key without one is an id.
pub proof fn id_stands_behind_colon(c: Seq<char>, id: Seq<char>)
    requires
        !c.contains(':'),
    ensures
        bare_id(c) == c,
        bare_id(c + seq![':'] + id) == id,
{
    colon_is_found(c, id);
}

proof fn colon_is_found(c: Seq<char>, id: Seq<char>)
    requires
        !c.contains(':'),
    ensures
        behind_colon(c) is None,
        behind_colon(c + seq![':'] + id) == Some(id),
    decreases c.len(),
{
    let s = c + seq![':'] + id;
    if c.len() == 0 {
        assert(s[0] == ':');
        assert(s.drop_first() =~= id);
    } else {
        let t = c.drop_first();
        assert(c.contains(c[0]));
        assert(!t.contains(':')) by {
            if t.contains(':') {
                let i = choose|i: int| 0 <= i < t.len() && t[i] == ':';
                assert(c[i + 1] == ':');
            }
        }
        colon_is_found(t, id);
        assert(s[0] == c[0]);
        assert(s.drop_first() =~= t + seq![':'] + id);
    }
}

/// A beacon of the same room makes its sender known, at the address that it came from and its own
/// port, and the nodes that it tells of at the addresses that it tells, each as heard of now.
pub proof fn beacon_makes_known(
    nodes: Map<Seq<char>, (Seq<char>, u64)>,
    b: Beacon,
    src: Seq<char>,
    self_id: Seq<char>,
    now: u64,
    i: int,
)
    requires
        b.id != self_id,
    ensures
        (forall|k: int| 0 <= k < b.known.len() ==> (#[trigger] b.known[k]).0 != b.id) ==> merged(
            nodes,
            b,
            src,
            self_id,
            b.room,
            now,
        ).nodes.contains_key(b.id) && merged(nodes, b, src, self_id, b.room, now).nodes[b.id] == (
            endpoint(src, b.port),
            now,
        ),
        0 <= i < b.known.len() && b.known[i].0 != self_id && (forall|k: int|
            i < k < b.known.len() ==> (#[trigger] b.known[k]).0 != b.known[i].0) ==> merged(
            nodes,
            b,
            src,
            self_id,
            b.room,
            now,
        ).nodes.contains_key(b.known[i].0) && merged(nodes, b, src, self_id, b.room, now).nodes[b.known[i].0] == (
            b.known[i].1,
            now,
        ),
{
    let k = heard_of(Known { nodes, changed: false }, b.id, endpoint(src, b.port), self_id, now);
    if forall|k: int| 0 <= k < b.known.len() ==> (#[trigger] b.known[k]).0 != b.id {
        unheard_stays(k, b.known, self_id, now, b.id);
    }
    if 0 <= i < b.known.len() && b.known[i].0 != self_id && (forall|k: int|
        i < k < b.known.len() ==> (#[trigger] b.known[k]).0 != b.known[i].0) {
        last_heard_stays(k, b.known, self_id, now, i);
    }
}

proof fn unheard_stays(k: Known, list: Seq<(Seq<char>, Seq<char>)>, self_id: Seq<char>, now: u64, x: Seq<char>)
    requires
        forall|i: int| 0 <= i < list.len() ==> (#[trigger] list[i]).0 != x,
    ensures
        heard_of_all(k, list, self_id, now).nodes.contains_key(x) == k.nodes.contains_key(x),
        k.nodes.contains_key(x) ==> heard_of_all(k, list, self_id, now).nodes[x] == k.nodes[x],
    decreases list.len(),
{
    if list.len() > 0 {
        let pre = list.drop_last();
        assert forall|i: int| 0 <= i < pre.len() implies (#[trigger] pre[i]).0 != x by {
            assert(pre[i] == list[i]);
        }
        unheard_stays(k, pre, self_id, now, x);
        assert(list[list.len() - 1].0 != x);
    }
}

proof fn last_heard_stays(k: Known, list: Seq<(Seq<char>, Seq<char>)>, self_id: Seq<char>, now: u64, i: int)
    requires
        0 <= i < list.len(),
        list[i].0 != self_id,
        forall|j: int| i < j < list.len() ==> (#[trigger] list[j]).0 != list[i].0,
    ensures
        heard_of_all(k, list, self_id, now).nodes.contains_key(list[i].0),
        heard_of_all(k, list, self_id, now).nodes[list[i].0] == (list[i].1, now),
    decreases list.len(),
{
    let pre = list.drop_last();
    if i < pre.len() {
        assert(pre[i] == list[i]);
        assert forall|j: int| i < j < pre.len() implies (#[trigger] pre[j]).0 != pre[i].0 by {
            assert(pre[j] == list[j]);
        }
        last_heard_stays(k, pre, self_id, now, i);
        assert(list[list.len() - 1].0 != list[i].0);
    }
}

/// A beacon is heard from its bytes where it begins as beacons do, and else it is not.
pub proof fn beacons_begin_alike(b: Beacon, more: Seq<u8>)
    requires
        b.room.len() == 32,
        b.known.len() < 0x1_0000_0000_0000_0000,
        crate::net_sync::beacon::bytes_beacon(beacon_bytes(b) + more) == Some(b),
    ensures
        b.magic == 0x464C4252 ==> heard_beacon(beacon_bytes(b) + more) == Some(b),
        b.magic != 0x464C4252 ==> heard_beacon(beacon_bytes(b) + more) is None,
{
}

/// A node is known for 45 seconds after it was last heard of, and no longer.
pub proof fn silent_nodes_are_forgotten(m: Map<Seq<char>, Sighting>, now: u64, k: Seq<char>)
    requires
        m.contains_key(k),
    ensures
        now < m[k].seen + 45_000 ==> lately(m, now).contains_key(k) && lately(m, now)[k] == m[k],
        now >= m[k].seen + 45_000 ==> !lately(m, now).contains_key(k),
{
}

/// Every known node that a node is to dial is dialed, in order and at its address.
pub proof fn all_are_dialed(
    self_id: Seq<char>,
    peers: Map<Seq<char>, ()>,
    a: Seq<(Seq<char>, Seq<char>)>,
    b: Seq<(Seq<char>, Seq<char>)>,
    x: (Seq<char>, Seq<char>),
)
    ensures
        to_dial(self_id, peers, a + b) == to_dial(self_id, peers, a) + to_dial(self_id, peers, b),
        dials(self_id, peers, x.0) ==> to_dial(self_id, peers, seq![x]) == seq![x],
        !dials(self_id, peers, x.0) ==> to_dial(self_id, peers, seq![x]).len() == 0,
        peers.contains_key(x.0) ==> !dials(self_id, peers, x.0),
        !dials(self_id, peers, self_id),
    decreases b.len(),
{
    assert(seq![x].drop_last() =~= Seq::<(Seq<char>, Seq<char>)>::empty());
    assert(to_dial(self_id, peers, Seq::empty()) =~= Seq::<(Seq<char>, Seq<char>)>::empty());
    assert(Seq::<(Seq<char>, Seq<char>)>::empty().push(x) =~= seq![x]);
    crate::order::lex_equal(crate::order::char_codes(self_id), crate::order::char_codes(self_id));
    if b.len() == 0 {
        assert(a + b =~= a);
        assert(to_dial(self_id, peers, a) + to_dial(self_id, peers, b) =~= to_dial(self_id, peers, a));
    } else {
        all_are_dialed(self_id, peers, a, b.drop_last(), x);
        assert((a + b).drop_last() =~= a + b.drop_last());
        assert((a + b).last() == b.last());
        assert(to_dial(self_id, peers, a + b) =~= to_dial(self_id, peers, a) + to_dial(self_id, peers, b));
    }
}

/// Whether an address is of the range of small networks, of large ones, or of those between.
pub open spec fn private_range(ip: Seq<u8>) -> int {
    if ip[0] == 192 && ip[1] == 168 {
        3
    } else if ip[0] == 10 {
        2
    } else if ip[0] == 172 && 16 <= ip[1] && ip[1] < 32 {
        1
    } else {
        0
    }
}

/// The best address of a device is none that leads back to it; a small network goes before a
/// large one, that before one between, and any private one before a public one. Of two that are
/// as good the later one is taken.
pub proof fn best_address_is_private(ips: Seq<[u8; 4]>, i: int, k: int)
    requires
        is_best(ips, i),
        0 <= k < ips.len(),
        ips[k]@[0] != 127,
    ensures
        ips[i]@[0] != 127,
        private_range(ips[i]@) >= private_range(ips[k]@),
        private_range(ips[i]@) == private_range(ips[k]@) ==> k <= i,
{
    assert(!crate::net_sync::address::is_loopback(ips[k]@));
}

/// An address stands before a colon and its port in digits, so that different ports of a host
/// have different names.
pub proof fn endpoint_tells_port(host: Seq<char>, p: u16, q: u16)
    ensures
        endpoint(host, p).take(host.len() as int) == host,
        endpoint(host, p)[host.len() as int] == ':',
        read_digits(endpoint(host, p).skip(host.len() as int + 1), 10) == p,
        endpoint(host, p) == endpoint(host, q) ==> p == q,
{
    reveal_strlit(":");
    digits_are_read(p as nat, 10);
    digits_are_read(q as nat, 10);
    assert(endpoint(host, p).take(host.len() as int) =~= host);
    assert(endpoint(host, p).skip(host.len() as int + 1) =~= digits(p as nat, 10));
    assert(endpoint(host, q).skip(host.len() as int + 1) =~= digits(q as nat, 10));
}

/// The words of an address are its four numbers in digits, with a point between two.
pub proof fn address_in_words(ip: Seq<u8>)
    requires
        ip.len() == 4,
    ensures
        dotted(ip) == digits(ip[0] as nat, 10) + seq!['.'] + digits(ip[1] as nat, 10) + seq!['.'] + digits(
            ip[2] as nat,
            10,
        ) + seq!['.'] + digits(ip[3] as nat, 10),
{
    reveal_strlit(".");
    assert("."@ =~= seq!['.']);
}

/// The name of a node ends before the first point of its full name, or with it.
pub proof fn label_ends_at_point(a: Seq<char>, b: Seq<char>)
    requires
        !a.contains('.'),
    ensures
        first_label(a) == a,
        first_label(a + seq!['.'] + b) == a,
    decreases a.len(),
{
    let s = a + seq!['.'] + b;
    if a.len() == 0 {
        assert(s[0] == '.');
        assert(first_label(s) =~= a);
        assert(first_label(a) =~= a);
    } else {
        let t = a.drop_first();
        assert(a.contains(a[0]));
        assert(!t.contains('.')) by {
            if t.contains('.') {
                let i = choose|i: int| 0 <= i < t.len() && t[i] == '.';
                assert(a[i + 1] == '.');
            }
        }
        label_ends_at_point(t, b);
        assert(s[0] == a[0]);
        assert(s.drop_first() =~= t + seq!['.'] + b);
        assert(seq![a[0]] + t =~= a);
    }
}

/// A node keeps back what it was told to, what the configuration names, and the collections that
/// keep the state of the store, and nothing else.
pub proof fn node_keeps_back(config: HakoConfig, told: Seq<Seq<char>>, c: Seq<char>)
    ensures
        told.contains(c) ==> left_out(config, told, c),
        c == "__hako_system"@ || c == "__hako_rooms"@ || c == "__users"@ || c == "__groups"@ ==> left_out(config, told, c),
        names_view(config.sync_excluded@).contains(c) ==> left_out(config, told, c),
        left_out(config, told, c) && !told.contains(c) && !names_view(config.sync_excluded@).contains(c) ==> c
            == "__hako_system"@ || c == "__hako_rooms"@ || c == "__users"@ || c == "__groups"@,
{
}

/// A peer that tells of its encryption is known by it, and gets in turn how far the collections
/// here have come and a request for everything.
pub proof fn encryption_is_remembered(
    a: Hako,
    n0: NetSyncer,
    b: Hako,
    n1: NetSyncer,
    peer: Seq<char>,
    files: Map<Seq<char>, FileReads>,
    dirs: Seq<Seq<char>>,
    now: u64,
    key_fp: [u8; 32],
    cols: Vec<String>,
    r: NetStep,
    other: Seq<char>,
)
    requires
        heard(a, n0, b, n1, peer, files, dirs, now, NetPacket::SyncCaps { key_fp, encrypted_cols: cols }, r),
    ensures
        told_fp(known_caps(n1.caps@, peer)) == Some(key_fp@),
        names_view(n1.caps@[peer].encrypted_cols@) == names_view(cols@),
        other != peer ==> known_caps(n1.caps@, other) == known_caps(n0.caps@, other),
        r.replies@.len() == 2 && r.replies@[0] is Ping && r.replies@[1] is SyncRequest,
        shard_places(b.shards@, other) == shard_places(a.shards@, other),
{
}

/// Where the log of a collection has grown by anything that is to be sent, a message with it goes
/// to every peer that it may leave for.
pub proof fn growth_spreads(
    a: Hako,
    n0: NetSyncer,
    b: Hako,
    n1: NetSyncer,
    c: Seq<char>,
    ops: Seq<Change>,
    msg_id: u128,
    reads: FileReads,
    r: Option<(NetPacket, Vec<String>)>,
)
    requires
        tail_sent(a, n0, b, n1, c, ops, msg_id, reads, r),
    ensures
        n0.excluded@.contains_key(c) ==> r is None && b == a && n1 == n0,
        !n0.excluded@.contains_key(c) ==> ({
            let t = mesh_tailed(
                n0.echo_cache@,
                ops,
                c,
                a.marks@,
                reads,
                crate::engine::write::shard_end(b.shards@, c) is Some,
                crate::engine::engine::shard_queue(b.shards@, c),
            );
            &&& n1.echo_cache@ == t.echo
            &&& t.out.len() > 0 ==> r is Some
            &&& r matches Some((p, to)) ==> (p matches NetPacket::Replication { msg_id: n, collection, ops: o } && n
                == msg_id && collection@ == c && ops_view(o@) == t.out) && names_view(to@) == fan_out(
                encrypted(a.config, c),
                own_fp(a),
                n0.caps@,
                n0.peers.seq(),
            )
        }),
{
}

/// A new node has its name, no peers, relays nothing, keeps back what it is to, and starts in the
/// log where its checkpoint says.
pub proof fn new_node_is_alone(
    a: Hako,
    b: Hako,
    reads: FileReads,
    r: NetSyncer,
    name: Seq<char>,
    key: Seq<char>,
    excluded: Seq<Seq<char>>,
    mobile: bool,
    now: u64,
    c: Seq<char>,
)
    requires
        node_made(a, b, reads, r, name, key, excluded, mobile, now),
    ensures
        r.self_id@ == name,
        !r.peers@.contains_key(c),
        !r.enable_relay,
        excluded.contains(c) ==> r.excluded@.contains_key(c),
        r.excluded@.contains_key(c) ==> left_out(b.config, excluded, c),
        mobile ==> r.discovery == DiscoveryMode::Broadcast,
        !mobile ==> r.discovery == DiscoveryMode::Mdns,
        !r.caps@.contains_key(c) && !r.echo_cache@.contains_key(c),
{
}

/// A node tells its name, its peers in order and how many there are, and that it is connected
/// where there are any.
pub proof fn status_tells_peers(s: NetworkStatus, id: Seq<char>, peers: Seq<(Seq<char>, ())>, i: int)
    requires
        status_is(s, id, peers),
    ensures
        s.self_id@ == id,
        s.peer_count == peers.len(),
        s.known_peers@.len() == peers.len(),
        0 <= i < peers.len() ==> s.known_peers@[i]@ == peers[i].0,
        peers.len() > 0 ==> s.status == SyncStatus::Connected,
        peers.len() == 0 ==> s.status == SyncStatus::Idle,
{
}

/// The modes of discovery have the numbers 0, 1 and 2, and no other number is one.
pub proof fn modes_are_numbered(v: u8)
    ensures
        numbered_mode(0) == Some(DiscoveryMode::Mdns),
        numbered_mode(1) == Some(DiscoveryMode::Broadcast),
        numbered_mode(2) == Some(DiscoveryMode::Both),
        v > 2 ==> numbered_mode(v) is None,
{
}

/// A checkpoint keeps the offsets that it is made of: who reads it has them again.
pub proof fn checkpoint_keeps_offsets(s: Seq<(Seq<char>, u64)>)
    requires
        ascending::<String, u64>(s),
    ensures
        doc_offsets(checkpoint_doc(s)) == entries_map(s),
{
    let v = Val::Object(offset_fields(s));
    let (e, d) = (empty_doc(), checkpoint_doc(s));
    with_field_holds(e, "offsets"@, v);
    assert(d.map() =~= e.map().insert("offsets"@, v));
    checkpoint_comes_back(s, d);
}

/// A new node gets a document with the values that it links to, where they can be read.
pub proof fn new_node_gets_values(
    e: (Seq<char>, Pointer),
    d: Doc,
    f: Doc,
    marks: Kept,
    c: Seq<char>,
    reads: FileReads,
    queue: Seq<Work>,
)
    requires
        d.fits(),
        e.1@ == Place::Inlined(doc_bytes(d)),
        unmarked(marks, c, e.0),
        resolved_doc(d, true, queue, reads.blobs@) == Some(f),
    ensures
        everything(seq![e], marks, c, reads, true, queue) == seq![Change::Put { key: e.0, value: doc_bytes(f) }],
{
    let none = Seq::<(Seq<char>, Pointer)>::empty();
    assert(seq![e].drop_last() =~= none);
    assert(everything(none, marks, c, reads, true, queue) =~= Seq::<Change>::empty());
    document_round_trip(d);
    unmarked_goes(marks, c, e.0);
    attempt_gives_whole(d, queue, reads.blobs@, 0);
    if !crate::storage::blob::has_links(d) {
        assert forall|k: int| 0 <= k < d.fields.len() implies !crate::storage::blob::is_link((#[trigger] d.fields[k]).1) by {
            assert(!(d.fields[k].1 is BlobLink));
        }
        assert(f == d);
    }
    let p = Change::Put { key: e.0, value: doc_bytes(f) };
    assert(Seq::<Change>::empty().push(p) =~= seq![p]);
}

/// A node tells of a collection that it is encrypted if and only if the collection is among those
/// that replicate and its configuration encrypts it; its key it tells by the fingerprint.
pub proof fn node_tells_encryption(a: Hako, dirs: Seq<Seq<char>>, key_fp: [u8; 32], cols: Vec<String>, c: Seq<char>)
    requires
        tells_caps(a, dirs, NetPacket::SyncCaps { key_fp, encrypted_cols: cols }),
    ensures
        names_view(cols@).contains(c) <==> syncing_of(a.config, dirs).contains(c) && encrypted(a.config, c),
        a.config.encryption_key matches Some(k) ==> key_fp@ == fingerprint(Some(k@)),
        a.config.encryption_key is None ==> key_fp@ == fingerprint(None),
{
    let names = choose|names: Seq<Seq<char>>| #[trigger]
        sorted_from(names, syncing_of(a.config, dirs)) && caps_of(
            a.config,
            names,
            PeerCaps { key_fp, encrypted_cols: cols },
        );
    sorted_holds(names, syncing_of(a.config, dirs), c);
    encrypted_among_names(a.config, names, c);
}

proof fn encrypted_among_names(config: HakoConfig, names: Seq<Seq<char>>, c: Seq<char>)
    ensures
        encrypted_of(config, names).contains(c) <==> names.contains(c) && encrypted(config, c),
    decreases names.len(),
{
    if names.len() > 0 {
        let pre = names.drop_last();
        encrypted_among_names(config, pre, c);
        let x = names.last();
        assert(names =~= pre.push(x));
        if names.contains(c) && c != x {
            let i = names.index_of(c);
            assert(pre[i] == c);
        }
        if pre.contains(c) {
            let i = pre.index_of(c);
            assert(names[i] == c);
        }
        let e = encrypted_of(config, pre);
        if e.push(x).contains(c) && c != x {
            let i = e.push(x).index_of(c);
            assert(e[i] == c);
        }
        if e.contains(c) {
            let i = e.index_of(c);
            assert(e.push(x)[i] == c);
        }
        assert(e.push(x)[e.len() as int] == x);
    }
}

/// The nodes that were found are known by their addresses, in the order in which they were found.
pub proof fn found_nodes_have_addresses(s: Seq<(Seq<char>, Sighting)>, i: int)
    requires
        0 <= i < s.len(),
    ensures
        found(s).len() == s.len(),
        found(s)[i].0 == s[i].0,
        found(s)[i].1 == s[i].1.addr@,
{
}

/// A change of a document that lies in a file spreads as the document that is read from there, with
/// the values that it links to.
pub proof fn document_of_a_file_spreads(
    echo: Map<Seq<char>, i64>,
    ops: Seq<Change>,
    op: Change,
    c: Seq<char>,
    marks: Kept,
    reads: FileReads,
    has_file: bool,
    queue: Seq<Work>,
    key: Seq<char>,
    d: Doc,
    f: Doc,
)
    requires
        match op {
            Change::Segment { key: k, .. } => k == key,
            Change::Blob { key: k, .. } => k == key,
            _ => false,
        },
        d.fits(),
        reads.documents@.contains_key(key),
        reads.documents@[key]@ == doc_bytes(d),
        resolved_doc(d, has_file, queue, reads.blobs@) == Some(f),
        unmarked(marks, c, key),
        !mesh_tailed(echo, ops, c, marks, reads, has_file, queue).echo.contains_key(key),
    ensures
        mesh_tailed(echo, ops.push(op), c, marks, reads, has_file, queue).out == mesh_tailed(
            echo,
            ops,
            c,
            marks,
            reads,
            has_file,
            queue,
        ).out.push(Change::Put { key, value: doc_bytes(f) }),
{
    own_change_spreads(echo, ops, c, marks, reads, has_file, queue, key, 0, d, f, false);
    let put = Change::Put { key, value: doc_bytes(d) };
    assert(ops.push(op).drop_last() =~= ops);
    assert(ops.push(put).drop_last() =~= ops);
    assert(ops.push(op).last() == op);
    assert(ops.push(put).last() == put);
    assert(change_key(op) == key);
    unmarked_goes(marks, c, key);
}

/// Changes of another node that are taken are one entry of the log, with the number that is due; the
/// values that they bring wait behind those that do, and the file of values is to end behind them.
pub proof fn taken_is_one_entry(
    a: Hako,
    e0: Map<Seq<char>, i64>,
    b: Hako,
    e1: Map<Seq<char>, i64>,
    c: Seq<char>,
    ops: Seq<Change>,
    reads: FileReads,
    r: Option<Applied>,
)
    requires
        intake_done(a, e0, b, e1, c, ops, reads, r),
        a.shards@.contains_key(c),
        r is Some,
    ensures
        b.shards@.contains_key(c),
        r->Some_0.tx_id == a.shards@[c].next_tx_id,
        b.shards@[c].next_tx_id == (if a.shards@[c].next_tx_id < u64::MAX {
            (a.shards@[c].next_tx_id + 1) as u64
        } else {
            0
        }),
        works_view(b.shards@[c].blob_flush_queue@) == works_view(a.shards@[c].blob_flush_queue@) + taken(
            ops,
            a.shards@[c].places(),
            a.shards@[c].blob_end,
            reads,
            a.config.value_blob_threshold_bytes as nat,
        ).works,
        b.shards@[c].blob_end == taken(
            ops,
            a.shards@[c].places(),
            a.shards@[c].blob_end,
            reads,
            a.config.value_blob_threshold_bytes as nat,
        ).end,
{
}

/// A node goes on from the offsets that its checkpoint keeps; without a checkpoint it begins anew.
pub proof fn checkpoint_is_taken_up(s: Seq<(Seq<char>, u64)>, d: FireLiteDoc, e: HakoError)
    requires
        ascending::<String, u64>(s),
        d@ == checkpoint_doc(s),
    ensures
        kept_offsets(Ok(Some(d))) == entries_map(s),
        kept_offsets(Ok(None)) == Map::<Seq<char>, u64>::empty(),
        kept_offsets(Err(e)) == Map::<Seq<char>, u64>::empty(),
{
    checkpoint_keeps_offsets(s);
}

} // verus!
