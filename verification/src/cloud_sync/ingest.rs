//! What comes in from the other side: which changes are taken, and to whom they go on.
use vstd::prelude::*;
use vstd::string::*;

use crate::cloud_sync::rooms::{echo_key, echo_name, storage_col_name, storage_name};
use crate::directory::NameTable;
use crate::document::firelite_doc::{names_contain, names_view, Doc};
use crate::engine::access::{encrypted, is_collection_encrypted, permitted};
use crate::engine::engine::{read_result, ready_doc, Hako};
use crate::engine::files::{files_wf, reads_are, reads_for, FileReads};
use crate::engine::remote::{remote_time, replicated, replication_is, time_of_remote, weighed};
use crate::engine::types::AccessOp;
use crate::engine::write::Applied;
use crate::sorted_map::SortedMap;
use crate::storage::wal::{change_key, ops_view, Change, WalOp};
use crate::sync_guard::{
    caps_allow, config_fingerprint, fingerprint, flows, known_caps, store_key, told_fp, CapsMap, PeerCaps,
};
use crate::text::same_text;

verus! {

/// How many changes may wait before they are taken in at once.
pub const INGEST_LIMIT: usize = 512;

/// How many changes from elsewhere are remembered before old ones are dropped.
pub const ECHO_CAPACITY: usize = 10_000;

/// How long a change from elsewhere is remembered, in microseconds.
pub const ECHO_LIFE: i64 = 300_000_000;

/// The changes that came from elsewhere, each with its time.
pub type EchoCache = SortedMap<String, i64>;

/// The peers of a server, each with the prefix of its room.
pub type PeerMap = SortedMap<String, String>;

/// A change that came in.
pub struct IngestItem {
    pub collection: String,
    pub prefix: String,
    pub op: WalOp,
    /// The peer that it came from; a client does not tell.
    pub sender_client_id: Option<String>,
}

/// What a change that came in stands for.
#[verifier::ext_equal]
pub struct Item {
    pub collection: Seq<char>,
    pub prefix: Seq<char>,
    pub op: Change,
    pub sender: Option<Seq<char>>,
}

/// The text that there may be.
pub open spec fn text_view(s: Option<String>) -> Option<Seq<char>> {
    match s {
        Some(t) => Some(t@),
        None => None,
    }
}

impl View for IngestItem {
    type V = Item;

    open spec fn view(&self) -> Item {
        Item {
            collection: self.collection@,
            prefix: self.prefix@,
            op: self.op@,
            sender: text_view(self.sender_client_id),
        }
    }
}

/// What changes that came in stand for.
pub open spec fn items_view(s: Seq<IngestItem>) -> Seq<Item> {
    Seq::new(s.len(), |i: int| s[i]@)
}

impl Clone for IngestItem {
    fn clone(&self) -> (r: IngestItem)
        ensures
            r@ == self@,
    {
        IngestItem {
            collection: self.collection.clone(),
            prefix: self.prefix.clone(),
            op: self.op.clone(),
            sender_client_id: match &self.sender_client_id {
                Some(s) => Some(s.clone()),
                None => None,
            },
        }
    }
}

/// Whether changes may be taken from a peer: where this store encrypts the collection,
/// only if the peer holds the same key. Who has no sender to tell is trusted.
pub open spec fn admitted(enc: bool, local_fp: Seq<u8>, caps: Map<Seq<char>, PeerCaps>, sender: Option<Seq<char>>) -> bool {
    match sender {
        None => true,
        Some(s) => flows(enc, local_fp, told_fp(known_caps(caps, s))),
    }
}

/// Whether a change is taken: its sender is admitted, it has a time, and it is newer than
/// the document here.
pub open spec fn judged_one(
    a: Hako,
    b: Hako,
    reads: FileReads,
    c: Seq<char>,
    welcome: bool,
    op: Change,
    ok: bool,
) -> bool {
    if !welcome || !(op is Put || op is Delete) || (op is Put && remote_time(op) == 0) {
        !ok && b == a
    } else {
        weighed(a, b, reads, c, change_key(op), remote_time(op), ok)
    }
}

/// Which changes are taken, one after the other.
pub open spec fn judged(
    a: Hako,
    b: Hako,
    reads: FileReads,
    c: Seq<char>,
    enc: bool,
    local_fp: Seq<u8>,
    caps: Map<Seq<char>, PeerCaps>,
    items: Seq<Item>,
    oks: Seq<bool>,
) -> bool {
    exists|t: Seq<Hako>| #[trigger] judged_along(t, a, b, reads, c, enc, local_fp, caps, items, oks)
}

/// Which changes are taken, where `t` are the states of the store between them.
pub open spec fn judged_along(
    t: Seq<Hako>,
    a: Hako,
    b: Hako,
    reads: FileReads,
    c: Seq<char>,
    enc: bool,
    local_fp: Seq<u8>,
    caps: Map<Seq<char>, PeerCaps>,
    items: Seq<Item>,
    oks: Seq<bool>,
) -> bool {
    &&& oks.len() == items.len()
    &&& t.len() == items.len() + 1
    &&& t[0] == a
    &&& t.last() == b
    &&& forall|i: int|
        0 <= i < items.len() ==> judged_one(
            t[i],
            t[i + 1],
            reads,
            c,
            admitted(enc, local_fp, caps, (#[trigger] items[i]).sender),
            items[i].op,
            oks[i],
        )
}

/// The changes that are taken.
pub open spec fn taken(items: Seq<Item>, oks: Seq<bool>) -> Seq<Item>
    decreases items.len(),
{
    if items.len() == 0 {
        items
    } else {
        let before = taken(items.drop_last(), oks.drop_last());
        if oks.last() {
            before.push(items.last())
        } else {
            before
        }
    }
}

/// The operations of changes.
pub open spec fn item_ops(items: Seq<Item>) -> Seq<Change> {
    Seq::new(items.len(), |i: int| items[i].op)
}

/// What is remembered after changes were taken.
pub open spec fn echoed(
    m: Map<Seq<char>, i64>,
    prefix: Seq<char>,
    plain: Seq<char>,
    items: Seq<Item>,
) -> Map<Seq<char>, i64>
    decreases items.len(),
{
    if items.len() == 0 {
        m
    } else {
        echoed(m, prefix, plain, items.drop_last()).insert(
            echo_name(prefix, plain, change_key(items.last().op)),
            remote_time(items.last().op),
        )
    }
}

/// What is remembered once old changes were dropped; they are only where there are many.
pub open spec fn pruned(m: Map<Seq<char>, i64>, count: nat, now_micros: i64) -> Map<Seq<char>, i64> {
    if count > ECHO_CAPACITY {
        m.restrict(Set::new(|k: Seq<char>| m.contains_key(k) && m[k] > now_micros - ECHO_LIFE))
    } else {
        m
    }
}

/// The operations of one sender.
pub open spec fn ops_from(items: Seq<Item>, sender: Option<Seq<char>>) -> Seq<Change>
    decreases items.len(),
{
    if items.len() == 0 {
        Seq::empty()
    } else {
        let before = ops_from(items.drop_last(), sender);
        if items.last().sender == sender {
            before.push(items.last().op)
        } else {
            before
        }
    }
}

/// Whether a peer may hear what a peer that encrypts a collection has sent.
pub open spec fn origin_allows(
    caps: Map<Seq<char>, PeerCaps>,
    origin: Option<Seq<char>>,
    plain: Seq<char>,
    peer: Seq<char>,
) -> bool {
    match origin {
        Some(o) => match known_caps(caps, o) {
            Some(k) => flows(names_view(k.encrypted_cols@).contains(plain), k.key_fp@, told_fp(known_caps(caps, peer))),
            None => true,
        },
        None => true,
    }
}

/// Whether a peer hears of changes: it is in the same room, they are not its own, and both
/// the peer that sent them and this store allow it.
pub open spec fn hears(
    prefix: Seq<char>,
    plain: Seq<char>,
    enc: bool,
    local_fp: Seq<u8>,
    caps: Map<Seq<char>, PeerCaps>,
    origin: Option<Seq<char>>,
    peer: Seq<char>,
    peer_prefix: Seq<char>,
) -> bool {
    &&& peer_prefix == prefix
    &&& origin != Some(peer)
    &&& origin_allows(caps, origin, plain, peer)
    &&& flows(enc, local_fp, told_fp(known_caps(caps, peer)))
}

/// The peers that hear of changes, in order.
pub open spec fn recipients(
    prefix: Seq<char>,
    plain: Seq<char>,
    enc: bool,
    local_fp: Seq<u8>,
    caps: Map<Seq<char>, PeerCaps>,
    origin: Option<Seq<char>>,
    peers: Seq<(Seq<char>, String)>,
) -> Seq<Seq<char>>
    decreases peers.len(),
{
    if peers.len() == 0 {
        Seq::empty()
    } else {
        let before = recipients(prefix, plain, enc, local_fp, caps, origin, peers.drop_last());
        let (peer, p) = peers.last();
        if hears(prefix, plain, enc, local_fp, caps, origin, peer, p@) {
            before.push(peer)
        } else {
            before
        }
    }
}

/// Changes are heard only by members of the room that they were made in, and never by the
/// peer that made them; of a collection that this store or the sender encrypts, only by peers
/// that told of the same key.
pub proof fn relays_stay_in_room(
    prefix: Seq<char>,
    plain: Seq<char>,
    enc: bool,
    local_fp: Seq<u8>,
    caps: Map<Seq<char>, PeerCaps>,
    origin: Option<Seq<char>>,
    peers: Seq<(Seq<char>, String)>,
    x: Seq<char>,
)
    requires
        recipients(prefix, plain, enc, local_fp, caps, origin, peers).contains(x),
    ensures
        origin != Some(x),
        exists|i: int| 0 <= i < peers.len() && (#[trigger] peers[i]).0 == x && peers[i].1@ == prefix,
        enc ==> told_fp(known_caps(caps, x)) == Some(local_fp),
        origin_allows(caps, origin, plain, x),
    decreases peers.len(),
{
    if peers.len() > 0 {
        let pre = peers.drop_last();
        let a = recipients(prefix, plain, enc, local_fp, caps, origin, pre);
        let b = recipients(prefix, plain, enc, local_fp, caps, origin, peers);
        let i = choose|i: int| 0 <= i < b.len() && b[i] == x;
        if i < a.len() {
            assert(a[i] == x);
            relays_stay_in_room(prefix, plain, enc, local_fp, caps, origin, pre, x);
            let j = choose|j: int| 0 <= j < pre.len() && (#[trigger] pre[j]).0 == x && pre[j].1@ == prefix;
            assert(peers[j] == pre[j]);
        } else {
            assert(peers[peers.len() - 1] == peers.last());
        }
    }
}

/// Changes that go on to other peers.
pub struct Relay {
    pub origin: Option<String>,
    pub ops: Vec<WalOp>,
    pub recipients: Vec<String>,
}

/// What became of the changes of a collection.
pub struct Flush {
    pub collection: String,
    /// What goes into the log; nothing where no change was taken.
    pub applied: Option<Applied>,
    pub relays: Vec<Relay>,
}

/// The senders of changes are those of relays, once each, and each relay holds what its
/// sender sent.
pub open spec fn relayed(items: Seq<Item>, r: Seq<Relay>) -> bool {
    &&& forall|i: int, j: int|
        #![trigger r[i], r[j]]
        0 <= i < j < r.len() ==> text_view(r[i].origin) != text_view(r[j].origin)
    &&& forall|i: int|
        0 <= i < r.len() ==> ops_view((#[trigger] r[i]).ops@) == ops_from(items, text_view(r[i].origin)) && r[i].ops@.len()
            > 0
    &&& forall|k: int| 0 <= k < items.len() ==> sender_listed(r, (#[trigger] items[k]).sender)
}

/// Whether a sender is the origin of a relay.
pub open spec fn sender_listed(r: Seq<Relay>, sender: Option<Seq<char>>) -> bool {
    exists|i: int| 0 <= i < r.len() && text_view((#[trigger] r[i]).origin) == sender
}

/// What is known beside the store: the peers, and what they have told.
pub struct Circle {
    pub caps: Map<Seq<char>, PeerCaps>,
    pub peers: Seq<(Seq<char>, String)>,
}

/// Whether the collection of a room is encrypted here, under either of its names.
pub open spec fn encrypts(db: Hako, storage: Seq<char>, plain: Seq<char>) -> bool {
    encrypted(db.config, storage) || encrypted(db.config, plain)
}

/// The fingerprint of the key of a store.
pub open spec fn own_fp(db: Hako) -> Seq<u8> {
    fingerprint(store_key(db.config))
}

/// What became of changes of a collection: nothing where it stays on this device; else
/// those that are taken are applied, remembered, and go on to the other peers of the room.
pub open spec fn flushed_one(
    a: Hako,
    e0: Map<Seq<char>, i64>,
    b: Hako,
    e1: Map<Seq<char>, i64>,
    circle: Circle,
    reads: FileReads,
    c: Seq<char>,
    items: Seq<Item>,
    r: Flush,
) -> bool {
    &&& r.collection@ == c
    &&& if items.len() == 0 || a.marks@.collections.contains(items[0].collection) {
        b == a && e1 == e0 && r.applied is None && r.relays@.len() == 0
    } else {
        exists|m: Hako, oks: Seq<bool>|
            #![trigger judged(a, m, reads, c, encrypts(a, c, items[0].collection), own_fp(a), circle.caps, items, oks)]
            judged(a, m, reads, c, encrypts(a, c, items[0].collection), own_fp(a), circle.caps, items, oks) && took(
                m,
                e0,
                b,
                e1,
                circle,
                c,
                items[0].prefix,
                items[0].collection,
                encrypts(a, c, items[0].collection),
                own_fp(a),
                taken(items, oks),
                r,
            )
    }
}

/// What became of changes that are taken.
pub open spec fn took(
    a: Hako,
    e0: Map<Seq<char>, i64>,
    b: Hako,
    e1: Map<Seq<char>, i64>,
    circle: Circle,
    c: Seq<char>,
    prefix: Seq<char>,
    plain: Seq<char>,
    enc: bool,
    local_fp: Seq<u8>,
    items: Seq<Item>,
    r: Flush,
) -> bool {
    &&& e1 == echoed(e0, prefix, plain, items)
    &&& if items.len() == 0 {
        b == a && r.applied is None
    } else {
        &&& replicated(a, b, c, item_ops(items))
        &&& r.applied is Some
        &&& replication_is(r.applied->Some_0, a, c, item_ops(items))
    }
    &&& relayed(items, r.relays@)
    &&& forall|i: int|
        0 <= i < r.relays@.len() ==> names_view((#[trigger] r.relays@[i]).recipients@) == recipients(
            prefix,
            plain,
            enc,
            local_fp,
            circle.caps,
            text_view(r.relays@[i].origin),
            circle.peers,
        )
}

/// One more change is judged after the others.
proof fn judged_step(
    a: Hako,
    m: Hako,
    b: Hako,
    reads: FileReads,
    c: Seq<char>,
    enc: bool,
    local_fp: Seq<u8>,
    caps: Map<Seq<char>, PeerCaps>,
    items: Seq<Item>,
    oks: Seq<bool>,
    item: Item,
    ok: bool,
)
    requires
        judged(a, m, reads, c, enc, local_fp, caps, items, oks),
        judged_one(m, b, reads, c, admitted(enc, local_fp, caps, item.sender), item.op, ok),
    ensures
        judged(a, b, reads, c, enc, local_fp, caps, items.push(item), oks.push(ok)),
{
    let t = choose|t: Seq<Hako>| #[trigger] judged_along(t, a, m, reads, c, enc, local_fp, caps, items, oks);
    let t2 = t.push(b);
    let i2 = items.push(item);
    let o2 = oks.push(ok);
    assert forall|i: int| 0 <= i < i2.len() implies judged_one(
        t2[i],
        t2[i + 1],
        reads,
        c,
        admitted(enc, local_fp, caps, (#[trigger] i2[i]).sender),
        i2[i].op,
        o2[i],
    ) by {
        if i < items.len() {
            assert(i2[i] == items[i]);
            assert(t2[i] == t[i] && t2[i + 1] == t[i + 1]);
        }
    }
    assert(judged_along(t2, a, b, reads, c, enc, local_fp, caps, i2, o2));
}

/// A change that is not newer than the document here is turned away, whoever sent it.
pub proof fn stale_is_turned_away(
    a: Hako,
    b: Hako,
    reads: FileReads,
    c: Seq<char>,
    welcome: bool,
    op: Change,
    ok: bool,
    d: Doc,
)
    requires
        judged_one(a, b, reads, c, welcome, op, ok),
        permitted(a.security_rules@, c, AccessOp::Get),
        ready_doc(a, c, change_key(op)) is None,
        read_result(a.shards@, c, change_key(op), reads) == Some(Some(d)),
        remote_time(op) <= d.time,
    ensures
        !ok,
{
}

/// Nothing is taken for a collection that this store encrypts from a peer that has not told
/// of the same key.
pub proof fn strangers_are_turned_away(
    a: Hako,
    b: Hako,
    reads: FileReads,
    c: Seq<char>,
    caps: Map<Seq<char>, PeerCaps>,
    sender: Seq<char>,
    op: Change,
    ok: bool,
)
    requires
        judged_one(a, b, reads, c, admitted(true, own_fp(a), caps, Some(sender)), op, ok),
        told_fp(known_caps(caps, sender)) != Some(own_fp(a)),
    ensures
        !ok,
        b == a,
{
}

/// Decides which changes are taken, one after the other.
fn judge(
    db: &mut Hako,
    storage_col: &str,
    reads: &FileReads,
    enc: bool,
    local_fp: &[u8; 32],
    caps: &CapsMap,
    items: &Vec<IngestItem>,
) -> (oks: Vec<bool>)
    requires
        old(db).wf(),
        reads.wf(),
        caps.wf(),
    ensures
        final(db).wf(),
        judged(
            *old(db),
            *final(db),
            *reads,
            storage_col@,
            enc,
            local_fp@,
            caps@,
            items_view(items@),
            oks@,
        ),
{
    let ghost s = items_view(items@);
    let ghost start = *db;
    let mut oks: Vec<bool> = Vec::new();
    let mut i: usize = 0;
    proof {
        assert(s.take(0) =~= Seq::<Item>::empty());
        assert(judged_along(seq![start], start, *db, *reads, storage_col@, enc, local_fp@, caps@, s.take(0), oks@));
    }
    while i < items.len()
        invariant
            db.wf(),
            reads.wf(),
            caps.wf(),
            s == items_view(items@),
            i <= items@.len(),
            judged(start, *db, *reads, storage_col@, enc, local_fp@, caps@, s.take(i as int), oks@),
        decreases items@.len() - i,
    {
        let ghost before = *db;
        let ghost prior = oks@;
        let item = &items[i];
        let welcome: bool = match &item.sender_client_id {
            None => true,
            Some(k) => caps_allow(enc, local_fp, caps.get(k)),
        };
        let counts: bool = match &item.op {
            WalOp::PutInlined { .. } => time_of_remote(&item.op) != 0,
            WalOp::Delete { .. } => true,
            _ => false,
        };
        let ok: bool = if welcome && counts {
            let t = time_of_remote(&item.op);
            db.is_newer_than_local(storage_col, item.op.get_key().as_str(), t, reads)
        } else {
            false
        };
        oks.push(ok);
        proof {
            assert(s[i as int] == item@);
            assert(welcome == admitted(enc, local_fp@, caps@, s[i as int].sender));
            assert(judged_one(before, *db, *reads, storage_col@, welcome, s[i as int].op, ok));
            judged_step(
                start,
                before,
                *db,
                *reads,
                storage_col@,
                enc,
                local_fp@,
                caps@,
                s.take(i as int),
                prior,
                s[i as int],
                ok,
            );
            assert(s.take(i as int).push(s[i as int]) =~= s.take(i + 1));
        }
        i = i + 1;
    }
    proof {
        assert(s.take(i as int) =~= s);
    }
    oks
}

/// The changes that are taken.
fn take_items(items: &Vec<IngestItem>, oks: &Vec<bool>) -> (r: Vec<IngestItem>)
    requires
        items@.len() == oks@.len(),
    ensures
        items_view(r@) == taken(items_view(items@), oks@),
{
    let ghost s = items_view(items@);
    let mut r: Vec<IngestItem> = Vec::new();
    let mut i: usize = 0;
    proof {
        assert(s.take(0) =~= Seq::<Item>::empty());
        assert(items_view(r@) =~= Seq::<Item>::empty());
    }
    while i < items.len()
        invariant
            items@.len() == oks@.len(),
            s == items_view(items@),
            i <= items@.len(),
            items_view(r@) == taken(s.take(i as int), oks@.take(i as int)),
        decreases items@.len() - i,
    {
        proof {
            assert(s.take(i + 1).drop_last() =~= s.take(i as int));
            assert(s.take(i + 1).last() == s[i as int]);
            assert(oks@.take(i + 1).drop_last() =~= oks@.take(i as int));
            assert(oks@.take(i + 1).last() == oks@[i as int]);
        }
        if oks[i] {
            let ghost before = r@;
            r.push(items[i].clone());
            proof {
                assert(items_view(r@) =~= items_view(before).push(s[i as int]));
            }
        }
        i = i + 1;
    }
    proof {
        assert(s.take(i as int) =~= s);
        assert(oks@.take(i as int) =~= oks@);
    }
    r
}

/// Remembers changes that were taken.
fn remember(echo: &mut EchoCache, prefix: &str, plain_col: &str, items: &Vec<IngestItem>)
    requires
        old(echo).wf(),
    ensures
        final(echo).wf(),
        final(echo)@ == echoed(old(echo)@, prefix@, plain_col@, items_view(items@)),
{
    let ghost s = items_view(items@);
    let ghost m = echo@;
    let mut i: usize = 0;
    proof {
        assert(s.take(0) =~= Seq::<Item>::empty());
    }
    while i < items.len()
        invariant
            echo.wf(),
            s == items_view(items@),
            i <= items@.len(),
            echo@ == echoed(m, prefix@, plain_col@, s.take(i as int)),
        decreases items@.len() - i,
    {
        proof {
            assert(s.take(i + 1).drop_last() =~= s.take(i as int));
            assert(s.take(i + 1).last() == s[i as int]);
        }
        let had = echo.insert(echo_key(prefix, plain_col, items[i].op.get_key().as_str()), time_of_remote(&items[i].op));
        i = i + 1;
    }
    proof {
        assert(s.take(i as int) =~= s);
    }
}

/// Drops old changes from those that are remembered, where there are many.
pub fn prune_echoes(echo: &mut EchoCache, now_micros: i64)
    requires
        old(echo).wf(),
        now_micros >= 0,
    ensures
        final(echo).wf(),
        final(echo)@ == pruned(old(echo)@, old(echo).seq().len(), now_micros),
{
    if echo.len() <= ECHO_CAPACITY {
        return;
    }
    let cutoff: i64 = now_micros - ECHO_LIFE;
    let ghost m = echo@;
    let ghost s = echo.seq();
    let mut i: usize = 0;
    while i < echo.len()
        invariant
            echo.wf(),
            cutoff == now_micros - ECHO_LIFE,
            i <= echo.seq().len(),
            forall|k: Seq<char>| #[trigger] echo@.contains_key(k) ==> m.contains_key(k) && echo@[k] == m[k],
            forall|k: Seq<char>| #[trigger] m.contains_key(k) && m[k] > cutoff ==> echo@.contains_key(k),
            forall|j: int| 0 <= j < i ==> (#[trigger] echo.seq()[j]).1 > cutoff,
        decreases echo.seq().len() - i,
    {
        let ghost before = echo.seq();
        let ghost held = echo@;
        let t: i64 = *echo.entry(i).1;
        proof {
            crate::sorted_map::ascending_entry::<String, i64>(before, i as int);
        }
        if t > cutoff {
            i = i + 1;
        } else {
            let gone = echo.remove_at(i);
            proof {
                assert forall|j: int| 0 <= j < i implies (#[trigger] echo.seq()[j]).1 > cutoff by {
                    assert(echo.seq()[j] == before[j]);
                }
            }
        }
    }
    proof {
        assert forall|k: Seq<char>| #[trigger] echo@.contains_key(k) implies echo@[k] > cutoff by {
            let j = choose|j: int| 0 <= j < echo.seq().len() && #[trigger] echo.seq()[j].0 == k;
            crate::sorted_map::ascending_entry::<String, i64>(echo.seq(), j);
        }
        assert(echo@ =~= pruned(m, s.len(), now_micros));
    }
}

/// The operations of changes.
fn ops_of(items: &Vec<IngestItem>) -> (r: Vec<WalOp>)
    ensures
        ops_view(r@) == item_ops(items_view(items@)),
{
    let mut r: Vec<WalOp> = Vec::new();
    let mut i: usize = 0;
    while i < items.len()
        invariant
            i <= items@.len(),
            r@.len() == i,
            forall|k: int| 0 <= k < i ==> (#[trigger] r@[k])@ == items@[k].op@,
        decreases items@.len() - i,
    {
        r.push(items[i].op.clone());
        i = i + 1;
    }
    proof {
        assert(ops_view(r@) =~= item_ops(items_view(items@)));
    }
    r
}

/// Whether two senders are the same.
fn same_sender(a: &Option<String>, b: &Option<String>) -> (r: bool)
    ensures
        r == (text_view(*a) == text_view(*b)),
{
    match (a, b) {
        (None, None) => true,
        (Some(x), Some(y)) => same_text(x.as_str(), y.as_str()),
        _ => false,
    }
}

/// Where the relay of a sender stands, if there is one.
fn find_relay(relays: &Vec<Relay>, sender: &Option<String>) -> (r: Option<usize>)
    ensures
        match r {
            Some(i) => i < relays@.len() && text_view(relays@[i as int].origin) == text_view(*sender),
            None => !sender_listed(relays@, text_view(*sender)),
        },
{
    let mut i: usize = 0;
    while i < relays.len()
        invariant
            i <= relays@.len(),
            forall|k: int| 0 <= k < i ==> text_view((#[trigger] relays@[k]).origin) != text_view(*sender),
        decreases relays@.len() - i,
    {
        if same_sender(&relays[i].origin, sender) {
            return Some(i);
        }
        i = i + 1;
    }
    None
}

/// A sender that sent nothing has no operations.
proof fn nothing_from(items: Seq<Item>, sender: Option<Seq<char>>)
    requires
        forall|k: int| 0 <= k < items.len() ==> (#[trigger] items[k]).sender != sender,
    ensures
        ops_from(items, sender) == Seq::<Change>::empty(),
    decreases items.len(),
{
    if items.len() > 0 {
        let pre = items.drop_last();
        assert(items[items.len() - 1].sender != sender);
        assert forall|k: int| 0 <= k < pre.len() implies (#[trigger] pre[k]).sender != sender by {
            assert(pre[k] == items[k]);
        }
        nothing_from(pre, sender);
    }
}

/// What each sender sent goes on by itself.
#[verifier::rlimit(40)]
fn group(items: &Vec<IngestItem>) -> (relays: Vec<Relay>)
    ensures
        relayed(items_view(items@), relays@),
{
    let ghost s = items_view(items@);
    let mut relays: Vec<Relay> = Vec::new();
    let mut i: usize = 0;
    proof {
        assert(s.take(0) =~= Seq::<Item>::empty());
    }
    while i < items.len()
        invariant
            s == items_view(items@),
            i <= items@.len(),
            relayed(s.take(i as int), relays@),
        decreases items@.len() - i,
    {
        let ghost before = relays@;
        let ghost a = s.take(i as int);
        let ghost b = s.take(i + 1);
        let ghost from = s[i as int].sender;
        proof {
            assert(b.drop_last() =~= a);
            assert(b.last() == s[i as int]);
            assert(s[i as int] == items@[i as int]@);
        }
        match find_relay(&relays, &items[i].sender_client_id) {
            Some(at) => {
                let mut relay = relays.remove(at);
                let ghost list = relay.ops@;
                relay.ops.push(items[i].op.clone());
                proof {
                    assert(ops_view(relay.ops@) =~= ops_view(list).push(s[i as int].op));
                    assert(list == before[at as int].ops@);
                }
                let ghost grown = relay;
                relays.insert(at, relay);
                proof {
                    assert(relays@ =~= before.update(at as int, grown));
                    assert forall|k: int| 0 <= k < relays@.len() implies ops_view((#[trigger] relays@[k]).ops@) == ops_from(
                        b,
                        text_view(relays@[k].origin),
                    ) && relays@[k].ops@.len() > 0 by {
                        assert(ops_view(before[k].ops@) == ops_from(a, text_view(before[k].origin)));
                        if k != at {
                            assert(relays@[k] == before[k]);
                            assert(before[at as int].origin == grown.origin);
                            assert(text_view(before[k].origin) != text_view(before[at as int].origin));
                        }
                    }
                    assert forall|k: int| 0 <= k < b.len() implies sender_listed(relays@, (#[trigger] b[k]).sender) by {
                        if k < i {
                            assert(b[k] == a[k]);
                            assert(sender_listed(before, a[k].sender));
                            let j = choose|j: int| 0 <= j < before.len() && text_view((#[trigger] before[j]).origin) == a[k].sender;
                            assert(text_view(relays@[j].origin) == a[k].sender);
                        } else {
                            assert(text_view(relays@[at as int].origin) == from);
                        }
                    }
                    assert forall|x: int, y: int|
                        #![trigger relays@[x], relays@[y]]
                        0 <= x < y < relays@.len() implies text_view(relays@[x].origin) != text_view(relays@[y].origin) by {
                        assert(text_view(before[x].origin) != text_view(before[y].origin));
                    }
                }
            },
            None => {
                let origin = match &items[i].sender_client_id {
                    Some(t) => Some(t.clone()),
                    None => None,
                };
                let mut ops: Vec<WalOp> = Vec::new();
                ops.push(items[i].op.clone());
                proof {
                    assert forall|k: int| 0 <= k < a.len() implies (#[trigger] a[k]).sender != from by {
                        assert(sender_listed(before, a[k].sender));
                    }
                    nothing_from(a, from);
                    assert(ops_view(ops@) =~= ops_from(b, from));
                }
                relays.push(Relay { origin, ops, recipients: Vec::new() });
                proof {
                    assert forall|k: int| 0 <= k < relays@.len() implies ops_view((#[trigger] relays@[k]).ops@) == ops_from(
                        b,
                        text_view(relays@[k].origin),
                    ) && relays@[k].ops@.len() > 0 by {
                        if k < before.len() {
                            assert(relays@[k] == before[k]);
                            assert(text_view(before[k].origin) != from);
                        }
                    }
                    assert forall|k: int| 0 <= k < b.len() implies sender_listed(relays@, (#[trigger] b[k]).sender) by {
                        if k < i {
                            assert(b[k] == a[k]);
                            assert(sender_listed(before, a[k].sender));
                            let j = choose|j: int| 0 <= j < before.len() && text_view((#[trigger] before[j]).origin) == a[k].sender;
                            assert(relays@[j] == before[j]);
                        } else {
                            assert(text_view(relays@[before.len() as int].origin) == from);
                        }
                    }
                    assert forall|x: int, y: int|
                        #![trigger relays@[x], relays@[y]]
                        0 <= x < y < relays@.len() implies text_view(relays@[x].origin) != text_view(relays@[y].origin) by {
                        if y < before.len() {
                            assert(text_view(before[x].origin) != text_view(before[y].origin));
                        } else {
                            assert(text_view(before[x].origin) != from);
                        }
                    }
                }
            },
        }
        i = i + 1;
    }
    proof {
        assert(s.take(i as int) =~= s);
    }
    relays
}

/// The peers that hear of changes.
pub fn relay_to(
    prefix: &str,
    plain_col: &str,
    enc: bool,
    local_fp: &[u8; 32],
    caps: &CapsMap,
    origin: &Option<String>,
    peers: &PeerMap,
) -> (r: Vec<String>)
    requires
        caps.wf(),
    ensures
        names_view(r@) == recipients(prefix@, plain_col@, enc, local_fp@, caps@, text_view(*origin), peers.seq()),
{
    let ghost s = peers.seq();
    let ghost o = text_view(*origin);
    let known: Option<&PeerCaps> = match origin {
        Some(k) => caps.get(k),
        None => None,
    };
    let mut r: Vec<String> = Vec::new();
    let mut i: usize = 0;
    proof {
        assert(s.take(0) =~= Seq::<(Seq<char>, String)>::empty());
        assert(names_view(r@) =~= Seq::<Seq<char>>::empty());
    }
    while i < peers.len()
        invariant
            caps.wf(),
            s == peers.seq(),
            o == text_view(*origin),
            i <= s.len(),
            match known {
                Some(k) => o is Some && known_caps(caps@, o->Some_0) == Some(*k),
                None => o is None || known_caps(caps@, o->Some_0) is None,
            },
            names_view(r@) == recipients(prefix@, plain_col@, enc, local_fp@, caps@, o, s.take(i as int)),
        decreases s.len() - i,
    {
        proof {
            assert(s.take(i + 1).drop_last() =~= s.take(i as int));
            assert(s.take(i + 1).last() == s[i as int]);
        }
        let (peer, room) = peers.entry(i);
        let told = caps.get(peer);
        let own: bool = match origin {
            Some(k) => same_text(k.as_str(), peer.as_str()),
            None => false,
        };
        let origin_ok: bool = match known {
            Some(k) => caps_allow(names_contain(&k.encrypted_cols, plain_col), &k.key_fp, told),
            None => true,
        };
        if same_text(room.as_str(), prefix) && !own && origin_ok && caps_allow(enc, local_fp, told) {
            let ghost before = r@;
            r.push(peer.clone());
            proof {
                assert(names_view(r@) =~= names_view(before).push(s[i as int].0));
            }
        }
        i = i + 1;
    }
    proof {
        assert(s.take(i as int) =~= s);
    }
    r
}

/// Takes the changes of one collection in.
pub fn flush_collection(
    db: &mut Hako,
    echo: &mut EchoCache,
    caps: &CapsMap,
    peers: &PeerMap,
    reads: &FileReads,
    storage_col: &str,
    items: &Vec<IngestItem>,
) -> (r: Flush)
    requires
        old(db).wf(),
        old(echo).wf(),
        caps.wf(),
        reads.wf(),
    ensures
        final(db).wf(),
        final(echo).wf(),
        flushed_one(
            *old(db),
            old(echo)@,
            *final(db),
            final(echo)@,
            (Circle { caps: caps@, peers: peers.seq() }),
            *reads,
            storage_col@,
            items_view(items@),
            r,
        ),
{
    let ghost s = items_view(items@);
    let ghost circle = Circle { caps: caps@, peers: peers.seq() };
    let ghost start = *db;
    let ghost e0 = echo@;
    let name = storage_col.to_owned();
    if items.len() == 0 {
        return Flush { collection: name, applied: None, relays: Vec::new() };
    }
    proof {
        assert(s[0] == items@[0]@);
    }
    let prefix = items[0].prefix.clone();
    let plain = items[0].collection.clone();
    if db.marks.is_collection_local(plain.as_str()) {
        return Flush { collection: name, applied: None, relays: Vec::new() };
    }
    let enc: bool = is_collection_encrypted(&db.config, storage_col) || is_collection_encrypted(
        &db.config,
        plain.as_str(),
    );
    let fp = config_fingerprint(&db.config);
    let oks = judge(db, storage_col, reads, enc, &fp, caps, items);
    let ghost mid = *db;
    let list = take_items(items, &oks);
    let ghost t = items_view(list@);
    remember(echo, prefix.as_str(), plain.as_str(), &list);
    let applied: Option<Applied> = if list.len() == 0 {
        None
    } else {
        let ops = ops_of(&list);
        Some(db.apply_timestamped(storage_col, ops))
    };
    let mut relays = group(&list);
    let ghost grouped = relays@;
    let mut i: usize = 0;
    while i < relays.len()
        invariant
            caps.wf(),
            i <= relays@.len(),
            relays@.len() == grouped.len(),
            circle == (Circle { caps: caps@, peers: peers.seq() }),
            forall|k: int|
                0 <= k < relays@.len() ==> (#[trigger] relays@[k]).origin == grouped[k].origin && relays@[k].ops
                    == grouped[k].ops,
            forall|k: int|
                0 <= k < i ==> names_view((#[trigger] relays@[k]).recipients@) == recipients(
                    prefix@,
                    plain@,
                    enc,
                    fp@,
                    circle.caps,
                    text_view(relays@[k].origin),
                    circle.peers,
                ),
        decreases relays@.len() - i,
    {
        let ghost before = relays@;
        let mut relay = relays.remove(i);
        relay.recipients = relay_to(prefix.as_str(), plain.as_str(), enc, &fp, caps, &relay.origin, peers);
        let ghost full = relay;
        relays.insert(i, relay);
        proof {
            assert(relays@ =~= before.update(i as int, full));
        }
        i = i + 1;
    }
    let r = Flush { collection: name, applied, relays };
    proof {
        assert forall|a: int, b: int|
            #![trigger relays@[a], relays@[b]]
            0 <= a < b < relays@.len() implies text_view(relays@[a].origin) != text_view(relays@[b].origin) by {
            assert(text_view(grouped[a].origin) != text_view(grouped[b].origin));
        }
        assert forall|k: int| 0 <= k < relays@.len() implies ops_view((#[trigger] relays@[k]).ops@) == ops_from(
            t,
            text_view(relays@[k].origin),
        ) && relays@[k].ops@.len() > 0 by {
            assert(ops_view(grouped[k].ops@) == ops_from(t, text_view(grouped[k].origin)));
        }
        assert forall|k: int| 0 <= k < t.len() implies sender_listed(relays@, (#[trigger] t[k]).sender) by {
            assert(sender_listed(grouped, t[k].sender));
            let j = choose|j: int| 0 <= j < grouped.len() && text_view((#[trigger] grouped[j]).origin) == t[k].sender;
            assert(relays@[j].origin == grouped[j].origin);
        }
        assert(took(mid, e0, *db, echo@, circle, storage_col@, prefix@, plain@, enc, fp@, t, r));
        assert(judged(
            start,
            mid,
            *reads,
            storage_col@,
            encrypts(start, storage_col@, s[0].collection),
            own_fp(start),
            circle.caps,
            s,
            oks@,
        ));
    }
    r
}

/// The changes that wait to be taken in, by the names under which their collections are
/// kept.
pub struct IngestBuffer {
    pub waiting: NameTable<Vec<IngestItem>>,
    pub count: usize,
}

/// The changes that wait in a table.
pub open spec fn waiting_view(t: NameTable<Vec<IngestItem>>) -> Map<Seq<char>, Seq<Item>> {
    Map::new(|c: Seq<char>| t@.contains_key(c), |c: Seq<char>| items_view(t@[c]@))
}

/// How many changes wait.
pub open spec fn waiting_count(rows: Seq<(Seq<char>, Vec<IngestItem>)>) -> nat
    decreases rows.len(),
{
    if rows.len() == 0 {
        0
    } else {
        waiting_count(rows.drop_last()) + rows.last().1@.len()
    }
}

/// What waits for a collection.
pub open spec fn waiting_for(m: Map<Seq<char>, Seq<Item>>, c: Seq<char>) -> Seq<Item> {
    if m.contains_key(c) {
        m[c]
    } else {
        Seq::empty()
    }
}

/// One more item in one row is one more in all.
proof fn count_update(rows: Seq<(Seq<char>, Vec<IngestItem>)>, i: int, v: Vec<IngestItem>)
    requires
        0 <= i < rows.len(),
        v@.len() == rows[i].1@.len() + 1,
    ensures
        waiting_count(rows.update(i, (rows[i].0, v))) == waiting_count(rows) + 1,
    decreases rows.len(),
{
    let t = rows.update(i, (rows[i].0, v));
    if i == rows.len() - 1 {
        assert(t.drop_last() =~= rows.drop_last());
    } else {
        count_update(rows.drop_last(), i, v);
        assert(t.drop_last() =~= rows.drop_last().update(i, (rows[i].0, v)));
    }
}

impl IngestBuffer {
    /// The table is in order, and the count is right.
    pub open spec fn wf(&self) -> bool {
        self.waiting.wf() && self.count == waiting_count(self.waiting.rows())
    }

    pub fn new() -> (r: IngestBuffer)
        ensures
            r.wf(),
            waiting_view(r.waiting) == Map::<Seq<char>, Seq<Item>>::empty(),
            r.waiting.rows().len() == 0,
            r.count == 0,
    {
        let r = IngestBuffer { waiting: NameTable::new(), count: 0 };
        proof {
            assert(waiting_view(r.waiting) =~= Map::<Seq<char>, Seq<Item>>::empty());
        }
        r
    }

    /// Lets a change wait. Hands back whether so many wait that they are to be taken in.
    pub fn push(&mut self, item: IngestItem) -> (full: bool)
        requires
            old(self).wf(),
            old(self).count < usize::MAX,
        ensures
            final(self).wf(),
            ({
                let c = storage_name(item@.prefix, item@.collection);
                waiting_view(final(self).waiting) == waiting_view(old(self).waiting).insert(
                    c,
                    waiting_for(waiting_view(old(self).waiting), c).push(item@),
                )
            }),
            final(self).count == old(self).count + 1,
            full == (final(self).count >= INGEST_LIMIT),
    {
        let ghost m = waiting_view(self.waiting);
        let ghost rows = self.waiting.rows();
        let ghost x = item@;
        let name = storage_col_name(item.prefix.as_str(), item.collection.as_str());
        let ghost c = name@;
        proof {
            self.waiting.place_facts();
        }
        match self.waiting.find(name.as_str()) {
            Some(i) => {
                proof {
                    assert(self.waiting@.contains_key(c));
                    assert(self.waiting@[c] == rows[i as int].1);
                }
                let mut list = self.waiting.swap(i, Vec::new());
                let ghost before = list@;
                let ghost mid = self.waiting@;
                list.push(item);
                let ghost full_list = list;
                proof {
                    assert(items_view(list@) =~= items_view(before).push(x));
                }
                let gone = self.waiting.swap(i, list);
                proof {
                    assert(self.waiting.rows() =~= rows.update(i as int, (rows[i as int].0, full_list)));
                    count_update(rows, i as int, full_list);
                    assert(waiting_view(self.waiting) =~= m.insert(c, waiting_for(m, c).push(x)));
                }
            },
            None => {
                let mut list: Vec<IngestItem> = Vec::new();
                list.push(item);
                let ghost fresh = list;
                proof {
                    assert(items_view(list@) =~= Seq::<Item>::empty().push(x));
                    assert(!self.waiting@.contains_key(c));
                }
                self.waiting.push(name, list);
                proof {
                    assert(self.waiting.rows().drop_last() =~= rows);
                    assert(waiting_view(self.waiting) =~= m.insert(c, waiting_for(m, c).push(x)));
                }
            },
        }
        self.count = self.count + 1;
        self.count >= INGEST_LIMIT
    }
}

/// What became of the changes of a collection, by what was read for it.
pub open spec fn flushed_with(
    a: Hako,
    e0: Map<Seq<char>, i64>,
    b: Hako,
    e1: Map<Seq<char>, i64>,
    circle: Circle,
    files: Map<Seq<char>, FileReads>,
    c: Seq<char>,
    items: Seq<Item>,
    r: Flush,
) -> bool {
    exists|reads: FileReads| #[trigger]
        reads_are(files, c, reads) && flushed_one(a, e0, b, e1, circle, reads, c, items, r)
}

/// What became of the changes of collections, one collection after the other.
pub open spec fn flushed(
    a: Hako,
    e0: Map<Seq<char>, i64>,
    b: Hako,
    e1: Map<Seq<char>, i64>,
    circle: Circle,
    files: Map<Seq<char>, FileReads>,
    rows: Seq<(Seq<char>, Vec<IngestItem>)>,
    r: Seq<Flush>,
) -> bool {
    exists|t: Seq<(Hako, Map<Seq<char>, i64>)>| #[trigger]
        flushed_along(t, a, e0, b, e1, circle, files, rows, r)
}

/// What became of the changes of collections, where `t` are the states between them.
pub open spec fn flushed_along(
    t: Seq<(Hako, Map<Seq<char>, i64>)>,
    a: Hako,
    e0: Map<Seq<char>, i64>,
    b: Hako,
    e1: Map<Seq<char>, i64>,
    circle: Circle,
    files: Map<Seq<char>, FileReads>,
    rows: Seq<(Seq<char>, Vec<IngestItem>)>,
    r: Seq<Flush>,
) -> bool {
    &&& r.len() == rows.len()
    &&& t.len() == rows.len() + 1
    &&& t[0] == (a, e0)
    &&& t.last() == (b, e1)
    &&& forall|i: int|
        0 <= i < rows.len() ==> flushed_with(
            t[i].0,
            t[i].1,
            t[i + 1].0,
            t[i + 1].1,
            circle,
            files,
            (#[trigger] rows[i]).0,
            items_view(rows[i].1@),
            r[i],
        )
}

/// One more collection is taken in after the others.
proof fn flushed_step(
    a: Hako,
    e0: Map<Seq<char>, i64>,
    m: Hako,
    e: Map<Seq<char>, i64>,
    b: Hako,
    e1: Map<Seq<char>, i64>,
    circle: Circle,
    files: Map<Seq<char>, FileReads>,
    rows: Seq<(Seq<char>, Vec<IngestItem>)>,
    out: Seq<Flush>,
    row: (Seq<char>, Vec<IngestItem>),
    done: Flush,
)
    requires
        flushed(a, e0, m, e, circle, files, rows, out),
        flushed_with(m, e, b, e1, circle, files, row.0, items_view(row.1@), done),
    ensures
        flushed(a, e0, b, e1, circle, files, rows.push(row), out.push(done)),
{
    let t = choose|t: Seq<(Hako, Map<Seq<char>, i64>)>| #[trigger]
        flushed_along(t, a, e0, m, e, circle, files, rows, out);
    let t2 = t.push((b, e1));
    let r2 = rows.push(row);
    let o2 = out.push(done);
    assert forall|i: int| 0 <= i < r2.len() implies flushed_with(
        t2[i].0,
        t2[i].1,
        t2[i + 1].0,
        t2[i + 1].1,
        circle,
        files,
        (#[trigger] r2[i]).0,
        items_view(r2[i].1@),
        o2[i],
    ) by {
        if i < rows.len() {
            assert(r2[i] == rows[i]);
            assert(t2[i] == t[i] && t2[i + 1] == t[i + 1]);
        }
    }
    assert(flushed_along(t2, a, e0, b, e1, circle, files, r2, o2));
}

/// Takes in everything that waits, collection by collection.
pub fn flush_ingest_buffer(
    db: &mut Hako,
    buffer: &mut IngestBuffer,
    echo: &mut EchoCache,
    caps: &CapsMap,
    peers: &PeerMap,
    files: &NameTable<FileReads>,
    now_micros: i64,
) -> (r: Vec<Flush>)
    requires
        old(db).wf(),
        old(buffer).wf(),
        old(echo).wf(),
        caps.wf(),
        files_wf(*files),
        now_micros >= 0,
    ensures
        final(db).wf(),
        final(buffer).wf(),
        final(echo).wf(),
        final(buffer).count == 0,
        final(buffer).waiting.rows().len() == 0,
        flushed(
            *old(db),
            if old(buffer).waiting.rows().len() == 0 {
                old(echo)@
            } else {
                pruned(old(echo)@, old(echo).seq().len(), now_micros)
            },
            *final(db),
            final(echo)@,
            (Circle { caps: caps@, peers: peers.seq() }),
            files@,
            old(buffer).waiting.rows(),
            r@,
        ),
{
    let ghost rows = buffer.waiting.rows();
    let ghost circle = Circle { caps: caps@, peers: peers.seq() };
    let mut out: Vec<Flush> = Vec::new();
    if buffer.waiting.len() == 0 {
        proof {
            assert(flushed_along(seq![(*db, echo@)], *db, echo@, *db, echo@, circle, files@, rows, out@));
        }
        return out;
    }
    prune_echoes(echo, now_micros);
    let ghost e0 = echo@;
    let ghost start = *db;
    let nothing = FileReads::new();
    let mut i: usize = 0;
    proof {
        assert(rows.take(0) =~= Seq::<(Seq<char>, Vec<IngestItem>)>::empty());
        assert(flushed_along(seq![(start, e0)], start, e0, *db, echo@, circle, files@, rows.take(0), out@));
    }
    while i < buffer.waiting.len()
        invariant
            db.wf(),
            echo.wf(),
            caps.wf(),
            files_wf(*files),
            nothing.wf(),
            nothing.documents@ == Map::<Seq<char>, Vec<u8>>::empty(),
            nothing.blobs@ == Map::<u64, Vec<u8>>::empty(),
            rows == buffer.waiting.rows(),
            circle == (Circle { caps: caps@, peers: peers.seq() }),
            i <= rows.len(),
            flushed(start, e0, *db, echo@, circle, files@, rows.take(i as int), out@),
        decreases rows.len() - i,
    {
        let ghost before = *db;
        let ghost e = echo@;
        let ghost prior = out@;
        let name = buffer.waiting.name(i);
        let items = buffer.waiting.thing(i);
        let reads = reads_for(files, name.as_str(), &nothing);
        let done = flush_collection(db, echo, caps, peers, reads, name.as_str(), items);
        out.push(done);
        proof {
            assert(flushed_with(before, e, *db, echo@, circle, files@, rows[i as int].0, items_view(rows[i as int].1@), done));
            flushed_step(
                start,
                e0,
                before,
                e,
                *db,
                echo@,
                circle,
                files@,
                rows.take(i as int),
                prior,
                rows[i as int],
                done,
            );
            assert(rows.take(i as int).push(rows[i as int]) =~= rows.take(i + 1));
        }
        i = i + 1;
    }
    proof {
        assert(rows.take(i as int) =~= rows);
    }
    *buffer = IngestBuffer::new();
    out
}

} // verus!
