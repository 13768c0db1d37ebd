//! A node of a local network.
use vstd::prelude::*;
use vstd::string::*;
use vstd::utf8::encode_utf8;

use crate::cloud_sync::ingest::EchoCache;
use crate::cloud_sync::seen::SeenMessages;
use crate::config::HakoConfig;
use crate::document::firelite_doc::{names_copy, names_view, with_field, Doc, FireLiteDoc};
use crate::document::value::{fields_view, parts_view, Val, Value};
use crate::engine::access::sync_excluded;
use crate::engine::engine::{Hako, Outcome};
use crate::engine::files::FileReads;
use crate::engine::store::{got, written};
use crate::engine::types::Wish;
use crate::engine::write::empty_doc;
use crate::error::HakoError;
use crate::net_sync::beacon::{known_nodes, DiscoveryCache};
use crate::net_sync::delta::Peers;
use crate::net_sync::discovery::{default_discovery_mode, DiscoveryMode};
use crate::net_sync::packet::{NetPacket, NetworkStatus, SyncStatus};
use crate::order::Order;
use crate::sorted_map::{ascending, ascending_entry, entries_map, key_order, SortedMap};
use crate::sync_guard::{same_fingerprint, sha256, sha256_digest, CapsMap, PeerCaps};
use crate::text::same_text;
use crate::util::fixed::i64_bits;
use crate::util::sort::is_greater;

verus! {

/// How many milliseconds without a ping in the network make a node ping.
pub const PING_INTERVAL_MILLIS: u64 = 300_000;

/// How long the offsets are at least not kept in the store again.
pub const CHECKPOINT_INTERVAL_MILLIS: u64 = 5_000;

/// How far the log of each collection has been sent.
pub type Offsets = SortedMap<String, u64>;

/// A node of a local network.
pub struct NetSyncer {
    pub self_id: String,
    pub room_hash: [u8; 32],
    /// The collections that never replicate from this node.
    pub excluded: SortedMap<String, ()>,
    pub service_type: String,
    pub status: NetworkStatus,
    pub peers: Peers,
    pub seen_messages: SeenMessages,
    pub shard_offsets: Offsets,
    pub enable_relay: bool,
    /// When a ping was last heard, in milliseconds.
    pub last_mesh_ping: u64,
    pub echo_cache: EchoCache,
    pub discovery: DiscoveryMode,
    /// What the peers have told of their encryption.
    pub caps: CapsMap,
}

/// The offsets that a list of fields keeps.
pub open spec fn offsets_of(fields: Seq<(Seq<char>, Val)>) -> Map<Seq<char>, u64>
    decreases fields.len(),
{
    if fields.len() == 0 {
        Map::empty()
    } else {
        let before = offsets_of(fields.drop_last());
        match fields.last().1 {
            Val::Int(n) => before.insert(fields.last().0, n as u64),
            _ => before,
        }
    }
}

/// The offsets that the checkpoint of the store keeps; none where there is no checkpoint.
pub open spec fn kept_offsets(row: Result<Option<FireLiteDoc>, HakoError>) -> Map<Seq<char>, u64> {
    match row {
        Ok(Some(d)) => doc_offsets(d@),
        _ => Map::empty(),
    }
}

/// The offsets that a checkpoint keeps.
pub open spec fn doc_offsets(d: Doc) -> Map<Seq<char>, u64> {
    if d.map().contains_key("offsets"@) {
        match d.map()["offsets"@] {
            Val::Object(fields) => offsets_of(fields),
            _ => Map::empty(),
        }
    } else {
        Map::empty()
    }
}

/// Offsets as fields.
pub open spec fn offset_fields(s: Seq<(Seq<char>, u64)>) -> Seq<(Seq<char>, Val)> {
    Seq::new(s.len(), |i: int| (s[i].0, Val::Int(s[i].1 as i64)))
}

/// The checkpoint that keeps offsets.
pub open spec fn checkpoint_doc(s: Seq<(Seq<char>, u64)>) -> Doc {
    with_field(empty_doc(), "offsets"@, Val::Object(offset_fields(s)))
}

/// The offsets in a checkpoint are those that it was made of.
pub proof fn checkpoint_comes_back(s: Seq<(Seq<char>, u64)>, d: Doc)
    requires
        ascending::<String, u64>(s),
        d.map() == empty_doc().map().insert("offsets"@, Val::Object(offset_fields(s))),
    ensures
        doc_offsets(d) == entries_map(s),
{
    offsets_come_back(s);
}

/// Offsets come back from their fields.
proof fn offsets_come_back(s: Seq<(Seq<char>, u64)>)
    requires
        ascending::<String, u64>(s),
    ensures
        offsets_of(offset_fields(s)) == entries_map(s),
    decreases s.len(),
{
    if s.len() == 0 {
        assert(entries_map(s) =~= Map::<Seq<char>, u64>::empty());
    } else {
        let pre = s.drop_last();
        assert forall|i: int, j: int| #![trigger pre[i], pre[j]] 0 <= i < j < pre.len() implies crate::sorted_map::key_lt::<
            String,
        >(pre[i].0, pre[j].0) by {
            assert(pre[i] == s[i] && pre[j] == s[j]);
        }
        offsets_come_back(pre);
        assert(offset_fields(s).drop_last() =~= offset_fields(pre));
        i64_bits(0, s.last().1);
        let m = entries_map(s);
        let p = entries_map(pre);
        assert forall|k: Seq<char>| m.contains_key(k) <==> p.contains_key(k) || k == s.last().0 by {
            if m.contains_key(k) && k != s.last().0 {
                let i = choose|i: int| 0 <= i < s.len() && #[trigger] s[i].0 == k;
                assert(pre[i].0 == k);
            }
            if p.contains_key(k) {
                let i = choose|i: int| 0 <= i < pre.len() && #[trigger] pre[i].0 == k;
                assert(s[i].0 == k);
            }
            assert(s[s.len() - 1].0 == s.last().0);
        }
        assert forall|k: Seq<char>| m.contains_key(k) implies m[k] == p.insert(s.last().0, s.last().1)[k] by {
            let i = choose|i: int| 0 <= i < s.len() && #[trigger] s[i].0 == k;
            ascending_entry::<String, u64>(s, i);
            if i < pre.len() {
                assert(pre[i] == s[i]);
                ascending_entry::<String, u64>(pre, i);
                assert(crate::sorted_map::key_lt::<String>(s[i].0, s[s.len() - 1].0));
                crate::sorted_map::key_order_total::<String>(s[i].0, s[s.len() - 1].0);
            }
        }
        assert(m =~= p.insert(s.last().0, s.last().1));
    }
}

/// The offsets that fields keep.
fn read_offsets(fields: &Vec<(String, Value)>) -> (m: Offsets)
    ensures
        m.wf(),
        m@ == offsets_of(fields_view(fields@)),
{
    let ghost f = fields_view(fields@);
    let mut m: Offsets = Offsets::new();
    let mut i: usize = 0;
    proof {
        assert(f.take(0) =~= Seq::<(Seq<char>, Val)>::empty());
    }
    while i < fields.len()
        invariant
            m.wf(),
            f == fields_view(fields@),
            i <= fields@.len(),
            m@ == offsets_of(f.take(i as int)),
        decreases fields@.len() - i,
    {
        proof {
            assert(f.take(i + 1).drop_last() =~= f.take(i as int));
            assert(f.take(i + 1).last() == f[i as int]);
            parts_view(fields@[i as int].1);
        }
        if let Value::Int(n) = &fields[i].1 {
            let had = m.insert(fields[i].0.clone(), *n as u64);
        }
        i = i + 1;
    }
    proof {
        assert(f.take(i as int) =~= f);
    }
    m
}

/// Which collections never replicate from a node: those that it is told, those of the store
/// itself, and those of its configuration.
pub open spec fn left_out(config: HakoConfig, told: Seq<Seq<char>>, c: Seq<char>) -> bool {
    told.contains(c) || sync_excluded(c) || names_view(config.sync_excluded@).contains(c)
}

/// Adds names to a set.
fn add_names(set: &mut SortedMap<String, ()>, names: &Vec<String>)
    requires
        old(set).wf(),
    ensures
        final(set).wf(),
        forall|c: Seq<char>| #[trigger]
            final(set)@.contains_key(c) <==> old(set)@.contains_key(c) || names_view(names@).contains(c),
{
    let ghost n = names_view(names@);
    let mut i: usize = 0;
    while i < names.len()
        invariant
            set.wf(),
            n == names_view(names@),
            i <= names@.len(),
            forall|c: Seq<char>| #[trigger]
                set@.contains_key(c) <==> old(set)@.contains_key(c) || n.take(i as int).contains(c),
        decreases names@.len() - i,
    {
        let ghost before = set@;
        let had = set.insert(names[i].clone(), ());
        proof {
            let a = n.take(i as int);
            let b = n.take(i + 1);
            assert forall|c: Seq<char>| b.contains(c) <==> a.contains(c) || c == n[i as int] by {
                if a.contains(c) {
                    let k = choose|k: int| 0 <= k < a.len() && a[k] == c;
                    assert(b[k] == c);
                }
                if b.contains(c) && c != n[i as int] {
                    let k = choose|k: int| 0 <= k < b.len() && b[k] == c;
                    assert(a[k] == c);
                }
                assert(b[i as int] == n[i as int]);
            }
        }
        i = i + 1;
    }
    proof {
        assert(n.take(i as int) =~= n);
    }
}

/// What can be seen of a node with some peers.
pub open spec fn status_is(s: NetworkStatus, self_id: Seq<char>, peers: Seq<(Seq<char>, ())>) -> bool {
    &&& s.self_id@ == self_id
    &&& s.peer_count == peers.len()
    &&& s.known_peers@.len() == peers.len()
    &&& forall|i: int| 0 <= i < peers.len() ==> (#[trigger] s.known_peers@[i])@ == peers[i].0
    &&& s.status == (if peers.len() > 0 {
        SyncStatus::Connected
    } else {
        SyncStatus::Idle
    })
}

/// A node that is not connected yet, made over the store `a`, which is then `b`.
pub open spec fn node_made(
    a: Hako,
    b: Hako,
    reads: FileReads,
    r: NetSyncer,
    name: Seq<char>,
    room_key: Seq<char>,
    excluded: Seq<Seq<char>>,
    mobile: bool,
    now: u64,
) -> bool {
    &&& r.wf()
    &&& r.self_id@ == name
    &&& r.room_hash@ == sha256_digest(encode_utf8(room_key))
    &&& forall|c: Seq<char>| #[trigger] r.excluded@.contains_key(c) <==> left_out(b.config, excluded, c)
    &&& r.service_type@ == "_hakodb._tcp.local."@
    &&& r.peers@ == Map::<Seq<char>, ()>::empty()
    &&& r.seen_messages.seq() == Seq::<u128>::empty()
    &&& exists|row: Result<Option<FireLiteDoc>, HakoError>| #[trigger]
        got(a, b, reads, "__hako_system"@, "sync_checkpoint"@, row) && r.shard_offsets@ == kept_offsets(row)
    &&& !r.enable_relay
    &&& r.last_mesh_ping == now
    &&& r.echo_cache@ == Map::<Seq<char>, i64>::empty()
    &&& r.discovery == (if mobile {
        DiscoveryMode::Broadcast
    } else {
        DiscoveryMode::Mdns
    })
    &&& r.caps@ == Map::<Seq<char>, PeerCaps>::empty()
}

impl NetSyncer {
    pub open spec fn wf(&self) -> bool {
        &&& self.excluded.wf()
        &&& self.peers.wf()
        &&& self.seen_messages.wf()
        &&& self.shard_offsets.wf()
        &&& self.echo_cache.wf()
        &&& self.caps.wf()
        &&& status_is(self.status, self.self_id@, self.peers.seq())
    }

    /// A node that is not connected yet. It goes on where the checkpoint of the store says
    /// that it stopped. `now` is in milliseconds.
    pub fn new(
        db: &mut Hako,
        name: &str,
        room_key: &str,
        excluded: Vec<String>,
        mobile: bool,
        now: u64,
        reads: &FileReads,
    ) -> (r: NetSyncer)
        requires
            old(db).wf(),
            reads.wf(),
        ensures
            final(db).wf(),
            node_made(*old(db), *final(db), *reads, r, name@, room_key@, names_view(excluded@), mobile, now),
    {
        let row = db.get("__hako_system", "sync_checkpoint", reads);
        let offsets: Offsets = match &row {
            Ok(Some(d)) => match d.get("offsets") {
                Some(v) => {
                    proof {
                        parts_view(*v);
                    }
                    match v {
                        Value::Object(fields) => read_offsets(fields),
                        _ => Offsets::new(),
                    }
                },
                None => Offsets::new(),
            },
            _ => Offsets::new(),
        };
        let mut set: SortedMap<String, ()> = SortedMap::new();
        add_names(&mut set, &excluded);
        let mut own: Vec<String> = Vec::new();
        own.push("__hako_system".to_owned());
        own.push("__hako_rooms".to_owned());
        own.push("__users".to_owned());
        own.push("__groups".to_owned());
        let ghost o = names_view(own@);
        proof {
            assert forall|c: Seq<char>| o.contains(c) <==> sync_excluded(c) by {
                if o.contains(c) {
                    let k = choose|k: int| 0 <= k < o.len() && o[k] == c;
                }
                assert(o[0] == "__hako_system"@);
                assert(o[1] == "__hako_rooms"@);
                assert(o[2] == "__users"@);
                assert(o[3] == "__groups"@);
            }
        }
        add_names(&mut set, &own);
        add_names(&mut set, &db.config.sync_excluded);
        let status = NetworkStatus {
            status: SyncStatus::Idle,
            self_id: name.to_owned(),
            peer_count: 0,
            known_peers: Vec::new(),
        };
        proof {
            assert(got(*old(db), *db, *reads, "__hako_system"@, "sync_checkpoint"@, row));
        }
        NetSyncer {
            self_id: name.to_owned(),
            room_hash: sha256(room_key.as_bytes()),
            excluded: set,
            service_type: "_hakodb._tcp.local.".to_owned(),
            status,
            peers: Peers::new(),
            seen_messages: SeenMessages::new(),
            shard_offsets: offsets,
            enable_relay: false,
            last_mesh_ping: now,
            echo_cache: EchoCache::new(),
            discovery: default_discovery_mode(mobile),
            caps: CapsMap::new(),
        }
    }

    /// The node, which passes messages on or not.
    pub fn with_relay(self, enable: bool) -> (r: NetSyncer)
        ensures
            r == (NetSyncer { enable_relay: enable, ..self }),
    {
        let mut r = self;
        r.enable_relay = enable;
        r
    }

    /// The node, which looks for others in the given way.
    pub fn with_discovery(self, mode: DiscoveryMode) -> (r: NetSyncer)
        ensures
            r == (NetSyncer { discovery: mode, ..self }),
    {
        let mut r = self;
        r.discovery = mode;
        r
    }

    /// Sets the way in which the node looks for others the next time that it starts.
    pub fn set_discovery(&mut self, mode: DiscoveryMode)
        ensures
            *final(self) == (NetSyncer { discovery: mode, ..*old(self) }),
    {
        self.discovery = mode;
    }

    /// The way in which the node looks for others.
    pub fn discovery_mode(&self) -> (m: DiscoveryMode)
        ensures
            m == self.discovery,
    {
        self.discovery
    }

    /// What can be seen of the node.
    pub fn status(&self) -> (s: NetworkStatus)
        requires
            self.wf(),
        ensures
            status_is(s, self.self_id@, self.peers.seq()),
    {
        let list = names_copy(&self.status.known_peers);
        proof {
            assert(names_view(list@).len() == names_view(self.status.known_peers@).len());
            assert forall|i: int| 0 <= i < self.peers.seq().len() implies (#[trigger] list@[i])@ == self.peers.seq()[i].0 by {
                assert(names_view(list@)[i] == names_view(self.status.known_peers@)[i]);
                assert(self.status.known_peers@[i]@ == self.peers.seq()[i].0);
            }
        }
        NetworkStatus {
            status: self.status.status,
            self_id: self.status.self_id.clone(),
            peer_count: self.status.peer_count,
            known_peers: list,
        }
    }

    /// What can be seen of the node follows from its peers.
    fn update_status(&mut self)
        requires
            old(self).peers.wf(),
        ensures
            status_is(final(self).status, final(self).self_id@, final(self).peers.seq()),
            *final(self) == (NetSyncer { status: final(self).status, ..*old(self) }),
    {
        let ghost s = self.peers.seq();
        let mut list: Vec<String> = Vec::new();
        let mut i: usize = 0;
        while i < self.peers.len()
            invariant
                s == self.peers.seq(),
                i <= s.len(),
                list@.len() == i,
                forall|k: int| 0 <= k < i ==> (#[trigger] list@[k])@ == s[k].0,
            decreases s.len() - i,
        {
            list.push(self.peers.entry(i).0.clone());
            i = i + 1;
        }
        let count: usize = list.len();
        self.status = NetworkStatus {
            status: if count > 0 {
                SyncStatus::Connected
            } else {
                SyncStatus::Idle
            },
            self_id: self.self_id.clone(),
            peer_count: count,
            known_peers: list,
        };
    }

    /// Takes note of a peer that is connected.
    pub fn add_peer(&mut self, peer_id: &String)
        requires
            old(self).wf(),
        ensures
            final(self).wf(),
            final(self).peers@ == old(self).peers@.insert(peer_id@, ()),
            *final(self) == (NetSyncer { status: final(self).status, peers: final(self).peers, ..*old(self) }),
    {
        let had = self.peers.insert(peer_id.clone(), ());
        self.update_status();
    }

    /// Takes leave of a peer, and forgets what it has told.
    pub fn remove_peer(&mut self, peer_id: &String)
        requires
            old(self).wf(),
        ensures
            final(self).wf(),
            final(self).peers@ == old(self).peers@.remove(peer_id@),
            final(self).caps@ == old(self).caps@.remove(peer_id@),
            *final(self) == (NetSyncer {
                status: final(self).status,
                peers: final(self).peers,
                caps: final(self).caps,
                ..*old(self)
            }),
    {
        let had = self.peers.remove(peer_id);
        let knew = self.caps.remove(peer_id);
        self.update_status();
    }

    /// The checkpoint of the node.
    pub fn checkpoint(&self) -> (d: FireLiteDoc)
        ensures
            d@.wf(),
            d@ == checkpoint_doc(self.shard_offsets.seq()),
            self.shard_offsets.wf() ==> doc_offsets(d@) == self.shard_offsets@,
    {
        let ghost s = self.shard_offsets.seq();
        let mut fields: Vec<(String, Value)> = Vec::new();
        let mut i: usize = 0;
        while i < self.shard_offsets.len()
            invariant
                s == self.shard_offsets.seq(),
                i <= s.len(),
                fields@.len() == i,
                forall|k: int|
                    0 <= k < i ==> (#[trigger] fields@[k]).0@ == s[k].0 && fields@[k].1@ == Val::Int(s[k].1 as i64),
            decreases s.len() - i,
        {
            let (k, v) = self.shard_offsets.entry(i);
            let x = Value::Int(*v as i64);
            proof {
                parts_view(x);
            }
            fields.push((k.clone(), x));
            i = i + 1;
        }
        let ghost list = fields@;
        let v = Value::Object(fields);
        proof {
            parts_view(v);
            assert(fields_view(list) =~= offset_fields(s));
        }
        let mut d = FireLiteDoc::default();
        d.insert("offsets".to_owned(), v);
        proof {
            if self.shard_offsets.wf() {
                checkpoint_comes_back(s, d@);
            }
        }
        d
    }

    /// Keeps the checkpoint of the node in the store.
    pub fn save_checkpoint(&self, db: &mut Hako, now_nanos: i64) -> (r: Result<Outcome, HakoError>)
        requires
            old(db).wf(),
            now_nanos >= 0,
        ensures
            final(db).wf(),
            written(
                *old(db),
                *final(db),
                Map::empty(),
                now_nanos,
                seq![
                    Wish::Put {
                        collection: "__hako_system"@,
                        id: "sync_checkpoint"@,
                        doc: checkpoint_doc(self.shard_offsets.seq()),
                    },
                ],
                r,
            ),
    {
        db.put_owned("__hako_system", "sync_checkpoint", self.checkpoint(), now_nanos)
    }

    /// Where the log of a collection is to be read on.
    pub fn offset(&self, col: &String) -> (n: u64)
        requires
            self.wf(),
        ensures
            n == (if self.shard_offsets@.contains_key(col@) {
                self.shard_offsets@[col@]
            } else {
                0
            }),
    {
        match self.shard_offsets.get(col) {
            Some(n) => *n,
            None => 0,
        }
    }

    /// Takes note of how far the log of a collection has been sent.
    pub fn set_offset(&mut self, col: &String, n: u64)
        requires
            old(self).wf(),
        ensures
            final(self).wf(),
            final(self).shard_offsets@ == old(self).shard_offsets@.insert(col@, n),
            *final(self) == (NetSyncer { shard_offsets: final(self).shard_offsets, ..*old(self) }),
    {
        let had = self.shard_offsets.insert(col.clone(), n);
    }

    /// Whether no ping was heard in the network for so long that this node is to ping.
    pub fn should_ping(&self, now: u64) -> (r: bool)
        ensures
            r == (now - self.last_mesh_ping >= PING_INTERVAL_MILLIS),
    {
        now >= self.last_mesh_ping && now - self.last_mesh_ping >= PING_INTERVAL_MILLIS
    }

    /// Whether the offsets are to be kept in the store: something has changed, and the last time
    /// is more than five seconds ago.
    pub fn checkpoint_due(changed: bool, elapsed_millis: u64) -> (r: bool)
        ensures
            r == (changed && elapsed_millis > CHECKPOINT_INTERVAL_MILLIS),
    {
        changed && elapsed_millis > CHECKPOINT_INTERVAL_MILLIS
    }

    /// The first message to a node.
    pub fn identify(&self) -> (p: NetPacket)
        ensures
            p matches NetPacket::Identify { id, room_hash } && id@ == self.self_id@ && room_hash == self.room_hash,
    {
        NetPacket::Identify { id: self.self_id.clone(), room_hash: self.room_hash }
    }

    /// Who another node is, by its first message: nobody to talk to where it is of another
    /// room, this node itself, or says anything else.
    pub fn recognize(&self, first: &NetPacket) -> (r: Option<String>)
        ensures
            match *first {
                NetPacket::Identify { id, room_hash } => if room_hash@ != self.room_hash@ || id@ == self.self_id@ {
                    r is None
                } else {
                    r matches Some(x) && x@ == id@
                },
                _ => r is None,
            },
    {
        match first {
            NetPacket::Identify { id, room_hash } => {
                if !same_fingerprint(room_hash, &self.room_hash) || same_text(id.as_str(), self.self_id.as_str()) {
                    None
                } else {
                    Some(id.clone())
                }
            },
            _ => None,
        }
    }
}

/// Whether a node dials another: only the one with the lesser name does, and not twice.
pub open spec fn dials(self_id: Seq<char>, peers: Map<Seq<char>, ()>, name: Seq<char>) -> bool {
    key_order::<String>(name, self_id) == Order::Greater && !peers.contains_key(name)
}

/// Of two nodes that know each other one dials, unless they are connected.
pub proof fn one_dials(a: Seq<char>, b: Seq<char>, pa: Map<Seq<char>, ()>, pb: Map<Seq<char>, ()>)
    requires
        a != b,
        !pa.contains_key(b),
        !pb.contains_key(a),
    ensures
        dials(a, pa, b) != dials(b, pb, a),
{
    crate::sorted_map::key_order_total::<String>(a, b);
}

/// The nodes that are to be dialed, with their addresses.
pub open spec fn to_dial(
    self_id: Seq<char>,
    peers: Map<Seq<char>, ()>,
    known: Seq<(Seq<char>, Seq<char>)>,
) -> Seq<(Seq<char>, Seq<char>)>
    decreases known.len(),
{
    if known.len() == 0 {
        Seq::empty()
    } else {
        let before = to_dial(self_id, peers, known.drop_last());
        if dials(self_id, peers, known.last().0) {
            before.push(known.last())
        } else {
            before
        }
    }
}

/// The nodes that were found, with their addresses.
pub open spec fn found(s: Seq<(Seq<char>, crate::net_sync::beacon::Sighting)>) -> Seq<(Seq<char>, Seq<char>)> {
    Seq::new(s.len(), |i: int| (s[i].0, s[i].1.addr@))
}

/// The nodes that are to be dialed among those that were found.
pub fn dial_list(syncer: &NetSyncer, cache: &DiscoveryCache) -> (r: Vec<(String, String)>)
    requires
        syncer.wf(),
    ensures
        crate::net_sync::beacon::text_pairs(r@) == to_dial(syncer.self_id@, syncer.peers@, found(cache.seq())),
{
    let known = known_nodes(cache);
    let ghost k = found(cache.seq());
    let mut r: Vec<(String, String)> = Vec::new();
    let mut i: usize = 0;
    proof {
        assert(k.take(0) =~= Seq::<(Seq<char>, Seq<char>)>::empty());
        assert(crate::net_sync::beacon::text_pairs(r@) =~= Seq::<(Seq<char>, Seq<char>)>::empty());
    }
    while i < known.len()
        invariant
            syncer.wf(),
            k.len() == known@.len(),
            forall|j: int| 0 <= j < known@.len() ==> (#[trigger] known@[j]).0@ == k[j].0 && known@[j].1@ == k[j].1,
            i <= known@.len(),
            crate::net_sync::beacon::text_pairs(r@) == to_dial(syncer.self_id@, syncer.peers@, k.take(i as int)),
        decreases known@.len() - i,
    {
        proof {
            assert(k.take(i + 1).drop_last() =~= k.take(i as int));
            assert(k.take(i + 1).last() == k[i as int]);
            assert(known@[i as int].0@ == k[i as int].0);
        }
        if is_greater(known[i].0.as_str(), syncer.self_id.as_str()) && !syncer.peers.contains(&known[i].0) {
            let ghost before = r@;
            r.push((known[i].0.clone(), known[i].1.clone()));
            proof {
                assert(crate::net_sync::beacon::text_pairs(r@) =~= crate::net_sync::beacon::text_pairs(before).push(
                    k[i as int],
                ));
            }
        }
        i = i + 1;
    }
    proof {
        assert(k.take(i as int) =~= k);
    }
    r
}

} // verus!
