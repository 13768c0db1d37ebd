//! Beacons: by them a node tells others of itself and of those that it knows.
use vstd::prelude::*;
use vstd::string::*;

use crate::net_sync::address::{endpoint, endpoint_text};
use crate::sorted_map::{ascending_entry, SortedMap};
use crate::sync_guard::same_fingerprint;
use crate::text::same_text;
use crate::util::fixed::{le_bytes, le_round_trip, pow256, pow256_values};
use crate::util::layout::{
    behind, in_list, in_pair, list_begins_once, long_text, of_text, one_text, pair_begins_once, texts_begin_once,
};

verus! {

/// The port that beacons are sent to.
pub const BEACON_PORT: u16 = 5354;

/// What a beacon begins with.
pub const BEACON_MAGIC: u32 = 0x464C4252;

/// How many seconds lie between beacons.
pub const BEACON_INTERVAL_SECS: u64 = 5;

/// How many milliseconds a node is known after its last beacon.
pub const BEACON_EXPIRY_MILLIS: u64 = 45_000;

/// A beacon. The address of its sender is not in it: it is where the beacon came from.
pub struct BeaconPacket {
    pub magic: u32,
    pub id: String,
    pub room_hash: [u8; 32],
    pub tcp_port: u16,
    /// The nodes that the sender knows, with their addresses.
    pub known: Vec<(String, String)>,
}

/// What a beacon tells.
#[verifier::ext_equal]
pub struct Beacon {
    pub magic: u32,
    pub id: Seq<char>,
    pub room: Seq<u8>,
    pub port: u16,
    pub known: Seq<(Seq<char>, Seq<char>)>,
}

/// Pairs of texts.
pub open spec fn text_pairs(s: Seq<(String, String)>) -> Seq<(Seq<char>, Seq<char>)> {
    Seq::new(s.len(), |i: int| (s[i].0@, s[i].1@))
}

impl View for BeaconPacket {
    type V = Beacon;

    open spec fn view(&self) -> Beacon {
        Beacon {
            magic: self.magic,
            id: self.id@,
            room: self.room_hash@,
            port: self.tcp_port,
            known: text_pairs(self.known@),
        }
    }
}

/// The fields of a beacon in their order.
pub type BeaconFields = (u32, String, [u8; 32], u16, Vec<(String, String)>);

/// What the fields of a beacon tell.
pub open spec fn fields_beacon(f: BeaconFields) -> Beacon {
    Beacon { magic: f.0, id: f.1@, room: f.2@, port: f.3, known: text_pairs(f.4@) }
}

/// What the fields of a beacon tell, where there are any.
pub open spec fn found_beacon(f: Option<BeaconFields>) -> Option<Beacon> {
    match f {
        Some(x) => Some(fields_beacon(x)),
        None => None,
    }
}

/// How the nodes that a beacon tells of are laid out.
pub open spec fn of_known() -> spec_fn(Seq<(Seq<char>, Seq<char>)>) -> Seq<u8> {
    in_list(in_pair(of_text(), of_text()))
}

/// The bytes of a beacon: its fields in their order, numbers with the low byte first.
pub open spec fn beacon_bytes(b: Beacon) -> Seq<u8> {
    le_bytes(b.magic as nat, 4) + long_text(b.id) + b.room + le_bytes(b.port as nat, 2) + of_known()(b.known)
}

/// Whether bytes begin with those of a beacon.
pub open spec fn holds_beacon(bytes: Seq<u8>, b: Beacon) -> bool {
    &&& b.room.len() == 32
    &&& beacon_bytes(b).is_prefix_of(bytes)
}

/// The beacon that bytes hold; whatever comes behind it is not looked at.
pub open spec fn bytes_beacon(bytes: Seq<u8>) -> Option<Beacon> {
    if exists|b: Beacon| #[trigger] holds_beacon(bytes, b) {
        Some(choose|b: Beacon| #[trigger] holds_beacon(bytes, b))
    } else {
        None
    }
}

/// Bytes hold no more than one beacon.
pub proof fn one_beacon(bytes: Seq<u8>, b: Beacon, c: Beacon)
    requires
        bytes.len() < pow256(8),
        holds_beacon(bytes, b),
        holds_beacon(bytes, c),
    ensures
        b == c,
{
    le_round_trip(b.magic as nat, 4);
    le_round_trip(c.magic as nat, 4);
    le_round_trip(b.port as nat, 2);
    le_round_trip(c.port as nat, 2);
    pow256_values();
    let b4 = of_known()(b.known);
    let c4 = of_known()(c.known);
    let b3 = le_bytes(b.port as nat, 2) + b4;
    let c3 = le_bytes(c.port as nat, 2) + c4;
    assert(beacon_bytes(b) =~= le_bytes(b.magic as nat, 4) + (long_text(b.id) + (b.room + b3)));
    assert(beacon_bytes(c) =~= le_bytes(c.magic as nat, 4) + (long_text(c.id) + (c.room + c3)));
    behind(bytes, le_bytes(b.magic as nat, 4), long_text(b.id) + (b.room + b3));
    behind(bytes, le_bytes(c.magic as nat, 4), long_text(c.id) + (c.room + c3));
    assert(le_bytes(b.magic as nat, 4) =~= le_bytes(c.magic as nat, 4));
    let s1 = bytes.skip(4);
    behind(s1, long_text(b.id), b.room + b3);
    behind(s1, long_text(c.id), c.room + c3);
    one_text(s1, b.id, c.id);
    let s2 = s1.skip(long_text(b.id).len() as int);
    behind(s2, b.room, b3);
    behind(s2, c.room, c3);
    assert(b.room =~= c.room);
    let s3 = s2.skip(32);
    behind(s3, le_bytes(b.port as nat, 2), b4);
    behind(s3, le_bytes(c.port as nat, 2), c4);
    assert(le_bytes(b.port as nat, 2) =~= le_bytes(c.port as nat, 2));
    let s4 = s3.skip(2);
    texts_begin_once();
    pair_begins_once(of_text(), of_text());
    list_begins_once(in_pair(of_text(), of_text()));
    assert(of_known()(b.known).is_prefix_of(s4) && of_known()(c.known).is_prefix_of(s4));
}

/// The bytes of a beacon hold that beacon, whatever comes behind them.
pub proof fn sent_beacon_is_heard(b: Beacon, more: Seq<u8>)
    requires
        b.room.len() == 32,
        (beacon_bytes(b) + more).len() < pow256(8),
    ensures
        bytes_beacon(beacon_bytes(b) + more) == Some(b),
{
    let s = beacon_bytes(b) + more;
    assert(s.take(beacon_bytes(b).len() as int) =~= beacon_bytes(b));
    assert(holds_beacon(s, b));
    one_beacon(s, b, choose|c: Beacon| #[trigger] holds_beacon(s, c));
}

/// `bincode::serialize` of the fields of a beacon in their order: numbers with the low byte
/// first, texts and lists behind their lengths of eight bytes, an array without one.
#[verifier::external_body]
fn pack(fields: &BeaconFields) -> (r: Vec<u8>)
    ensures
        r@ == beacon_bytes(fields_beacon(*fields)),
{
    bincode::serialize(fields).unwrap_or_default()
}

/// `bincode::deserialize` to the fields of a beacon in their order: those with whose bytes the
/// given bytes begin, and nothing where they begin with none.
#[verifier::external_body]
fn unpack(bytes: &[u8]) -> (r: Option<BeaconFields>)
    ensures
        found_beacon(r) == bytes_beacon(bytes@),
{
    bincode::deserialize(bytes).ok()
}

/// The beacon that bytes hold, if they hold one that begins as beacons do.
pub open spec fn heard_beacon(bytes: Seq<u8>) -> Option<Beacon> {
    match bytes_beacon(bytes) {
        Some(b) => if b.magic == BEACON_MAGIC {
            Some(b)
        } else {
            None
        },
        None => None,
    }
}

/// The bytes of a beacon.
pub fn encode_beacon(p: &BeaconPacket) -> (r: Vec<u8>)
    ensures
        r@ == beacon_bytes(p@),
{
    let known = copy_pairs(&p.known);
    let fields: BeaconFields = (p.magic, p.id.clone(), p.room_hash, p.tcp_port, known);
    proof {
        assert(fields_beacon(fields) =~= p@);
    }
    pack(&fields)
}

/// The beacon that bytes hold, if they hold one that begins as beacons do.
pub fn decode_beacon(bytes: &[u8]) -> (r: Option<BeaconPacket>)
    ensures
        match r {
            Some(p) => heard_beacon(bytes@) == Some(p@),
            None => heard_beacon(bytes@) is None,
        },
        forall|b: Beacon|
            b.room.len() == 32 && b.magic == BEACON_MAGIC && bytes@ == #[trigger] beacon_bytes(b) ==> r is Some
                && r->Some_0@ == b,
{
    let n: usize = bytes.len();
    proof {
        pow256_values();
        assert(n == bytes@.len());
        assert forall|b: Beacon| b.room.len() == 32 && bytes@ == #[trigger] beacon_bytes(b) implies bytes_beacon(
            bytes@,
        ) == Some(b) by {
            assert(beacon_bytes(b) + Seq::<u8>::empty() =~= beacon_bytes(b));
            sent_beacon_is_heard(b, Seq::empty());
        }
    }
    match unpack(bytes) {
        None => None,
        Some(f) => accept_beacon(f),
    }
}

/// The fields of a beacon as a beacon, if they begin as beacons do.
pub fn accept_beacon(f: BeaconFields) -> (r: Option<BeaconPacket>)
    ensures
        match r {
            Some(p) => f.0 == BEACON_MAGIC && p@ == fields_beacon(f),
            None => f.0 != BEACON_MAGIC,
        },
{
    if f.0 != BEACON_MAGIC {
        return None;
    }
    Some(BeaconPacket { magic: f.0, id: f.1, room_hash: f.2, tcp_port: f.3, known: f.4 })
}

/// The same pairs.
fn copy_pairs(s: &Vec<(String, String)>) -> (r: Vec<(String, String)>)
    ensures
        text_pairs(r@) == text_pairs(s@),
{
    let mut r: Vec<(String, String)> = Vec::new();
    let mut i: usize = 0;
    while i < s.len()
        invariant
            i <= s@.len(),
            r@.len() == i,
            forall|k: int| 0 <= k < i ==> (#[trigger] r@[k]).0@ == s@[k].0@ && r@[k].1@ == s@[k].1@,
        decreases s@.len() - i,
    {
        r.push((s[i].0.clone(), s[i].1.clone()));
        i = i + 1;
    }
    proof {
        assert(text_pairs(r@) =~= text_pairs(s@));
    }
    r
}

/// A node that was found: where it is, and when it was last heard of, in milliseconds.
pub struct Sighting {
    pub addr: String,
    pub seen: u64,
}

/// The nodes that were found.
pub type DiscoveryCache = SortedMap<String, Sighting>;

/// Where the nodes are that were found, and when they were last heard of.
pub open spec fn sightings(m: Map<Seq<char>, Sighting>) -> Map<Seq<char>, (Seq<char>, u64)> {
    Map::new(|k: Seq<char>| m.contains_key(k), |k: Seq<char>| (m[k].addr@, m[k].seen))
}

/// What is known of nodes, and whether an address was new.
#[verifier::ext_equal]
pub struct Known {
    pub nodes: Map<Seq<char>, (Seq<char>, u64)>,
    pub changed: bool,
}

/// One more node was heard of; a node does not hear of itself.
pub open spec fn heard_of(k: Known, name: Seq<char>, addr: Seq<char>, self_id: Seq<char>, now: u64) -> Known {
    if name == self_id {
        k
    } else {
        Known {
            nodes: k.nodes.insert(name, (addr, now)),
            changed: k.changed || !(k.nodes.contains_key(name) && k.nodes[name].0 == addr),
        }
    }
}

/// More nodes were heard of.
pub open spec fn heard_of_all(k: Known, list: Seq<(Seq<char>, Seq<char>)>, self_id: Seq<char>, now: u64) -> Known
    decreases list.len(),
{
    if list.len() == 0 {
        k
    } else {
        heard_of(heard_of_all(k, list.drop_last(), self_id, now), list.last().0, list.last().1, self_id, now)
    }
}

/// What is known after a beacon: one of another room, or of the node itself, tells nothing.
/// Its sender is where it came from.
pub open spec fn merged(
    nodes: Map<Seq<char>, (Seq<char>, u64)>,
    b: Beacon,
    src: Seq<char>,
    self_id: Seq<char>,
    room: Seq<u8>,
    now: u64,
) -> Known {
    let start = Known { nodes, changed: false };
    if b.room != room || b.id == self_id {
        start
    } else {
        heard_of_all(heard_of(start, b.id, endpoint(src, b.port), self_id, now), b.known, self_id, now)
    }
}

/// Takes note of a node.
fn upsert(cache: &mut DiscoveryCache, name: &String, addr: String, self_id: &str, now: u64) -> (changed: bool)
    requires
        old(cache).wf(),
    ensures
        final(cache).wf(),
        (Known { nodes: sightings(final(cache)@), changed }) == heard_of(
            Known { nodes: sightings(old(cache)@), changed: false },
            name@,
            addr@,
            self_id@,
            now,
        ),
{
    let ghost before = sightings(cache@);
    if same_text(name.as_str(), self_id) {
        return false;
    }
    let same: bool = match cache.get(name) {
        Some(s) => same_text(s.addr.as_str(), addr.as_str()),
        None => false,
    };
    let ghost a = addr@;
    let was = cache.insert(name.clone(), Sighting { addr, seen: now });
    proof {
        assert(sightings(cache@) =~= before.insert(name@, (a, now)));
    }
    !same
}

/// Takes note of a beacon that came from `src_ip`. Tells whether an address was new.
pub fn merge_beacon(
    cache: &mut DiscoveryCache,
    pkt: &BeaconPacket,
    src_ip: &str,
    self_id: &str,
    room_hash: &[u8; 32],
    now: u64,
) -> (changed: bool)
    requires
        old(cache).wf(),
    ensures
        final(cache).wf(),
        (Known { nodes: sightings(final(cache)@), changed }) == merged(
            sightings(old(cache)@),
            pkt@,
            src_ip@,
            self_id@,
            room_hash@,
            now,
        ),
{
    if !same_fingerprint(&pkt.room_hash, room_hash) || same_text(pkt.id.as_str(), self_id) {
        return false;
    }
    let ghost list = text_pairs(pkt.known@);
    let ghost start = Known { nodes: sightings(cache@), changed: false };
    let ghost first = heard_of(start, pkt.id@, endpoint(src_ip@, pkt.tcp_port), self_id@, now);
    let mut changed: bool = upsert(cache, &pkt.id, endpoint_text(src_ip, pkt.tcp_port), self_id, now);
    let mut i: usize = 0;
    proof {
        assert(list.take(0) =~= Seq::<(Seq<char>, Seq<char>)>::empty());
    }
    while i < pkt.known.len()
        invariant
            cache.wf(),
            list == text_pairs(pkt.known@),
            i <= pkt.known@.len(),
            (Known { nodes: sightings(cache@), changed }) == heard_of_all(first, list.take(i as int), self_id@, now),
        decreases pkt.known@.len() - i,
    {
        proof {
            assert(list.take(i + 1).drop_last() =~= list.take(i as int));
            assert(list.take(i + 1).last() == list[i as int]);
        }
        let fresh = upsert(cache, &pkt.known[i].0, pkt.known[i].1.clone(), self_id, now);
        changed = changed || fresh;
        i = i + 1;
    }
    proof {
        assert(list.take(i as int) =~= list);
    }
    changed
}

/// The nodes that were heard of lately.
pub open spec fn lately(m: Map<Seq<char>, Sighting>, now: u64) -> Map<Seq<char>, Sighting> {
    m.restrict(Set::new(|k: Seq<char>| m.contains_key(k) && now < m[k].seen + BEACON_EXPIRY_MILLIS))
}

/// Forgets the nodes that have not been heard of for long.
pub fn prune_stale_peers(cache: &mut DiscoveryCache, now: u64)
    requires
        old(cache).wf(),
    ensures
        final(cache).wf(),
        final(cache)@ == lately(old(cache)@, now),
{
    let ghost m = cache@;
    let mut i: usize = 0;
    while i < cache.len()
        invariant
            cache.wf(),
            i <= cache.seq().len(),
            forall|k: Seq<char>| #[trigger] cache@.contains_key(k) ==> m.contains_key(k) && cache@[k] == m[k],
            forall|k: Seq<char>| #[trigger]
                m.contains_key(k) && now < m[k].seen + BEACON_EXPIRY_MILLIS ==> cache@.contains_key(k),
            forall|j: int| 0 <= j < i ==> now < (#[trigger] cache.seq()[j]).1.seen + BEACON_EXPIRY_MILLIS,
        decreases cache.seq().len() - i,
    {
        let ghost before = cache.seq();
        let seen: u64 = cache.entry(i).1.seen;
        proof {
            ascending_entry::<String, Sighting>(before, i as int);
        }
        if seen > now || now - seen < BEACON_EXPIRY_MILLIS {
            i = i + 1;
        } else {
            let gone = cache.remove_at(i);
            proof {
                assert forall|j: int| 0 <= j < i implies now < (#[trigger] cache.seq()[j]).1.seen + BEACON_EXPIRY_MILLIS by {
                    assert(cache.seq()[j] == before[j]);
                }
            }
        }
    }
    proof {
        assert forall|k: Seq<char>| #[trigger] cache@.contains_key(k) implies now < cache@[k].seen
            + BEACON_EXPIRY_MILLIS by {
            let j = choose|j: int| 0 <= j < cache.seq().len() && #[trigger] cache.seq()[j].0 == k;
            ascending_entry::<String, Sighting>(cache.seq(), j);
        }
        assert(cache@ =~= lately(m, now));
    }
}

/// The nodes that were found, with their addresses, in order.
pub fn known_nodes(cache: &DiscoveryCache) -> (r: Vec<(String, String)>)
    ensures
        r@.len() == cache.seq().len(),
        forall|i: int|
            0 <= i < r@.len() ==> (#[trigger] r@[i]).0@ == cache.seq()[i].0 && r@[i].1@ == cache.seq()[i].1.addr@,
{
    let ghost s = cache.seq();
    let mut r: Vec<(String, String)> = Vec::new();
    let mut i: usize = 0;
    while i < cache.len()
        invariant
            s == cache.seq(),
            i <= s.len(),
            r@.len() == i,
            forall|k: int| 0 <= k < i ==> (#[trigger] r@[k]).0@ == s[k].0 && r@[k].1@ == s[k].1.addr@,
        decreases s.len() - i,
    {
        let (k, x) = cache.entry(i);
        r.push((k.clone(), x.addr.clone()));
        i = i + 1;
    }
    r
}

/// The beacon of a node: it tells of itself and of all that it knows.
pub fn make_beacon(cache: &DiscoveryCache, self_id: &str, room_hash: &[u8; 32], tcp_port: u16) -> (p: BeaconPacket)
    ensures
        p.magic == BEACON_MAGIC,
        p.id@ == self_id@,
        p.room_hash@ == room_hash@,
        p.tcp_port == tcp_port,
        p.known@.len() == cache.seq().len(),
        forall|i: int|
            0 <= i < p.known@.len() ==> (#[trigger] p.known@[i]).0@ == cache.seq()[i].0 && p.known@[i].1@
                == cache.seq()[i].1.addr@,
{
    BeaconPacket {
        magic: BEACON_MAGIC,
        id: self_id.to_owned(),
        room_hash: *room_hash,
        tcp_port,
        known: known_nodes(cache),
    }
}

/// A node never comes to know itself, and what it knew of others it knows still.
pub proof fn beacon_keeps_nodes(
    nodes: Map<Seq<char>, (Seq<char>, u64)>,
    b: Beacon,
    src: Seq<char>,
    self_id: Seq<char>,
    room: Seq<u8>,
    now: u64,
    x: Seq<char>,
)
    requires
        !nodes.contains_key(self_id),
    ensures
        !merged(nodes, b, src, self_id, room, now).nodes.contains_key(self_id),
        nodes.contains_key(x) ==> merged(nodes, b, src, self_id, room, now).nodes.contains_key(x),
        b.room != room ==> merged(nodes, b, src, self_id, room, now).nodes == nodes,
{
    let start = Known { nodes, changed: false };
    keeps_nodes(heard_of(start, b.id, endpoint(src, b.port), self_id, now), b.known, self_id, now, x);
}

proof fn keeps_nodes(k: Known, list: Seq<(Seq<char>, Seq<char>)>, self_id: Seq<char>, now: u64, x: Seq<char>)
    requires
        !k.nodes.contains_key(self_id),
    ensures
        !heard_of_all(k, list, self_id, now).nodes.contains_key(self_id),
        k.nodes.contains_key(x) ==> heard_of_all(k, list, self_id, now).nodes.contains_key(x),
    decreases list.len(),
{
    if list.len() > 0 {
        keeps_nodes(k, list.drop_last(), self_id, now, x);
    }
}

} // verus!
