//! The talk between a server and its clients: joining a room, taking changes, and catching
//! up.
use vstd::prelude::*;
use vstd::string::*;

use crate::cloud_sync::access::{check_group_access, group_checked};
use crate::cloud_sync::catchup::{
    carries, catchup_deltas, caught_up, client_deltas, missed, room_versions_are, server_room_version_map,
};
use crate::cloud_sync::ingest::{items_view, text_view, IngestItem, Item, PeerMap};
use crate::cloud_sync::packet::{CloudPacket, VersionMap};
use crate::cloud_sync::rooms::{resolved, room_bytes, room_id, texts, RoomRegistry, Rooms};
use crate::cloud_sync::seen::{remembered, SeenMessages};
use crate::config::HakoConfig;
use crate::directory::NameTable;
use crate::document::firelite_doc::{names_copy, names_view};
use crate::engine::collections::{list_collections, places_same, version_map, visible_of};
use crate::engine::engine::{Hako, Outcome};
use crate::engine::files::{files_wf, reads_are, reads_for, FileReads};
use crate::engine::store::shard_opened;
use crate::error::{error_kind, error_message, HakoError};
use crate::storage::wal::{ops_view, Change, WalOp};
use crate::sync_guard::{
    config_fingerprint, encrypted_among, encrypted_of, fingerprint, hex, known_caps, no_fingerprint, sha256_digest, store_key, CapsMap, PeerCaps,
};
use crate::util::decimal::{digit, padded};
use crate::util::sort::sorted_from;

verus! {

/// A client that was let in: its name among the peers, and the prefix of its room.
pub struct ServerSession {
    pub peer_key: String,
    pub prefix: String,
}

/// The answer to a client that asks to join, and what the store has to write for it.
pub struct Admission {
    pub session: Option<ServerSession>,
    pub reply: CloudPacket,
    pub written: Option<Outcome>,
}

/// The client is let in.
pub open spec fn is_ack(p: CloudPacket) -> bool {
    p matches CloudPacket::AuthResult { success, error } && success && error is None
}

/// The client is not let in, and told why.
pub open spec fn is_nack(p: CloudPacket, why: Seq<char>) -> bool {
    p matches CloudPacket::AuthResult { success, error } && !success && text_view(error) == Some(why)
}

/// A client is turned away.
fn nack(why: String) -> (a: Admission)
    ensures
        a.session is None,
        a.written is None,
        is_nack(a.reply, why@),
{
    Admission { session: None, reply: CloudPacket::AuthResult { success: false, error: Some(why) }, written: None }
}

/// What a server knows of its clients: the rooms, the peers, and what they have told.
pub struct Hall {
    pub rooms: RoomRegistry,
    pub peers: PeerMap,
    pub caps: CapsMap,
}

impl Hall {
    pub open spec fn wf(&self) -> bool {
        self.rooms.wf() && self.peers.wf() && self.caps.wf()
    }

    pub fn new() -> (h: Hall)
        ensures
            h.wf(),
            h.rooms@ == (Rooms { prefix_by_id: Map::empty(), prefixes: Set::empty(), loaded: false }),
            h.peers@ == Map::<Seq<char>, String>::empty(),
            h.caps@ == Map::<Seq<char>, PeerCaps>::empty(),
    {
        Hall { rooms: RoomRegistry::new(), peers: PeerMap::new(), caps: CapsMap::new() }
    }
}

/// The name of a client among the peers: that of its room before its own.
pub open spec fn peer_name(room_id: Seq<char>, client: Seq<char>) -> Seq<char> {
    room_id + ":"@ + client
}

/// What a client has told of its encryption; one that tells nothing has no key.
pub open spec fn told(caps: PeerCaps, enc_fp: Option<[u8; 32]>, enc_cols: Seq<Seq<char>>) -> bool {
    &&& caps.key_fp@ == match enc_fp {
        Some(f) => f@,
        None => no_fingerprint(),
    }
    &&& names_view(caps.encrypted_cols@) == enc_cols
}

/// Peers and what they have told are as they were.
pub open spec fn same_members(h0: Hall, h1: Hall) -> bool {
    h1.peers == h0.peers && h1.caps == h0.caps
}

/// A client in a room: it is among the peers, and what it has told is known.
pub open spec fn joined(
    h0: Hall,
    h1: Hall,
    key: Seq<char>,
    prefix: Seq<char>,
    enc_fp: Option<[u8; 32]>,
    enc_cols: Seq<Seq<char>>,
) -> bool {
    &&& texts(h1.peers@) == texts(h0.peers@).insert(key, prefix)
    &&& h1.caps@.contains_key(key)
    &&& told(h1.caps@[key], enc_fp, enc_cols)
    &&& h1.caps@ == h0.caps@.insert(key, h1.caps@[key])
}

/// The answer to a client whose group lets it in: it joins its room, unless that could not
/// be registered.
pub open spec fn room_joined(
    h0: Hall,
    h1: Hall,
    x: Result<(String, String, Option<Outcome>), HakoError>,
    client: Seq<char>,
    enc_fp: Option<[u8; 32]>,
    enc_cols: Seq<Seq<char>>,
    r: Admission,
) -> bool {
    match x {
        Err(e) => {
            &&& same_members(h0, h1)
            &&& r.session is None
            &&& r.written is None
            &&& is_nack(r.reply, "Room registration failed: "@ + (error_kind(e) + error_message(e)))
        },
        Ok((id, prefix, w)) => {
            &&& r.session matches Some(s) && s.peer_key@ == peer_name(id@, client) && s.prefix@ == prefix@
            &&& r.written == w
            &&& is_ack(r.reply)
            &&& joined(h0, h1, peer_name(id@, client), prefix@, enc_fp, enc_cols)
        },
    }
}

/// The answer to a client by what its group says. One that is turned away by its group
/// makes no room.
pub open spec fn group_answered(
    a: Hako,
    h0: Hall,
    b: Hako,
    h1: Hall,
    g: Result<(), String>,
    rooms_reads: FileReads,
    name: Seq<char>,
    key: Seq<char>,
    client: Seq<char>,
    enc_fp: Option<[u8; 32]>,
    enc_cols: Seq<Seq<char>>,
    now_secs: i64,
    now_nanos: i64,
    r: Admission,
) -> bool {
    match g {
        Err(e) => {
            &&& b == a
            &&& h1 == h0
            &&& r.session is None
            &&& r.written is None
            &&& is_nack(r.reply, e@)
        },
        Ok(_) => exists|x: Result<(String, String, Option<Outcome>), HakoError>|
            #![trigger resolved(h0.rooms@, h1.rooms@, a, b, rooms_reads, name, key, now_secs, now_nanos, x)]
            resolved(h0.rooms@, h1.rooms@, a, b, rooms_reads, name, key, now_secs, now_nanos, x) && room_joined(
                h0,
                h1,
                x,
                client,
                enc_fp,
                enc_cols,
                r,
            ),
    }
}

/// The answer to a client that asks to join.
pub open spec fn greeted(
    a: Hako,
    h0: Hall,
    b: Hako,
    h1: Hall,
    packet: Option<CloudPacket>,
    group_reads: FileReads,
    rooms_reads: FileReads,
    now_secs: i64,
    now_nanos: i64,
    r: Admission,
) -> bool {
    match packet {
        Some(CloudPacket::Authenticate { client_id, room_name, room_key, api_key, enc_fp, enc_cols, .. }) => {
            exists|m: Hako, g: Result<(), String>|
                #![trigger group_checked(a, m, group_reads, room_name@, text_view(api_key), client_id@, g)]
                group_checked(a, m, group_reads, room_name@, text_view(api_key), client_id@, g) && group_answered(
                    m,
                    h0,
                    b,
                    h1,
                    g,
                    rooms_reads,
                    room_name@,
                    room_key@,
                    client_id@,
                    enc_fp,
                    names_view(enc_cols@),
                    now_secs,
                    now_nanos,
                    r,
                )
        },
        _ => {
            &&& b == a
            &&& h1 == h0
            &&& r.session is None
            &&& r.written is None
            &&& is_nack(r.reply, "Authentication or Room Key mismatch"@)
        },
    }
}

/// A client that is not let in is no peer, and nothing is known of it.
pub proof fn refused_is_no_member(
    a: Hako,
    h0: Hall,
    b: Hako,
    h1: Hall,
    packet: Option<CloudPacket>,
    group_reads: FileReads,
    rooms_reads: FileReads,
    now_secs: i64,
    now_nanos: i64,
    r: Admission,
)
    requires
        greeted(a, h0, b, h1, packet, group_reads, rooms_reads, now_secs, now_nanos, r),
        !is_ack(r.reply),
    ensures
        r.session is None,
        same_members(h0, h1),
        r.written is None,
{
}

/// Answers a client that asks to join with its first message. The rules of its group come
/// first.
pub fn greet_client(
    db: &mut Hako,
    hall: &mut Hall,
    packet: Option<&CloudPacket>,
    group_reads: &FileReads,
    rooms_reads: &FileReads,
    now_secs: i64,
    now_nanos: i64,
) -> (r: Admission)
    requires
        old(db).wf(),
        old(hall).wf(),
        group_reads.wf(),
        rooms_reads.wf(),
        now_nanos >= 0,
    ensures
        final(db).wf(),
        final(hall).wf(),
        greeted(*old(db), *old(hall), *final(db), *final(hall), match packet {
            Some(p) => Some(*p),
            None => None,
        }, *group_reads, *rooms_reads, now_secs, now_nanos, r),
{
    let ghost a = *db;
    let ghost h0 = *hall;
    match packet {
        Some(CloudPacket::Authenticate { client_id, room_name, room_key, api_key, enc_fp, enc_cols, .. }) => {
            let presented: Option<&str> = match api_key {
                Some(k) => Some(k.as_str()),
                None => None,
            };
            let g = check_group_access(db, room_name.as_str(), presented, client_id.as_str(), group_reads);
            let ghost m = *db;
            let ghost said = g;
            proof {
                assert(group_checked(a, m, *group_reads, room_name@, text_view(*api_key), client_id@, g));
            }
            match g {
                Err(e) => nack(e),
                Ok(_) => {
                    let x = hall.rooms.resolve(
                        db,
                        room_name.as_str(),
                        room_key.as_str(),
                        now_secs,
                        now_nanos,
                        rooms_reads,
                    );
                    let ghost found = x;
                    let r = match x {
                        Err(e) => {
                            let mut why = "Room registration failed: ".to_owned();
                            why.append(e.text().as_str());
                            nack(why)
                        },
                        Ok((id, prefix, w)) => {
                            let mut key = id;
                            key.append(":");
                            key.append(client_id.as_str());
                            let fp: [u8; 32] = match enc_fp {
                                Some(f) => *f,
                                None => [0u8; 32],
                            };
                            let caps = PeerCaps { key_fp: fp, encrypted_cols: names_copy(enc_cols) };
                            let ghost k = key@;
                            let ghost told_now = caps;
                            proof {
                                if enc_fp is None {
                                    assert(fp@ =~= no_fingerprint());
                                }
                                assert(told(told_now, *enc_fp, names_view(enc_cols@)));
                            }
                            let was = hall.peers.insert(key.clone(), prefix.clone());
                            let knew = hall.caps.insert(key.clone(), caps);
                            proof {
                                assert(texts(hall.peers@) =~= texts(h0.peers@).insert(k, prefix@));
                                assert(hall.caps@ =~= h0.caps@.insert(k, told_now));
                            }
                            Admission {
                                session: Some(ServerSession { peer_key: key, prefix }),
                                reply: CloudPacket::AuthResult { success: true, error: None },
                                written: w,
                            }
                        },
                    };
                    proof {
                        assert(room_joined(h0, *hall, found, client_id@, *enc_fp, names_view(enc_cols@), r));
                        assert(resolved(
                            h0.rooms@,
                            hall.rooms@,
                            m,
                            *db,
                            *rooms_reads,
                            room_name@,
                            room_key@,
                            now_secs,
                            now_nanos,
                            found,
                        ));
                        assert(group_answered(
                            m,
                            h0,
                            *db,
                            *hall,
                            said,
                            *rooms_reads,
                            room_name@,
                            room_key@,
                            client_id@,
                            *enc_fp,
                            names_view(enc_cols@),
                            now_secs,
                            now_nanos,
                            r,
                        ));
                    }
                    r
                },
            }
        },
        _ => nack("Authentication or Room Key mismatch".to_owned()),
    }
}

/// Takes leave of a client.
pub fn part_client(hall: &mut Hall, session: &ServerSession)
    requires
        old(hall).wf(),
    ensures
        final(hall).wf(),
        final(hall).rooms == old(hall).rooms,
        final(hall).peers@ == old(hall).peers@.remove(session.peer_key@),
        final(hall).caps@ == old(hall).caps@.remove(session.peer_key@),
{
    let was = hall.peers.remove(&session.peer_key);
    let knew = hall.caps.remove(&session.peer_key);
}

/// The changes of a message, each by itself.
pub open spec fn items_of(
    collection: Seq<char>,
    prefix: Seq<char>,
    ops: Seq<Change>,
    sender: Option<Seq<char>>,
) -> Seq<Item> {
    Seq::new(ops.len(), |i: int| Item { collection, prefix, op: ops[i], sender })
}

/// The changes of a message, each by itself.
fn make_items(collection: &str, prefix: &str, ops: &Vec<WalOp>, sender: Option<&String>) -> (r: Vec<IngestItem>)
    ensures
        items_view(r@) == items_of(collection@, prefix@, ops_view(ops@), match sender {
            Some(s) => Some(s@),
            None => None,
        }),
{
    let ghost who = match sender {
        Some(s) => Some(s@),
        None => None,
    };
    let ghost want = items_of(collection@, prefix@, ops_view(ops@), who);
    let mut r: Vec<IngestItem> = Vec::new();
    let mut i: usize = 0;
    while i < ops.len()
        invariant
            who == (match sender {
                Some(s) => Some(s@),
                None => None,
            }),
            want == items_of(collection@, prefix@, ops_view(ops@), who),
            i <= ops@.len(),
            r@.len() == i,
            forall|k: int| 0 <= k < i ==> (#[trigger] r@[k])@ == want[k],
        decreases ops@.len() - i,
    {
        let ghost before = r@;
        let from: Option<String> = match sender {
            Some(s) => Some(s.clone()),
            None => None,
        };
        let item = IngestItem {
            collection: collection.to_owned(),
            prefix: prefix.to_owned(),
            op: ops[i].clone(),
            sender_client_id: from,
        };
        proof {
            assert(item@ =~= want[i as int]);
        }
        r.push(item);
        proof {
            assert forall|k: int| 0 <= k < i + 1 implies (#[trigger] r@[k])@ == want[k] by {
                if k < i {
                    assert(r@[k] == before[k]);
                }
            }
        }
        i = i + 1;
    }
    proof {
        assert(items_view(r@) =~= want);
    }
    r
}

/// How far one side has told a collection to have come.
pub open spec fn told_time(m: Map<Seq<char>, i64>, c: Seq<char>) -> i64 {
    if m.contains_key(c) {
        m[c]
    } else {
        0
    }
}

/// How far one side has told a collection to have come.
fn time_told(m: &VersionMap, c: &String) -> (t: i64)
    requires
        m.wf(),
    ensures
        t == told_time(m@, c@),
{
    match m.get(c) {
        Some(t) => *t,
        None => 0,
    }
}

/// The messages that there are.
pub open spec fn present(s: Seq<Option<CloudPacket>>) -> Seq<CloudPacket>
    decreases s.len(),
{
    if s.len() == 0 {
        Seq::empty()
    } else {
        match s.last() {
            Some(p) => present(s.drop_last()).push(p),
            None => present(s.drop_last()),
        }
    }
}

/// One more message, if there is one.
proof fn present_push(s: Seq<Option<CloudPacket>>, p: Option<CloudPacket>)
    ensures
        present(s.push(p)) == (match p {
            Some(m) => present(s).push(m),
            None => present(s),
        }),
{
    assert(s.push(p).drop_last() =~= s);
}

/// What the server tells of a collection: what the client has missed, where it is behind.
pub open spec fn replay_one(
    a: Hako,
    b: Hako,
    session: ServerSession,
    caps: Map<Seq<char>, PeerCaps>,
    files: Map<Seq<char>, FileReads>,
    plain: Seq<char>,
    server_ts: i64,
    client_ts: i64,
    p: Option<CloudPacket>,
) -> bool {
    if server_ts > client_ts {
        exists|reads: FileReads| #[trigger]
            reads_are(files, session.prefix@ + "_"@ + plain, reads) && caught_up(
                a,
                b,
                session.prefix@ + "_"@ + plain,
                plain,
                client_ts,
                known_caps(caps, session.peer_key@),
                reads,
                p,
            )
    } else {
        b == a && p is None
    }
}

/// What the server tells of all collections of a room, where `t` are the states of the
/// store in between.
pub open spec fn replayed_along(
    t: Seq<Hako>,
    packets: Seq<Option<CloudPacket>>,
    session: ServerSession,
    caps: Map<Seq<char>, PeerCaps>,
    files: Map<Seq<char>, FileReads>,
    versions: Seq<(Seq<char>, i64)>,
    client: Map<Seq<char>, i64>,
) -> bool {
    &&& t.len() == versions.len() + 1
    &&& packets.len() == versions.len()
    &&& forall|i: int|
        0 <= i < versions.len() ==> replay_one(
            t[i],
            t[i + 1],
            session,
            caps,
            files,
            (#[trigger] versions[i]).0,
            versions[i].1,
            told_time(client, versions[i].0),
            packets[i],
        )
}

/// What the server tells a client that has told how far it has come.
pub open spec fn replayed(
    a: Hako,
    b: Hako,
    session: ServerSession,
    caps: Map<Seq<char>, PeerCaps>,
    files: Map<Seq<char>, FileReads>,
    versions: Seq<(Seq<char>, i64)>,
    client: Map<Seq<char>, i64>,
    r: Seq<CloudPacket>,
) -> bool {
    exists|t: Seq<Hako>, packets: Seq<Option<CloudPacket>>| #[trigger]
        replayed_along(t, packets, session, caps, files, versions, client) && t[0] == a && t.last() == b && r == present(
            packets,
        )
}

/// What follows from a message of a client: changes that wait to be taken in, and replies.
pub struct ServerStep {
    pub ingest: Vec<IngestItem>,
    pub replies: Vec<CloudPacket>,
}

/// Tells a client what it has missed of the collections of its room.
fn replay(
    db: &mut Hako,
    session: &ServerSession,
    caps: &CapsMap,
    files: &NameTable<FileReads>,
    versions: &VersionMap,
    client: &VersionMap,
) -> (r: Vec<CloudPacket>)
    requires
        old(db).wf(),
        caps.wf(),
        files_wf(*files),
        client.wf(),
    ensures
        final(db).wf(),
        replayed(*old(db), *final(db), *session, caps@, files@, versions.seq(), client@, r@),
{
    let ghost start = *db;
    let ghost s = versions.seq();
    let ghost mut t: Seq<Hako> = seq![start];
    let ghost mut packets: Seq<Option<CloudPacket>> = Seq::empty();
    let nothing = FileReads::new();
    let mut r: Vec<CloudPacket> = Vec::new();
    let mut i: usize = 0;
    while i < versions.len()
        invariant
            db.wf(),
            caps.wf(),
            files_wf(*files),
            client.wf(),
            nothing.wf(),
            nothing.documents@ == Map::<Seq<char>, Vec<u8>>::empty(),
            nothing.blobs@ == Map::<u64, Vec<u8>>::empty(),
            s == versions.seq(),
            i <= s.len(),
            replayed_along(t, packets, *session, caps@, files@, s.take(i as int), client@),
            t[0] == start,
            t.last() == *db,
            r@ == present(packets),
        decreases s.len() - i,
    {
        let ghost before = *db;
        let (plain, ts) = versions.entry(i);
        let since = time_told(client, plain);
        let mut p: Option<CloudPacket> = None;
        if *ts > since {
            let mut storage = session.prefix.clone();
            storage.append("_");
            storage.append(plain.as_str());
            let reads = reads_for(files, storage.as_str(), &nothing);
            p = catchup_deltas(db, storage.as_str(), plain.as_str(), since, &session.peer_key, caps, reads);
            proof {
                assert(reads_are(files@, session.prefix@ + "_"@ + plain@, *reads));
            }
        }
        proof {
            assert(replay_one(before, *db, *session, caps@, files@, s[i as int].0, s[i as int].1, since, p));
            let t2 = t.push(*db);
            let p2 = packets.push(p);
            let s2 = s.take(i + 1);
            assert forall|k: int| 0 <= k < s2.len() implies replay_one(
                t2[k],
                t2[k + 1],
                *session,
                caps@,
                files@,
                (#[trigger] s2[k]).0,
                s2[k].1,
                told_time(client@, s2[k].0),
                p2[k],
            ) by {
                if k < i {
                    assert(s2[k] == s.take(i as int)[k]);
                    assert(t2[k] == t[k] && t2[k + 1] == t[k + 1]);
                }
            }
            present_push(packets, p);
            t = t2;
            packets = p2;
        }
        match p {
            Some(m) => {
                r.push(m);
            },
            None => {},
        }
        i = i + 1;
    }
    proof {
        assert(s.take(i as int) =~= s);
        assert(replayed_along(t, packets, *session, caps@, files@, s, client@));
    }
    r
}

/// What follows from a message of a client.
pub open spec fn server_heard(
    a: Hako,
    seen0: Seq<u128>,
    b: Hako,
    seen1: Seq<u128>,
    session: ServerSession,
    caps: Map<Seq<char>, PeerCaps>,
    files: Map<Seq<char>, FileReads>,
    dirs: Seq<Seq<char>>,
    packet: CloudPacket,
    r: ServerStep,
) -> bool {
    match packet {
        CloudPacket::Replication { msg_id, collection, ops } => {
            &&& b == a
            &&& r.replies@.len() == 0
            &&& if msg_id != 0 && seen0.contains(msg_id) {
                r.ingest@.len() == 0 && seen1 == seen0
            } else {
                &&& items_view(r.ingest@) == items_of(
                    collection@,
                    session.prefix@,
                    ops_view(ops@),
                    Some(session.peer_key@),
                )
                &&& seen1 == (if msg_id != 0 {
                    remembered(seen0, msg_id)
                } else {
                    seen0
                })
            }
        },
        CloudPacket::VersionPing { versions } => {
            &&& r.ingest@.len() == 0
            &&& seen1 == seen0
            &&& r.replies@.len() > 0
            &&& r.replies@[0] matches CloudPacket::VersionPing { versions: own }
            &&& room_versions_are(a, session.prefix@, dirs, own@)
            &&& exists|m: Hako|
                #![trigger places_same(a, m)]
                places_same(a, m) && replayed(
                    m,
                    b,
                    session,
                    caps,
                    files,
                    own.seq(),
                    versions@,
                    r.replies@.skip(1),
                )
        },
        _ => b == a && seen1 == seen0 && r.ingest@.len() == 0 && r.replies@.len() == 0,
    }
}

/// Hears a message of a client that was let in. `dirs` are the directories of the store.
pub fn server_hear(
    db: &mut Hako,
    seen: &mut SeenMessages,
    session: &ServerSession,
    caps: &CapsMap,
    files: &NameTable<FileReads>,
    dirs: &Vec<String>,
    packet: &CloudPacket,
) -> (r: ServerStep)
    requires
        old(db).wf(),
        old(seen).wf(),
        caps.wf(),
        files_wf(*files),
        (*packet) matches CloudPacket::VersionPing { versions } ==> versions.wf(),
    ensures
        final(db).wf(),
        final(seen).wf(),
        server_heard(
            *old(db),
            old(seen).seq(),
            *final(db),
            final(seen).seq(),
            *session,
            caps@,
            files@,
            names_view(dirs@),
            *packet,
            r,
        ),
{
    match packet {
        CloudPacket::Replication { msg_id, collection, ops } => {
            if seen.note(*msg_id) {
                let items = make_items(collection.as_str(), session.prefix.as_str(), ops, Some(&session.peer_key));
                ServerStep { ingest: items, replies: Vec::new() }
            } else {
                ServerStep { ingest: Vec::new(), replies: Vec::new() }
            }
        },
        CloudPacket::VersionPing { versions } => {
            let ghost a = *db;
            let own = server_room_version_map(db, session.prefix.as_str(), dirs);
            let ghost m = *db;
            let mut rest = replay(db, session, caps, files, &own, versions);
            let ghost later = rest@;
            let mut replies: Vec<CloudPacket> = Vec::new();
            replies.push(CloudPacket::VersionPing { versions: own });
            replies.append(&mut rest);
            proof {
                assert(replies@.skip(1) =~= later);
                assert(places_same(a, m));
            }
            ServerStep { ingest: Vec::new(), replies }
        },
        _ => ServerStep { ingest: Vec::new(), replies: Vec::new() },
    }
}

/// What a client asks to join with.
pub open spec fn asks_to_join(
    p: CloudPacket,
    config: HakoConfig,
    dirs: Seq<Seq<char>>,
    token: Seq<char>,
    client: Seq<char>,
    room: Seq<char>,
    key: Seq<char>,
    api: Option<Seq<char>>,
    version: Seq<char>,
) -> bool {
    &&& p matches CloudPacket::Authenticate {
        token: t,
        client_id,
        room_name,
        room_key,
        api_key,
        client_version,
        enc_fp,
        enc_cols,
    }
    &&& t@ == token
    &&& client_id@ == client
    &&& room_name@ == room
    &&& room_key@ == key
    &&& text_view(api_key) == api
    &&& text_view(client_version) == Some(version)
    &&& enc_fp matches Some(f) && f@ == fingerprint(store_key(config))
    &&& exists|names: Seq<Seq<char>>| #[trigger]
        sorted_from(names, visible_of(dirs)) && names_view(enc_cols@) == encrypted_of(config, names)
}

/// The message by which a client asks to join its room.
pub fn join_request(
    db: &Hako,
    dirs: &Vec<String>,
    auth_token: &str,
    client_id: &str,
    room_name: &str,
    room_key: &str,
    api_key: &Option<String>,
    client_version: &str,
) -> (p: CloudPacket)
    ensures
        asks_to_join(
            p,
            db.config,
            names_view(dirs@),
            auth_token@,
            client_id@,
            room_name@,
            room_key@,
            text_view(*api_key),
            client_version@,
        ),
{
    let names = list_collections(dirs);
    let cols = encrypted_among(&db.config, &names);
    proof {
        assert(sorted_from(names_view(names@), visible_of(names_view(dirs@))));
    }
    CloudPacket::Authenticate {
        token: auth_token.to_owned(),
        client_id: client_id.to_owned(),
        room_name: room_name.to_owned(),
        room_key: room_key.to_owned(),
        api_key: match api_key {
            Some(k) => Some(k.clone()),
            None => None,
        },
        client_version: Some(client_version.to_owned()),
        enc_fp: Some(config_fingerprint(&db.config)),
        enc_cols: cols,
    }
}

/// The pairs of a list as a map; of two with the same name the later counts.
pub open spec fn pairs_map(s: Seq<(String, i64)>) -> Map<Seq<char>, i64>
    decreases s.len(),
{
    if s.len() == 0 {
        Map::empty()
    } else {
        pairs_map(s.drop_last()).insert(s.last().0@, s.last().1)
    }
}

/// The pairs of a list as a map.
pub fn version_table(list: &Vec<(String, i64)>) -> (m: VersionMap)
    ensures
        m.wf(),
        m@ == pairs_map(list@),
{
    let mut m: VersionMap = VersionMap::new();
    let mut i: usize = 0;
    proof {
        assert(list@.take(0) =~= Seq::<(String, i64)>::empty());
    }
    while i < list.len()
        invariant
            m.wf(),
            i <= list@.len(),
            m@ == pairs_map(list@.take(i as int)),
        decreases list@.len() - i,
    {
        proof {
            assert(list@.take(i + 1).drop_last() =~= list@.take(i as int));
            assert(list@.take(i + 1).last() == list@[i as int]);
        }
        let had = m.insert(list[i].0.clone(), list[i].1);
        i = i + 1;
    }
    proof {
        assert(list@.take(i as int) =~= list@);
    }
    m
}

/// How far the collections of a store that replicate have come.
pub open spec fn own_versions(a: Hako, dirs: Seq<Seq<char>>, list: Seq<(String, i64)>) -> bool {
    exists|names: Seq<Seq<char>>|
        sorted_from(names, crate::engine::collections::syncing_of(a.config, dirs)) && #[trigger] version_map(
            a.shards@,
            names,
            list,
        )
}

/// What a client tells the server once it is let in: how far its collections have come.
pub open spec fn client_pinged(a: Hako, b: Hako, dirs: Seq<Seq<char>>, reply: CloudPacket, r: Option<CloudPacket>) -> bool {
    match reply {
        CloudPacket::AuthResult { success: true, .. } => {
            &&& places_same(a, b)
            &&& r matches Some(CloudPacket::VersionPing { versions })
            &&& exists|list: Seq<(String, i64)>| #[trigger] own_versions(a, dirs, list) && versions@ == pairs_map(list)
        },
        _ => b == a && r is None,
    }
}

/// Hears the answer to the request to join; tells the server how far the collections of the
/// client have come where it was let in.
pub fn client_admitted(db: &mut Hako, dirs: &Vec<String>, reply: &CloudPacket) -> (r: Option<CloudPacket>)
    requires
        old(db).wf(),
    ensures
        final(db).wf(),
        client_pinged(*old(db), *final(db), names_view(dirs@), *reply, r),
        r matches Some(CloudPacket::VersionPing { versions }) ==> versions.wf(),
{
    match reply {
        CloudPacket::AuthResult { success: true, .. } => {
            let list = db.get_version_map(dirs);
            let versions = version_table(&list);
            proof {
                assert(own_versions(*old(db), names_view(dirs@), list@));
            }
            Some(CloudPacket::VersionPing { versions })
        },
        _ => None,
    }
}

/// What the client tells of a collection: what the server has missed, where it is behind.
pub open spec fn push_one(
    a: Hako,
    b: Hako,
    files: Map<Seq<char>, FileReads>,
    c: Seq<char>,
    client_ts: i64,
    server_ts: i64,
    msg_id: u128,
    p: Option<CloudPacket>,
) -> bool {
    if client_ts > server_ts {
        exists|reads: FileReads| #[trigger]
            reads_are(files, c, reads) && shard_opened(a, b, c) && carries(
                p,
                msg_id,
                c,
                missed(b.shards@[c].index.seq(), b.marks@, c, server_ts, reads),
            )
    } else {
        b == a && p is None
    }
}

/// What the client tells of all its collections, where `t` are the states of the store in
/// between.
pub open spec fn pushed_along(
    t: Seq<Hako>,
    packets: Seq<Option<CloudPacket>>,
    files: Map<Seq<char>, FileReads>,
    list: Seq<(String, i64)>,
    server: Map<Seq<char>, i64>,
    msg_id: u128,
) -> bool {
    &&& t.len() == list.len() + 1
    &&& packets.len() == list.len()
    &&& forall|i: int|
        0 <= i < list.len() ==> push_one(
            t[i],
            t[i + 1],
            files,
            (#[trigger] list[i]).0@,
            list[i].1,
            told_time(server, list[i].0@),
            msg_id,
            packets[i],
        )
}

/// What the client tells a server that has told how far it has come.
pub open spec fn pushed(
    a: Hako,
    b: Hako,
    files: Map<Seq<char>, FileReads>,
    list: Seq<(String, i64)>,
    server: Map<Seq<char>, i64>,
    msg_id: u128,
    r: Seq<CloudPacket>,
) -> bool {
    exists|t: Seq<Hako>, packets: Seq<Option<CloudPacket>>| #[trigger]
        pushed_along(t, packets, files, list, server, msg_id) && t[0] == a && t.last() == b && r == present(packets)
}

/// Tells the server what it has missed.
fn push_upstream(
    db: &mut Hako,
    files: &NameTable<FileReads>,
    list: &Vec<(String, i64)>,
    server: &VersionMap,
    msg_id: u128,
) -> (r: Vec<CloudPacket>)
    requires
        old(db).wf(),
        files_wf(*files),
        server.wf(),
    ensures
        final(db).wf(),
        pushed(*old(db), *final(db), files@, list@, server@, msg_id, r@),
{
    let ghost start = *db;
    let ghost mut t: Seq<Hako> = seq![start];
    let ghost mut packets: Seq<Option<CloudPacket>> = Seq::empty();
    let nothing = FileReads::new();
    let mut r: Vec<CloudPacket> = Vec::new();
    let mut i: usize = 0;
    while i < list.len()
        invariant
            db.wf(),
            files_wf(*files),
            server.wf(),
            nothing.wf(),
            nothing.documents@ == Map::<Seq<char>, Vec<u8>>::empty(),
            nothing.blobs@ == Map::<u64, Vec<u8>>::empty(),
            i <= list@.len(),
            pushed_along(t, packets, files@, list@.take(i as int), server@, msg_id),
            t[0] == start,
            t.last() == *db,
            r@ == present(packets),
        decreases list@.len() - i,
    {
        let ghost before = *db;
        let since = time_told(server, &list[i].0);
        let mut p: Option<CloudPacket> = None;
        if list[i].1 > since {
            let reads = reads_for(files, list[i].0.as_str(), &nothing);
            p = client_deltas(db, list[i].0.as_str(), since, msg_id, reads);
            proof {
                assert(reads_are(files@, list@[i as int].0@, *reads));
            }
        }
        proof {
            assert(push_one(before, *db, files@, list@[i as int].0@, list@[i as int].1, since, msg_id, p));
            let t2 = t.push(*db);
            let p2 = packets.push(p);
            let s2 = list@.take(i + 1);
            assert forall|k: int| 0 <= k < s2.len() implies push_one(
                t2[k],
                t2[k + 1],
                files@,
                (#[trigger] s2[k]).0@,
                s2[k].1,
                told_time(server@, s2[k].0@),
                msg_id,
                p2[k],
            ) by {
                if k < i {
                    assert(s2[k] == list@.take(i as int)[k]);
                    assert(t2[k] == t[k] && t2[k + 1] == t[k + 1]);
                }
            }
            present_push(packets, p);
            t = t2;
            packets = p2;
        }
        match p {
            Some(m) => {
                r.push(m);
            },
            None => {},
        }
        i = i + 1;
    }
    proof {
        assert(list@.take(i as int) =~= list@);
        assert(pushed_along(t, packets, files@, list@, server@, msg_id));
    }
    r
}

/// What follows from a message of the server. What comes from it has no sender: the server
/// has looked at who sent it.
pub open spec fn client_heard(
    a: Hako,
    seen0: Seq<u128>,
    b: Hako,
    seen1: Seq<u128>,
    files: Map<Seq<char>, FileReads>,
    dirs: Seq<Seq<char>>,
    msg_id: u128,
    packet: CloudPacket,
    r: ServerStep,
) -> bool {
    match packet {
        CloudPacket::Replication { msg_id: n, collection, ops } => {
            &&& b == a
            &&& r.replies@.len() == 0
            &&& if n != 0 && seen0.contains(n) {
                r.ingest@.len() == 0 && seen1 == seen0
            } else {
                &&& items_view(r.ingest@) == items_of(collection@, ""@, ops_view(ops@), None)
                &&& seen1 == (if n != 0 {
                    remembered(seen0, n)
                } else {
                    seen0
                })
            }
        },
        CloudPacket::VersionPing { versions } => {
            &&& r.ingest@.len() == 0
            &&& seen1 == seen0
            &&& exists|list: Seq<(String, i64)>, m: Hako|
                #![trigger own_versions(a, dirs, list), places_same(a, m)]
                own_versions(a, dirs, list) && places_same(a, m) && pushed(
                    m,
                    b,
                    files,
                    list,
                    versions@,
                    msg_id,
                    r.replies@,
                )
        },
        _ => b == a && seen1 == seen0 && r.ingest@.len() == 0 && r.replies@.len() == 0,
    }
}

/// Hears a message of the server.
pub fn client_hear(
    db: &mut Hako,
    seen: &mut SeenMessages,
    files: &NameTable<FileReads>,
    dirs: &Vec<String>,
    msg_id: u128,
    packet: &CloudPacket,
) -> (r: ServerStep)
    requires
        old(db).wf(),
        old(seen).wf(),
        files_wf(*files),
        (*packet) matches CloudPacket::VersionPing { versions } ==> versions.wf(),
    ensures
        final(db).wf(),
        final(seen).wf(),
        client_heard(
            *old(db),
            old(seen).seq(),
            *final(db),
            final(seen).seq(),
            files@,
            names_view(dirs@),
            msg_id,
            *packet,
            r,
        ),
{
    match packet {
        CloudPacket::Replication { msg_id: n, collection, ops } => {
            if seen.note(*n) {
                ServerStep { ingest: make_items(collection.as_str(), "", ops, None), replies: Vec::new() }
            } else {
                ServerStep { ingest: Vec::new(), replies: Vec::new() }
            }
        },
        CloudPacket::VersionPing { versions } => {
            let ghost a = *db;
            let list = db.get_version_map(dirs);
            let ghost m = *db;
            proof {
                assert(own_versions(a, names_view(dirs@), list@));
                assert(places_same(a, m));
            }
            let replies = push_upstream(db, files, &list, versions, msg_id);
            ServerStep { ingest: Vec::new(), replies }
        },
        _ => ServerStep { ingest: Vec::new(), replies: Vec::new() },
    }
}

/// No colon stands among hexadecimal digits.
proof fn hex_has_no_colon(s: Seq<u8>)
    ensures
        !hex(s).contains(':'),
    decreases s.len(),
{
    if s.len() > 0 {
        hex_has_no_colon(s.drop_last());
        let n = s.last() as nat;
        let t = padded(n, 16, 2);
        reveal_with_fuel(padded, 3);
        assert(t =~= seq![digit((n / 16) % 16), digit(n % 16)]);
        assert(digit((n / 16) % 16) != ':');
        assert(digit(n % 16) != ':');
        assert forall|i: int| 0 <= i < hex(s).len() implies hex(s)[i] != ':' by {
            let h = hex(s.drop_last());
            if i < h.len() {
                assert(h[i] == hex(s)[i]);
                assert(h.contains(h[i]));
            } else {
                assert(hex(s)[i] == t[i - h.len()]);
            }
        }
    }
}

/// Clients of different rooms, and different clients of one, are different peers: a client
/// may have the same id in two rooms.
pub proof fn peers_do_not_clash(
    name1: Seq<char>,
    key1: Seq<char>,
    client1: Seq<char>,
    name2: Seq<char>,
    key2: Seq<char>,
    client2: Seq<char>,
)
    requires
        room_id(name1, key1) != room_id(name2, key2) || client1 != client2,
    ensures
        peer_name(room_id(name1, key1), client1) != peer_name(room_id(name2, key2), client2),
{
    let (a, b) = (room_id(name1, key1), room_id(name2, key2));
    hex_has_no_colon(sha256_digest(room_bytes(name1, key1)));
    hex_has_no_colon(sha256_digest(room_bytes(name2, key2)));
    reveal_strlit(":");
    let (p, q) = (peer_name(a, client1), peer_name(b, client2));
    if p == q {
        assert(p[a.len() as int] == ':');
        assert(q[b.len() as int] == ':');
        if a.len() < b.len() {
            assert(q[a.len() as int] == b[a.len() as int]);
            assert(b.contains(b[a.len() as int]));
        }
        if b.len() < a.len() {
            assert(p[b.len() as int] == a[b.len() as int]);
            assert(a.contains(a[b.len() as int]));
        }
        assert(a =~= p.take(a.len() as int));
        assert(b =~= q.take(b.len() as int));
        assert(client1 =~= p.skip(a.len() as int + 1));
        assert(client2 =~= q.skip(b.len() as int + 1));
    }
}

} // verus!
