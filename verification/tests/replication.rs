use hakodb::cloud_sync::auth::CloudAuthenticator;
use hakodb::cloud_sync::broadcaster::SyncBroadcaster;
use hakodb::cloud_sync::catchup::{catchup_deltas, client_deltas};
use hakodb::cloud_sync::config::CloudSyncConfig;
use hakodb::cloud_sync::ingest::{flush_ingest_buffer, EchoCache, IngestBuffer, IngestItem};
use hakodb::cloud_sync::packet::CloudPacket;
use hakodb::cloud_sync::protocol::SyncOp;
use hakodb::cloud_sync::rooms::{hash_room_id, storage_col_name, RoomRegistry};
use hakodb::cloud_sync::seen::SeenMessages;
use hakodb::cloud_sync::session::{client_admitted, client_hear, greet_client, join_request, part_client, server_hear, Hall};
use hakodb::cloud_sync::tail::{client_outbound, server_outbound};
use hakodb::cloud_sync::transport::TcpTransport;
use hakodb::cloud_sync::url::normalize_url;
use hakodb::cloud_sync::access::hash_api_key;
use hakodb::config::HakoConfig;
use hakodb::directory::NameTable;
use hakodb::document::firelite_doc::FireLiteDoc;
use hakodb::document::value::Value;
use hakodb::engine::engine::Hako;
use hakodb::engine::files::FileReads;
use hakodb::net_sync::address::{dial_address, endpoint_text, node_name};
use hakodb::net_sync::beacon::{
    decode_beacon, encode_beacon, known_nodes, make_beacon, BeaconPacket, DiscoveryCache, Sighting, BEACON_MAGIC,
};
use hakodb::net_sync::delta::{collect_delta_ops, DELTA_CHUNK};
use hakodb::net_sync::intake::apply_replication_batch;
use hakodb::net_sync::packet::NetPacket;
use hakodb::net_sync::peer::{announce_caps, hear, make_ping, tail_send};
use hakodb::net_sync::syncer::dial_list;
use hakodb::net_sync::NetSyncer;
use hakodb::storage::wal::WalOp;
use hakodb::sync_guard::{caps_allow, fp_short, key_fingerprint, CapsMap, PeerCaps};

fn open() -> Hako {
    Hako::open(HakoConfig::default(), None, None)
}

fn open_encrypted(key: &str) -> Hako {
    let mut config = HakoConfig::default();
    config.encryption_key = Some(key.to_string());
    Hako::open(config, None, None)
}

fn none() -> NameTable<FileReads> {
    NameTable::new()
}

fn doc(n: i64) -> FireLiteDoc {
    let mut d = FireLiteDoc::default();
    d.insert("n".to_string(), Value::Int(n));
    d
}

fn put(n: i64, key: &str, time: i64) -> WalOp {
    let mut d = doc(n);
    d._time = time;
    WalOp::PutInlined { key: key.to_string(), value: d.encode() }
}

fn n_of(db: &mut Hako, col: &str, id: &str) -> Option<i64> {
    match db.get(col, id, &FileReads::new()) {
        Ok(Some(d)) => match d.get("n") {
            Some(Value::Int(n)) => Some(*n),
            _ => None,
        },
        _ => None,
    }
}

fn authenticate(room: &str, key: &str, client: &str) -> CloudPacket {
    CloudPacket::Authenticate {
        token: "t".to_string(),
        client_id: client.to_string(),
        room_name: room.to_string(),
        room_key: key.to_string(),
        api_key: None,
        client_version: None,
        enc_fp: None,
        enc_cols: vec![],
    }
}

#[test]
fn digests_are_those_of_the_outside_crate() {
    assert_eq!(hash_api_key("abc"), "ba7816bf8f01cfea414140de5dae2223b00361a396177a9cb410ff61f20015ad");
    assert_eq!(fp_short(&key_fingerprint("abc")), "ba7816bf");
    assert_ne!(hash_room_id("a", "bc"), hash_room_id("ab", "c"));
    assert_eq!(hash_room_id("a", "b").len(), 64);
}

#[test]
fn a_made_up_client_id_differs_from_call_to_call() {
    let ids: Vec<String> = (0..8).map(|_| CloudSyncConfig::default().client_id).collect();
    assert!(ids.iter().any(|i| *i != ids[0]));
}

#[test]
fn addresses_name_web_sockets() {
    assert_eq!(normalize_url("https://a.dev"), "wss://a.dev");
    assert_eq!(normalize_url("http://a.dev"), "ws://a.dev");
    assert_eq!(normalize_url(" a.dev:80 "), "wss://a.dev:80");
    assert_eq!(normalize_url("wss://a.dev"), "wss://a.dev");
}

#[test]
fn tokens_and_frames() {
    let auth = CloudAuthenticator::new("secret");
    assert!(auth.validate_token("secret"));
    assert!(!auth.validate_token("other"));
    let f = TcpTransport::frame(b"xyz");
    assert_eq!(TcpTransport::unframe(&f), Some((b"xyz".to_vec(), f.len())));
    let mut bc = SyncBroadcaster::new();
    assert!(bc.flush().is_none());
    bc.enqueue_ops(vec![SyncOp::Delete { collection: "c".to_string(), doc_id: "d".to_string(), version: 1 }]);
    assert_eq!(bc.flush().map(|o| o.len()), Some(1));
    assert!(bc.flush().is_none());
}

#[test]
fn messages_are_new_once() {
    let mut s = SeenMessages::new();
    assert!(s.note(7));
    assert!(!s.note(7));
    assert!(s.note(8));
}

#[test]
fn a_client_is_let_in_and_leaves() {
    let mut db = open();
    let mut hall = Hall::new();
    let r = FileReads::new();
    let a = greet_client(&mut db, &mut hall, Some(&authenticate("game", "k", "c1")), &r, &r, 1, 1_000);
    let s = a.session.unwrap();
    assert_eq!(s.prefix, "game");
    assert!(matches!(a.reply, CloudPacket::AuthResult { success: true, error: None }));
    assert_eq!(hall.peers.len(), 1);
    // The same id in another room is another peer.
    let b = greet_client(&mut db, &mut hall, Some(&authenticate("game", "k2", "c1")), &r, &r, 1, 2_000);
    let t = b.session.unwrap();
    assert_eq!(t.prefix, "game_1");
    assert_ne!(s.peer_key, t.peer_key);
    assert_eq!(hall.peers.len(), 2);
    part_client(&mut hall, &s);
    assert_eq!(hall.peers.len(), 1);
    // Anything but a request to join is refused.
    let c = greet_client(&mut db, &mut hall, None, &r, &r, 1, 3_000);
    assert!(c.session.is_none());
    assert!(matches!(c.reply, CloudPacket::AuthResult { success: false, .. }));
}

#[test]
fn changes_of_a_client_reach_the_room_and_no_other() {
    let mut db = open();
    let mut hall = Hall::new();
    let r = FileReads::new();
    let mut sessions = Vec::new();
    for (room, client) in [("game", "a"), ("game", "b"), ("chat", "a")] {
        let s = greet_client(&mut db, &mut hall, Some(&authenticate(room, "k", client)), &r, &r, 1, 1_000).session;
        sessions.push(s.unwrap());
    }
    let mut seen = SeenMessages::new();
    let packet = CloudPacket::Replication { msg_id: 5, collection: "users".to_string(), ops: vec![put(3, "u", 100)] };
    let step = server_hear(&mut db, &mut seen, &sessions[0], &hall.caps, &none(), &vec![], &packet);
    assert_eq!(step.ingest.len(), 1);
    assert_eq!(step.ingest[0].collection, "users");
    // The same message again is nothing new.
    let again = server_hear(&mut db, &mut seen, &sessions[0], &hall.caps, &none(), &vec![], &packet);
    assert!(again.ingest.is_empty());
    let mut buffer = IngestBuffer::new();
    for item in step.ingest {
        assert!(!buffer.push(item));
    }
    let mut echo = EchoCache::new();
    let flushed = flush_ingest_buffer(&mut db, &mut buffer, &mut echo, &hall.caps, &hall.peers, &none(), 200);
    assert_eq!(flushed.len(), 1);
    assert_eq!(flushed[0].relays.len(), 1);
    assert_eq!(flushed[0].relays[0].recipients, vec![sessions[1].peer_key.clone()]);
    assert_eq!(n_of(&mut db, &storage_col_name("game", "users"), "u"), Some(3));
    assert_eq!(n_of(&mut db, &storage_col_name("chat", "users"), "u"), None);
    // What came from elsewhere is not sent back by the tailer.
    let ops = vec![put(3, "u", 100)];
    let out = server_outbound(&mut db, &hall.rooms, &mut echo, &hall.caps, &hall.peers, "game_users", &ops, 9, &r);
    assert!(out.is_none());
}

#[test]
fn an_older_change_is_turned_away() {
    let mut db = open();
    let mut hall = Hall::new();
    let r = FileReads::new();
    let s = greet_client(&mut db, &mut hall, Some(&authenticate("game", "k", "a")), &r, &r, 1, 1_000).session.unwrap();
    let mut echo = EchoCache::new();
    for (n, time) in [(1i64, 100i64), (2, 50)] {
        let mut buffer = IngestBuffer::new();
        buffer.push(IngestItem {
            collection: "users".to_string(),
            prefix: s.prefix.clone(),
            op: put(n, "u", time),
            sender_client_id: Some(s.peer_key.clone()),
        });
        flush_ingest_buffer(&mut db, &mut buffer, &mut echo, &hall.caps, &hall.peers, &none(), 1_000);
    }
    assert_eq!(n_of(&mut db, "game_users", "u"), Some(1));
}

#[test]
fn strangers_get_nothing_of_an_encrypted_collection() {
    let mut db = open_encrypted("key");
    assert!(db.put("c", "a", &doc(1), 1_000_000).is_ok());
    let mut caps = CapsMap::new();
    let r = FileReads::new();
    let peer = "p".to_string();
    assert!(catchup_deltas(&mut db, "c", "c", 0, &peer, &caps, &r).is_none());
    caps.insert(peer.clone(), PeerCaps { key_fp: [1; 32], encrypted_cols: vec![] });
    assert!(catchup_deltas(&mut db, "c", "c", 0, &peer, &caps, &r).is_none());
    caps.insert(peer.clone(), PeerCaps { key_fp: key_fingerprint("key"), encrypted_cols: vec![] });
    assert!(catchup_deltas(&mut db, "c", "c", 0, &peer, &caps, &r).is_some());
    assert!(!caps_allow(true, &[0; 32], Some(&PeerCaps { key_fp: [0; 32], encrypted_cols: vec![] })));
    assert!(caps_allow(false, &[0; 32], None));
}

#[test]
fn a_client_catches_up_and_tells_its_own() {
    let mut server = open();
    let mut client = open();
    let r = FileReads::new();
    assert!(client.put("users", "mine", &doc(1), 5_000_000).is_ok());
    let dirs = vec!["users".to_string()];
    let join = join_request(&client, &dirs, "tok", "me", "game", "k", &None, "1.0");
    let mut hall = Hall::new();
    let session = greet_client(&mut server, &mut hall, Some(&join), &r, &r, 1, 1_000).session.unwrap();
    let ping = client_admitted(&mut client, &dirs, &CloudPacket::AuthResult { success: true, error: None }).unwrap();
    let refused = CloudPacket::AuthResult { success: false, error: Some("no".to_string()) };
    assert!(client_admitted(&mut client, &dirs, &refused).is_none());
    let mut seen = SeenMessages::new();
    let step = server_hear(&mut server, &mut seen, &session, &hall.caps, &none(), &vec![], &ping);
    assert!(!step.replies.is_empty());
    // What the server answers makes the client tell what the server lacks.
    let mut heard = SeenMessages::new();
    let mut told = 0;
    for p in &step.replies {
        let s = client_hear(&mut client, &mut heard, &none(), &dirs, 77, p);
        for q in &s.replies {
            if let CloudPacket::Replication { ops, collection, .. } = q {
                assert_eq!(collection, "users");
                told += ops.len();
            }
        }
    }
    assert_eq!(told, 1);
    assert!(client_deltas(&mut client, "users", 0, 1, &r).is_some());
    assert!(client_deltas(&mut client, "users", i64::MAX, 1, &r).is_none());
}

#[test]
fn what_stays_on_this_device_is_not_sent() {
    let mut db = open();
    let mut echo = EchoCache::new();
    let r = FileReads::new();
    assert!(db.put("c", "a", &doc(1), 1_000_000).is_ok());
    let ops = vec![put(1, "a", 1_000)];
    assert!(client_outbound(&mut db, &mut echo, "c", &ops, 1, &r).is_some());
    assert!(db.delete_local("c", "a", 2_000_000, &none()).1.is_ok());
    let gone = vec![WalOp::Delete { key: "a".to_string(), timestamp: 2_000 }];
    assert!(client_outbound(&mut db, &mut echo, "c", &gone, 2, &r).is_none());
}

#[test]
fn nodes_of_the_mesh_agree_whatever_comes_first() {
    let a = vec![put(1, "k", 100)];
    let b = vec![put(2, "k", 200)];
    let mut results = Vec::new();
    for order in [[&a, &b], [&b, &a]] {
        let mut db = open();
        let mut echo = EchoCache::new();
        for ops in order {
            apply_replication_batch(&mut db, &mut echo, "c", ops, &FileReads::new());
        }
        results.push(n_of(&mut db, "c", "k"));
        // Again is nothing.
        assert!(apply_replication_batch(&mut db, &mut echo, "c", &b, &FileReads::new()).is_none());
    }
    assert_eq!(results, vec![Some(2), Some(2)]);
}

#[test]
fn a_peer_of_the_mesh_is_told_what_it_lacks() {
    let mut db = open();
    let r = FileReads::new();
    assert!(db.put("c", "a", &doc(4), 1_000_000).is_ok());
    let mut node = NetSyncer::new(&mut db, "n1", "room", vec!["private".to_string()], false, 0, &r);
    let peer = "n2".to_string();
    node.add_peer(&peer);
    assert_eq!(node.status().peer_count, 1);
    let dirs = vec!["c".to_string(), "private".to_string()];
    let step = hear(&mut db, &mut node, &peer, &none(), &dirs, 5, &NetPacket::SyncRequest);
    let mut told = 0;
    for p in &step.replies {
        if let NetPacket::Replication { collection, ops, .. } = p {
            assert_eq!(collection, "c");
            told += ops.len();
        }
    }
    assert_eq!(told, 1);
    // The peer takes it over.
    let mut other = open();
    let mut far = NetSyncer::new(&mut other, "n2", "room", vec![], false, 0, &r);
    let me = "n1".to_string();
    far.add_peer(&me);
    for p in &step.replies {
        hear(&mut other, &mut far, &me, &none(), &vec![], 6, p);
    }
    assert_eq!(n_of(&mut other, "c", "a"), Some(4));
    // What came from there is not sent back.
    let ops = collect(&step.replies);
    assert!(tail_send(&mut other, &mut far, &"c".to_string(), &ops, 9, &r).is_none());
    assert!(matches!(make_ping(&mut db, &dirs), NetPacket::Ping { .. }));
    assert!(matches!(announce_caps(&db, &dirs), NetPacket::SyncCaps { .. }));
    assert_eq!(node.recognize(&far.identify()), Some("n2".to_string()));
    let stranger = NetSyncer::new(&mut open(), "n3", "other room", vec![], false, 0, &r);
    assert_eq!(node.recognize(&stranger.identify()), None);
    node.remove_peer(&peer);
    assert_eq!(node.status().peer_count, 0);
}

fn collect(packets: &Vec<NetPacket>) -> Vec<WalOp> {
    let mut ops = Vec::new();
    for p in packets {
        if let NetPacket::Replication { ops: list, .. } = p {
            for op in list {
                if let WalOp::PutInlined { key, value } = op {
                    ops.push(WalOp::PutInlined { key: key.clone(), value: value.clone() });
                }
            }
        }
    }
    ops
}

#[test]
fn a_node_goes_on_where_it_stopped() {
    let mut db = open();
    let r = FileReads::new();
    let mut node = NetSyncer::new(&mut db, "n", "k", vec![], false, 0, &r);
    let c = "c".to_string();
    assert_eq!(node.offset(&c), 0);
    node.set_offset(&c, 42);
    assert!(node.save_checkpoint(&mut db, 1_000).is_ok());
    let again = NetSyncer::new(&mut db, "n", "k", vec![], false, 0, &r);
    assert_eq!(again.offset(&c), 42);
}

#[test]
fn nodes_are_found_and_one_dials() {
    let mut cache = DiscoveryCache::new();
    cache.insert("b".to_string(), Sighting { addr: "10.0.0.2:7".to_string(), seen: 1 });
    assert_eq!(known_nodes(&cache), vec![("b".to_string(), "10.0.0.2:7".to_string())]);
    let beacon = make_beacon(&cache, "a", &[1; 32], 9);
    assert_eq!(beacon.known.len(), 1);
    let mut db = open();
    let a = NetSyncer::new(&mut db, "a", "k", vec![], false, 0, &FileReads::new());
    let z = NetSyncer::new(&mut db, "z", "k", vec![], false, 0, &FileReads::new());
    assert_ne!(dial_list(&a, &cache).len(), dial_list(&z, &cache).len());
    assert_eq!(dial_address(&vec![[127, 0, 0, 1], [192, 168, 1, 5]], 80), Some("192.168.1.5:80".to_string()));
    assert_eq!(dial_address(&vec![], 80), None);
    assert_eq!(endpoint_text("h", 65535), "h:65535");
    assert_eq!(node_name("n1._hakodb._tcp.local."), "n1");
}

fn text_put(text: &str, key: &str, time: i64) -> WalOp {
    let mut d = FireLiteDoc::default();
    d.insert("text".to_string(), Value::String(text.to_string()));
    d._time = time;
    WalOp::PutInlined { key: key.to_string(), value: d.encode() }
}

fn text_of(db: &mut Hako, col: &str, id: &str) -> Option<String> {
    match db.get(col, id, &FileReads::new()) {
        Ok(Some(d)) => match d.get("text") {
            Some(Value::String(s)) => Some(s.clone()),
            _ => None,
        },
        _ => None,
    }
}

#[test]
fn large_values_come_over_the_mesh_in_any_order() {
    let long = "x".repeat(300);
    let longer = "y".repeat(500);
    let a = vec![text_put(&long, "k", 100)];
    let b = vec![text_put(&longer, "k", 200)];
    let c = vec![text_put(&long, "other", 150)];
    let gone = vec![WalOp::Delete { key: "other".to_string(), timestamp: 160 }];
    for order in [[&a, &b, &c, &gone], [&gone, &b, &c, &a], [&c, &gone, &b, &a], [&b, &a, &gone, &c]] {
        let mut config = HakoConfig::default();
        config.value_blob_threshold_bytes = 64;
        let mut db = Hako::open(config, None, None);
        let mut echo = EchoCache::new();
        for ops in order {
            apply_replication_batch(&mut db, &mut echo, "c", ops, &FileReads::new());
        }
        assert_eq!(text_of(&mut db, "c", "k"), Some(longer.clone()));
        assert_eq!(text_of(&mut db, "c", "other"), None);
        assert!(apply_replication_batch(&mut db, &mut echo, "c", &b, &FileReads::new()).is_none());
    }
    let mut config = HakoConfig::default();
    config.value_blob_threshold_bytes = 64;
    let mut db = Hako::open(config, None, None);
    let mut echo = EchoCache::new();
    let both = vec![text_put(&long, "k", 100), text_put(&longer, "other", 100)];
    assert!(apply_replication_batch(&mut db, &mut echo, "c", &both, &FileReads::new()).is_some());
    assert_eq!(text_of(&mut db, "c", "k"), Some(long));
    assert_eq!(text_of(&mut db, "c", "other"), Some(longer));
}

#[test]
fn a_node_that_was_away_reads_what_the_other_reads() {
    let long = "x".repeat(300);
    let mut config = HakoConfig::default();
    config.value_blob_threshold_bytes = 64;
    let mut one = Hako::open(config, None, None);
    let mut two = open();
    let mut echo = EchoCache::new();
    let r = FileReads::new();
    for i in 0..70 {
        let ops = vec![text_put(&long, &format!("k{}", i), 100 + i)];
        apply_replication_batch(&mut one, &mut echo, "c", &ops, &r);
    }
    let gone = vec![WalOp::Delete { key: "k69".to_string(), timestamp: 500 }];
    apply_replication_batch(&mut two, &mut EchoCache::new(), "c", &vec![text_put("own", "k69", 300)], &r);
    apply_replication_batch(&mut one, &mut echo, "c", &gone, &r);
    let told = collect_delta_ops(&mut one, "c", 104, &r);
    assert_eq!(told.len(), 65);
    for part in told.chunks(DELTA_CHUNK) {
        apply_replication_batch(&mut two, &mut EchoCache::new(), "c", &part.to_vec(), &r);
    }
    for i in 5..69 {
        assert_eq!(text_of(&mut two, "c", &format!("k{}", i)), Some(long.clone()));
    }
    assert_eq!(text_of(&mut two, "c", "k4"), None);
    assert_eq!(text_of(&mut two, "c", "k69"), None);
}

#[test]
fn documents_that_a_change_does_not_name_stay() {
    let mut db = open();
    let mut hall = Hall::new();
    let r = FileReads::new();
    let s = greet_client(&mut db, &mut hall, Some(&authenticate("game", "k", "a")), &r, &r, 1, 1_000).session.unwrap();
    let mut echo = EchoCache::new();
    let ops = [put(1, "u", 100), put(2, "v", 100), put(3, "u", 200)];
    for op in ops.iter() {
        let mut buffer = IngestBuffer::new();
        buffer.push(IngestItem {
            collection: "users".to_string(),
            prefix: s.prefix.clone(),
            op: op.clone(),
            sender_client_id: Some(s.peer_key.clone()),
        });
        flush_ingest_buffer(&mut db, &mut buffer, &mut echo, &hall.caps, &hall.peers, &none(), 1_000);
    }
    assert_eq!(n_of(&mut db, "game_users", "u"), Some(3));
    assert_eq!(n_of(&mut db, "game_users", "v"), Some(2));
}

#[test]
fn the_later_document_stays_whichever_the_server_hears_first() {
    let older = put(1, "u", 100);
    let newer = put(2, "u", 200);
    let delete = WalOp::Delete { key: "u".to_string(), timestamp: 150 };
    for order in [[&older, &newer, &delete], [&newer, &delete, &older], [&delete, &older, &newer]] {
        let mut db = open();
        let mut hall = Hall::new();
        let r = FileReads::new();
        let s = greet_client(&mut db, &mut hall, Some(&authenticate("game", "k", "a")), &r, &r, 1, 1_000).session.unwrap();
        let mut echo = EchoCache::new();
        for op in order {
            let mut buffer = IngestBuffer::new();
            buffer.push(IngestItem {
                collection: "users".to_string(),
                prefix: s.prefix.clone(),
                op: op.clone(),
                sender_client_id: Some(s.peer_key.clone()),
            });
            flush_ingest_buffer(&mut db, &mut buffer, &mut echo, &hall.caps, &hall.peers, &none(), 1_000);
        }
        assert_eq!(n_of(&mut db, "game_users", "u"), Some(2));
    }
}

#[test]
fn a_message_of_the_mesh_counts_once_and_never_goes_back() {
    let mut db = open();
    let r = FileReads::new();
    let mut node = NetSyncer::new(&mut db, "n1", "room", vec![], false, 0, &r);
    node.enable_relay = true;
    let sender = "n2".to_string();
    for p in ["n2", "n3", "n4"] {
        node.add_peer(&p.to_string());
    }
    node.caps.insert("n2".to_string(), PeerCaps { key_fp: [7; 32], encrypted_cols: vec!["c".to_string()] });
    node.caps.insert("n3".to_string(), PeerCaps { key_fp: [7; 32], encrypted_cols: vec![] });
    node.caps.insert("n4".to_string(), PeerCaps { key_fp: [8; 32], encrypted_cols: vec![] });
    let packet = NetPacket::Replication { msg_id: 5, collection: "c".to_string(), ops: vec![put(3, "u", 100)] };
    let step = hear(&mut db, &mut node, &sender, &none(), &vec![], 5, &packet);
    assert!(step.applied.is_some());
    assert_eq!(step.pass_to, vec!["n3".to_string()]);
    let again = hear(&mut db, &mut node, &sender, &none(), &vec![], 6, &packet);
    assert!(again.applied.is_none());
    assert!(again.pass_to.is_empty());
}

#[test]
fn a_stranger_changes_nothing_that_is_encrypted_here() {
    let mut db = open_encrypted("key");
    let r = FileReads::new();
    let mut node = NetSyncer::new(&mut db, "n1", "room", vec![], false, 0, &r);
    let sender = "n2".to_string();
    node.add_peer(&sender);
    let packet = NetPacket::Replication { msg_id: 5, collection: "c".to_string(), ops: vec![put(3, "u", 100)] };
    let step = hear(&mut db, &mut node, &sender, &none(), &vec![], 5, &packet);
    assert!(step.applied.is_none());
    assert_eq!(n_of(&mut db, "c", "u"), None);
    node.caps.insert(sender.clone(), PeerCaps { key_fp: key_fingerprint("key"), encrypted_cols: vec![] });
    let packet = NetPacket::Replication { msg_id: 6, collection: "c".to_string(), ops: vec![put(3, "u", 100)] };
    let step = hear(&mut db, &mut node, &sender, &none(), &vec![], 6, &packet);
    assert!(step.applied.is_some());
    assert_eq!(n_of(&mut db, "c", "u"), Some(3));
}

fn jumbled(key: &str, time: i64) -> WalOp {
    let d = FireLiteDoc {
        fields: vec![("n".to_string(), Value::Int(1)), ("m".to_string(), Value::Int(2)), ("n".to_string(), Value::Int(3))],
        _time: time,
    };
    WalOp::PutInlined { key: key.to_string(), value: d.encode() }
}

#[test]
fn a_document_with_fields_out_of_order_is_taken_through_a_server() {
    let mut db = open();
    let mut hall = Hall::new();
    let r = FileReads::new();
    let s = greet_client(&mut db, &mut hall, Some(&authenticate("game", "k", "a")), &r, &r, 1, 1_000).session.unwrap();
    let mut echo = EchoCache::new();
    let mut buffer = IngestBuffer::new();
    buffer.push(IngestItem {
        collection: "users".to_string(),
        prefix: s.prefix.clone(),
        op: jumbled("u", 100),
        sender_client_id: Some(s.peer_key.clone()),
    });
    let out = flush_ingest_buffer(&mut db, &mut buffer, &mut echo, &hall.caps, &hall.peers, &none(), 1_000);
    assert_eq!(out.len(), 1);
    let d = db.get("game_users", "u", &r).unwrap().unwrap();
    assert_eq!(d._time, 100);
    assert_eq!(format!("{:?}", d.fields), r#"[("n", Int(1)), ("m", Int(2)), ("n", Int(3))]"#);
    assert_eq!(db.query_all("game_users", &r).unwrap().len(), 1);
}

#[test]
fn a_document_with_fields_out_of_order_is_taken_over_the_mesh() {
    let mut one = open();
    let mut two = open();
    let r = FileReads::new();
    let ops = vec![jumbled("u", 100)];
    assert!(apply_replication_batch(&mut one, &mut EchoCache::new(), "c", &ops, &r).is_some());
    let told = collect_delta_ops(&mut one, "c", 0, &r);
    assert_eq!(told.len(), 1);
    assert!(apply_replication_batch(&mut two, &mut EchoCache::new(), "c", &told, &r).is_some());
    for db in [&mut one, &mut two] {
        let d = db.get("c", "u", &r).unwrap().unwrap();
        assert_eq!(d._time, 100);
        assert_eq!(format!("{:?}", d.fields), r#"[("n", Int(1)), ("m", Int(2)), ("n", Int(3))]"#);
    }
}

#[test]
fn rooms_with_a_nul_in_name_or_key_are_rooms_of_their_own() {
    let pairs = [("a\0b", "c"), ("a", "b\0c"), ("a\0", "b\0c"), ("", "a\0b\0c"), ("a", "b")];
    for (i, x) in pairs.iter().enumerate() {
        for y in pairs.iter().skip(i + 1) {
            assert_ne!(hash_room_id(x.0, x.1), hash_room_id(y.0, y.1));
        }
    }
    let mut db = open();
    let mut hall = Hall::new();
    let r = FileReads::new();
    let mut prefixes = Vec::new();
    for (name, key) in pairs {
        let s = greet_client(&mut db, &mut hall, Some(&authenticate(name, key, "c")), &r, &r, 1, 1_000).session.unwrap();
        assert!(!prefixes.contains(&s.prefix));
        prefixes.push(s.prefix);
    }
    // Without one the id is the digest of both with a NUL between.
    assert_eq!(hash_room_id("a", "b"), hash_api_key("a\0b"));
}

#[test]
fn a_deletion_over_the_mesh_ends_a_document_that_is_held_ready() {
    let mut db = open();
    let mut echo = EchoCache::new();
    let r = FileReads::new();
    apply_replication_batch(&mut db, &mut echo, "c", &vec![put(1, "k", 100)], &r);
    let version = db.versions.current_version(&"k".to_string());
    assert!(version.is_some());
    assert_eq!(n_of(&mut db, "c", "k"), Some(1));
    assert_eq!(n_of(&mut db, "c", "k"), Some(1));
    let gone = vec![WalOp::Delete { key: "k".to_string(), timestamp: 200 }];
    assert!(apply_replication_batch(&mut db, &mut echo, "c", &gone, &r).is_some());
    assert_eq!(n_of(&mut db, "c", "k"), None);
    // Only what is put gets a new version.
    assert_eq!(db.versions.current_version(&"k".to_string()), version);
    apply_replication_batch(&mut db, &mut echo, "c", &vec![put(2, "k", 300)], &r);
    assert_ne!(db.versions.current_version(&"k".to_string()), version);
    assert_eq!(n_of(&mut db, "c", "k"), Some(2));
}

#[test]
fn a_server_that_starts_again_gives_a_room_its_prefix() {
    let mut db = open();
    let r = FileReads::new();
    let mut before = Vec::new();
    for (name, key) in [("game", "k1"), ("game", "k2"), ("gäme", "k1")] {
        let (id, prefix, made) = RoomRegistry::new().resolve(&mut db, name, key, 1, 1_000, &r).unwrap();
        assert!(made.is_some());
        assert_eq!(id.len(), 64);
        before.push((name, key, id, prefix));
    }
    let mut rooms = RoomRegistry::new();
    for (name, key, id, prefix) in before {
        let (again, same, made) = rooms.resolve(&mut db, name, key, 2, 2_000, &r).unwrap();
        assert_eq!((again, same), (id, prefix));
        assert!(made.is_none());
    }
}

#[test]
fn the_bytes_of_a_beacon() {
    let p = BeaconPacket {
        magic: BEACON_MAGIC,
        id: "né".to_string(),
        room_hash: [7; 32],
        tcp_port: 0x0102,
        known: vec![("a".to_string(), "bc".to_string())],
    };
    let mut expected = BEACON_MAGIC.to_le_bytes().to_vec();
    expected.extend([3, 0, 0, 0, 0, 0, 0, 0]);
    expected.extend("né".as_bytes());
    expected.extend([7; 32]);
    expected.extend([2, 1]);
    expected.extend([1, 0, 0, 0, 0, 0, 0, 0]);
    expected.extend([1, 0, 0, 0, 0, 0, 0, 0]);
    expected.extend(b"a");
    expected.extend([2, 0, 0, 0, 0, 0, 0, 0]);
    expected.extend(b"bc");
    let bytes = encode_beacon(&p);
    assert_eq!(bytes, expected);
    // What comes behind a beacon is not looked at, and no byte of it may be missing.
    let mut longer = bytes.clone();
    longer.push(9);
    let back = decode_beacon(&longer).unwrap();
    assert_eq!((back.id, back.tcp_port, back.known), (p.id, p.tcp_port, p.known));
    for n in 0..bytes.len() {
        assert!(decode_beacon(&bytes[..n]).is_none());
    }
}

#[test]
fn rooms_of_many_names_and_servers_share_no_prefix() {
    let mut db = open();
    let r = FileReads::new();
    let pairs = [("a b", "1"), ("a_b", "1"), ("a!b", "2"), ("a b", "2"), ("", "1"), ("room", "1"), ("!", ""), ("a_b_1", "1")];
    let mut seen: Vec<(String, String)> = Vec::new();
    for round in 0..3 {
        let mut rooms = RoomRegistry::new();
        for (n, (name, key)) in pairs.iter().enumerate() {
            let (id, prefix, made) = rooms.resolve(&mut db, name, key, 1, 1_000 + round, &r).unwrap();
            assert_eq!(made.is_some(), round == 0);
            // Writes and reads of other documents change nothing of it.
            db.put("other", &id, &doc(1), 2_000).unwrap();
            assert!(db.get("__hako_rooms", &id, &r).unwrap().is_some());
            if round == 0 {
                seen.push((id, prefix));
            } else {
                assert_eq!(seen[n], (id, prefix));
            }
        }
    }
    for i in 0..seen.len() {
        for j in 0..i {
            assert_ne!(seen[i].0, seen[j].0);
            assert_ne!(seen[i].1, seen[j].1);
        }
    }
}
