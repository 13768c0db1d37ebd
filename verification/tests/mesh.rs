use hakodb::config::{DurabilityMode, HakoConfig};
use hakodb::directory::NameTable;
use hakodb::document::firelite_doc::FireLiteDoc;
use hakodb::document::value::Value;
use hakodb::engine::access::is_collection_encrypted;
use hakodb::engine::engine::Hako;
use hakodb::engine::files::FileReads;
use hakodb::net_sync::beacon::{
    decode_beacon, encode_beacon, merge_beacon, prune_stale_peers, BeaconPacket, DiscoveryCache, Sighting,
    BEACON_EXPIRY_MILLIS, BEACON_MAGIC,
};
use hakodb::net_sync::delta::{collect_delta_ops, peer_may_send};
use hakodb::net_sync::discovery::{default_discovery_mode, transports_for};
use hakodb::net_sync::{DiscoveryMode, NetSyncer};
use hakodb::storage::wal::WalOp;
use hakodb::sync_guard::{key_fingerprint, local_caps, local_fingerprint, CapsMap, PeerCaps};

fn temp_db() -> Hako {
    let mut cfg = HakoConfig::default();
    cfg.durability_mode = DurabilityMode::Manual;
    Hako::open(cfg, None, None)
}

fn temp_enc_db(key: &str) -> Hako {
    let mut cfg = HakoConfig::default();
    cfg.durability_mode = DurabilityMode::Manual;
    cfg.encryption_key = Some(key.to_string());
    Hako::open(cfg, None, None)
}

fn put_simple(db: &mut Hako, col: &str, id: &str, now: i64) {
    let mut doc = FireLiteDoc::default();
    doc.insert("v".to_string(), Value::Int(1));
    assert!(db.put(col, id, &doc, now).is_ok());
}

#[test]
fn delta_send_withholds_local_only_tombstones() {
    let mut db = temp_db();
    let files: NameTable<FileReads> = NameTable::new();
    put_simple(&mut db, "c", "keep", 1_000_000);
    put_simple(&mut db, "c", "gone-normal", 2_000_000);
    put_simple(&mut db, "c", "gone-local", 3_000_000);
    assert!(db.delete("c", "gone-normal", 4_000_000, &files).is_ok());
    assert!(db.delete_local("c", "gone-local", 5_000_000, &files).1.is_ok());

    let ops = collect_delta_ops(&mut db, "c", 0, &FileReads::new());
    let mut puts = 0;
    let mut dels = Vec::new();
    for op in &ops {
        match op {
            WalOp::PutInlined { .. } => puts += 1,
            WalOp::Delete { key, .. } => dels.push(key.clone()),
            _ => {}
        }
    }
    assert_eq!(puts, 1, "expected only the live doc");
    assert_eq!(dels, vec!["gone-normal".to_string()], "local tombstone leaked");
}

#[test]
fn delta_send_empty_for_local_collection() {
    let mut db = temp_db();
    put_simple(&mut db, "c", "a", 1_000_000);
    assert!(db.set_collection_local("c", true, 2_000_000).is_ok());

    assert!(collect_delta_ops(&mut db, "c", 0, &FileReads::new()).is_empty());
}

fn beacon_pkt(id: &str, room: &[u8; 32], port: u16) -> BeaconPacket {
    BeaconPacket { magic: BEACON_MAGIC, id: id.to_string(), room_hash: *room, tcp_port: port, known: vec![] }
}

#[test]
fn beacon_roundtrip_and_rejects_garbage() {
    let room = [7u8; 32];
    let p = beacon_pkt("node-a", &room, 7070);
    let back = decode_beacon(&encode_beacon(&p)).expect("roundtrip");
    assert_eq!(back.id, "node-a");
    assert_eq!(back.tcp_port, 7070);

    assert!(decode_beacon(b"not a beacon").is_none());
    let mut bad = encode_beacon(&p);
    bad[0] ^= 0xFF;
    assert!(decode_beacon(&bad).is_none());
}

fn addr_of(cache: &DiscoveryCache, id: &str) -> String {
    cache.get(&id.to_string()).unwrap().addr.clone()
}

#[test]
fn beacon_merge_rules() {
    let room_a = [1u8; 32];
    let room_b = [2u8; 32];
    let now = 1_000_000u64;
    let mut cache = DiscoveryCache::new();
    let src = "192.168.1.20";

    let mut foreign = beacon_pkt("node-x", &room_b, 7070);
    assert!(!merge_beacon(&mut cache, &foreign, src, "node-me", &room_a, now));
    foreign.room_hash = room_a;
    foreign.id = "node-me".to_string();
    assert!(!merge_beacon(&mut cache, &foreign, src, "node-me", &room_a, now));
    assert_eq!(cache.len(), 0);

    let p = beacon_pkt("node-x", &room_a, 7070);
    assert!(merge_beacon(&mut cache, &p, src, "node-me", &room_a, now));
    assert_eq!(addr_of(&cache, "node-x"), "192.168.1.20:7070");

    assert!(!merge_beacon(&mut cache, &p, src, "node-me", &room_a, now));
    let p2 = beacon_pkt("node-x", &room_a, 8080);
    assert!(merge_beacon(&mut cache, &p2, src, "node-me", &room_a, now));
    assert_eq!(addr_of(&cache, "node-x"), "192.168.1.20:8080");

    let mut g = beacon_pkt("node-x", &room_a, 8080);
    g.known = vec![
        ("node-y".to_string(), "192.168.1.30:7070".to_string()),
        ("node-me".to_string(), "192.168.1.99:9999".to_string()),
    ];
    assert!(merge_beacon(&mut cache, &g, src, "node-me", &room_a, now));
    assert_eq!(addr_of(&cache, "node-y"), "192.168.1.30:7070");
    assert!(!cache.contains(&"node-me".to_string()));
}

#[test]
fn stale_peers_pruned() {
    let now = 1_000_000u64;
    let old = now - BEACON_EXPIRY_MILLIS - 1000;
    let mut cache = DiscoveryCache::new();
    cache.insert("fresh".to_string(), Sighting { addr: "1.2.3.4:1".to_string(), seen: now });
    cache.insert("gone".to_string(), Sighting { addr: "1.2.3.5:1".to_string(), seen: old });
    prune_stale_peers(&mut cache, now);
    assert!(cache.contains(&"fresh".to_string()));
    assert!(!cache.contains(&"gone".to_string()));
}

#[test]
fn transports_for_matrix() {
    assert_eq!(transports_for(DiscoveryMode::Mdns), (true, false));
    assert_eq!(transports_for(DiscoveryMode::Broadcast), (false, true));
    assert_eq!(transports_for(DiscoveryMode::Both), (true, true));
}

#[test]
fn platform_default_discovery() {
    // "android" and "ios" are mobile, and have no multicast; every other system is not.
    for (os, mobile) in [("android", true), ("ios", true), ("linux", false)] {
        let mode = default_discovery_mode(mobile);
        if ["android", "ios"].contains(&os) {
            assert_eq!(mode, DiscoveryMode::Broadcast);
        } else {
            assert_eq!(mode, DiscoveryMode::Mdns);
        }
    }
}

#[test]
fn with_discovery_overrides_default() {
    let mut db = temp_db();
    let reads = FileReads::new();
    let s = NetSyncer::new(&mut db, "n", "k", vec![], false, 0, &reads).with_discovery(DiscoveryMode::Both);
    assert_eq!(s.discovery_mode(), DiscoveryMode::Both);
    let mut other = temp_db();
    let d = NetSyncer::new(&mut other, "n", "k", vec![], false, 0, &reads);
    assert_eq!(d.discovery_mode(), default_discovery_mode(false));
}

#[test]
fn local_caps_reflects_at_rest_config() {
    let plain_db = temp_db();
    let plain = local_caps(&plain_db.config, &vec![]);
    assert_eq!(plain.key_fp, [0u8; 32]);
    assert!(plain.encrypted_cols.is_empty());

    let mut enc_db = temp_enc_db("s3cret");
    assert!(is_collection_encrypted(&enc_db.config, "notes"));
    assert!(!is_collection_encrypted(&plain_db.config, "notes"));
    let caps = local_caps(&enc_db.config, &vec![]);
    assert_eq!(caps.key_fp, key_fingerprint("s3cret"));
    put_simple(&mut enc_db, "notes", "a", 1_000_000);
    let caps = local_caps(&enc_db.config, &vec!["notes".to_string()]);
    assert!(caps.encrypted_cols.contains(&"notes".to_string()));
}

#[test]
fn sender_rule_end_to_end_per_peer() {
    let mut enc_db = temp_enc_db("s3cret");
    put_simple(&mut enc_db, "notes", "a", 1_000_000);
    let mut caps_map = CapsMap::new();
    let key = "s3cret".to_string();
    let fp = local_fingerprint(Some(&key));

    assert!(!peer_may_send(&enc_db, &caps_map, &"old-peer".to_string(), "notes", &fp));
    caps_map.insert(
        "other-peer".to_string(),
        PeerCaps { key_fp: [9u8; 32], encrypted_cols: vec!["notes".to_string()] },
    );
    assert!(!peer_may_send(&enc_db, &caps_map, &"other-peer".to_string(), "notes", &fp));
    caps_map.insert("good-peer".to_string(), PeerCaps { key_fp: fp, encrypted_cols: vec!["notes".to_string()] });
    assert!(peer_may_send(&enc_db, &caps_map, &"good-peer".to_string(), "notes", &fp));

    let mut plain_db = temp_db();
    put_simple(&mut plain_db, "open", "a", 1_000_000);
    let fp_none = local_fingerprint(None);
    assert!(peer_may_send(&plain_db, &caps_map, &"old-peer".to_string(), "open", &fp_none));
    assert!(peer_may_send(&plain_db, &caps_map, &"good-peer".to_string(), "open", &fp_none));
}
