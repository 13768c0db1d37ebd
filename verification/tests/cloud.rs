use hakodb::cloud_sync::access::{check_group_access, hash_api_key};
use hakodb::cloud_sync::catchup::collect_catchup_ops;
use hakodb::cloud_sync::rooms::sanitize_room_name;
use hakodb::cloud_sync::RoomRegistry;
use hakodb::config::{DurabilityMode, HakoConfig};
use hakodb::directory::NameTable;
use hakodb::document::firelite_doc::FireLiteDoc;
use hakodb::document::value::Value;
use hakodb::engine::engine::Hako;
use hakodb::engine::files::FileReads;
use hakodb::storage::wal::WalOp;

fn temp_db() -> Hako {
    let mut cfg = HakoConfig::default();
    cfg.durability_mode = DurabilityMode::Manual;
    Hako::open(cfg, None, None)
}

fn resolve(reg: &mut RoomRegistry, db: &mut Hako, name: &str, key: &str) -> (String, String) {
    match reg.resolve(db, name, key, 1, 1_000_000, &FileReads::new()) {
        Ok((id, prefix, _)) => (id, prefix),
        Err(e) => panic!("{}", e.text()),
    }
}

#[test]
fn same_room_key_pair_reuses_prefix() {
    let mut db = temp_db();
    let mut reg = RoomRegistry::new();
    let (id1, p1) = resolve(&mut reg, &mut db, "alpha", "k1");
    let (id2, p2) = resolve(&mut reg, &mut db, "alpha", "k1");
    assert_eq!(id1, id2);
    assert_eq!(p1, p2);
    assert_eq!(p1, "alpha");
}

#[test]
fn same_name_different_key_gets_suffix() {
    let mut db = temp_db();
    let mut reg = RoomRegistry::new();
    let (_, p1) = resolve(&mut reg, &mut db, "alpha", "k1");
    let (_, p2) = resolve(&mut reg, &mut db, "alpha", "k2");
    let (_, p3) = resolve(&mut reg, &mut db, "alpha", "k3");
    assert_eq!(p1, "alpha");
    assert_eq!(p2, "alpha_1");
    assert_eq!(p3, "alpha_2");
}

#[test]
fn different_names_are_independent() {
    let mut db = temp_db();
    let mut reg = RoomRegistry::new();
    let (_, p1) = resolve(&mut reg, &mut db, "alpha", "k1");
    let (_, p2) = resolve(&mut reg, &mut db, "beta", "k1");
    assert_eq!(p1, "alpha");
    assert_eq!(p2, "beta");
}

#[test]
fn prefix_persists_across_registry_restart() {
    let mut db = temp_db();
    {
        let mut reg = RoomRegistry::new();
        let (_, p1) = resolve(&mut reg, &mut db, "alpha", "k1");
        let (_, p2) = resolve(&mut reg, &mut db, "alpha", "k2");
        assert_eq!(p1, "alpha");
        assert_eq!(p2, "alpha_1");
    }
    // A fresh registry over the same store reads the prefixes back.
    let mut reg = RoomRegistry::new();
    let (_, p1) = resolve(&mut reg, &mut db, "alpha", "k1");
    let (_, p2) = resolve(&mut reg, &mut db, "alpha", "k2");
    assert_eq!(p1, "alpha");
    assert_eq!(p2, "alpha_1");
    let (_, p3) = resolve(&mut reg, &mut db, "alpha", "k3");
    assert_eq!(p3, "alpha_2");
}

#[test]
fn prefix_of_maps_storage_back_to_plain() {
    let mut db = temp_db();
    let mut reg = RoomRegistry::new();
    resolve(&mut reg, &mut db, "alpha", "k1");
    resolve(&mut reg, &mut db, "alpha", "k2");
    assert_eq!(reg.prefix_of("alpha_users").unwrap(), ("alpha".to_string(), "users".to_string()));
    assert_eq!(reg.prefix_of("alpha_1_users").unwrap(), ("alpha_1".to_string(), "users".to_string()));
    assert!(reg.prefix_of("orphan_users").is_none());
}

#[test]
fn sanitize_handles_weird_names() {
    assert_eq!(sanitize_room_name("my room!"), "my_room");
    assert_eq!(sanitize_room_name("a/b\\c"), "a_b_c");
    assert_eq!(sanitize_room_name(""), "room");
    assert_eq!(sanitize_room_name("___"), "room");
}

fn put_simple(db: &mut Hako, col: &str, id: &str, now: i64) {
    let mut doc = FireLiteDoc::default();
    doc.insert("v".to_string(), Value::Int(1));
    assert!(db.put(col, id, &doc, now).is_ok());
}

#[test]
fn catchup_emits_puts_and_tombstones() {
    let mut db = temp_db();
    let files: NameTable<FileReads> = NameTable::new();
    put_simple(&mut db, "c", "keep", 1_000_000);
    put_simple(&mut db, "c", "gone", 2_000_000);
    assert!(db.delete("c", "gone", 3_000_000, &files).is_ok());

    let ops = collect_catchup_ops(&mut db, "c", "c", 0, &FileReads::new());
    let mut puts = 0;
    let mut dels = Vec::new();
    for op in &ops {
        match op {
            WalOp::PutInlined { .. } => puts += 1,
            WalOp::Delete { key, .. } => dels.push(key.clone()),
            _ => {}
        }
    }
    assert_eq!(puts, 1, "expected only the live doc");
    assert_eq!(dels, vec!["gone".to_string()]);
}

#[test]
fn catchup_withholds_local_only_marks() {
    let mut db = temp_db();
    let files: NameTable<FileReads> = NameTable::new();
    put_simple(&mut db, "c", "keep", 1_000_000);
    put_simple(&mut db, "c", "gone", 2_000_000);
    assert!(db.delete_local("c", "gone", 3_000_000, &files).1.is_ok());

    let ops = collect_catchup_ops(&mut db, "c", "c", 0, &FileReads::new());
    assert_eq!(ops.len(), 1, "local-only tombstone leaked");

    // The clock of the collection has still advanced.
    let v = db.get_collection_version("c");
    assert!(v > 0);

    assert!(db.set_collection_local("c", true, 4_000_000).is_ok());
    let ops = collect_catchup_ops(&mut db, "c", "c", 0, &FileReads::new());
    assert!(ops.is_empty(), "local-only collection leaked");
}

#[test]
fn stale_remote_delete_loses_to_newer_put() {
    let mut db = temp_db();
    let reads = FileReads::new();
    put_simple(&mut db, "c", "a", 7_000_000_000);
    let ts = match db.get("c", "a", &reads) {
        Ok(Some(d)) => d.get_logical_time(),
        _ => panic!("no document"),
    };

    assert!(db.is_stale_remote_delete("c", "a", ts, &reads));
    assert!(db.is_stale_remote_delete("c", "a", ts - 1, &reads));
    assert!(!db.is_stale_remote_delete("c", "a", ts + 1_000_000, &reads));
    assert!(!db.is_stale_remote_delete("c", "missing", ts, &reads));
}

fn put_group(db: &mut Hako, room: &str, mode: &str, key_hash: Option<String>, members: Vec<String>) {
    let mut doc = FireLiteDoc::default();
    doc.insert("mode".to_string(), Value::String(mode.to_string()));
    if let Some(h) = key_hash {
        doc.insert("api_key_hash".to_string(), Value::String(h));
    }
    doc.insert("members".to_string(), Value::Array(members.into_iter().map(Value::String).collect()));
    assert!(db.put("__groups", room, &doc, 1_000_000).is_ok());
}

#[test]
fn group_access_matrix() {
    let mut db = temp_db();
    let r = FileReads::new();
    assert!(check_group_access(&mut db, "noroom", None, "c1", &r).is_ok());

    put_group(&mut db, "openroom", "open", None, vec![]);
    assert!(check_group_access(&mut db, "openroom", None, "c1", &r).is_ok());

    put_group(&mut db, "priv", "registered", Some(hash_api_key("sekret")), vec![]);
    assert!(check_group_access(&mut db, "priv", Some("sekret"), "c1", &r).is_ok());
    assert!(check_group_access(&mut db, "priv", Some("wrong"), "c1", &r).is_err());
    assert!(check_group_access(&mut db, "priv", None, "c1", &r).is_err());

    put_group(&mut db, "memb", "registered", Some(hash_api_key("k")), vec!["alice".to_string()]);
    assert!(check_group_access(&mut db, "memb", Some("k"), "alice", &r).is_ok());
    assert!(check_group_access(&mut db, "memb", Some("k"), "mallory", &r).is_err());

    put_group(&mut db, "weird", "fortress", None, vec![]);
    assert!(check_group_access(&mut db, "weird", None, "c1", &r).is_err());
}

#[test]
fn api_key_hash_is_stable_and_wrong_key_misses() {
    assert_eq!(hash_api_key("abc"), hash_api_key("abc"));
    assert_ne!(hash_api_key("abc"), hash_api_key("abd"));
    assert_eq!(hash_api_key("abc").len(), 64);
}
