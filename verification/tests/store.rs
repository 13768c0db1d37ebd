use hakodb::config::HakoConfig;
use hakodb::directory::NameTable;
use hakodb::document::firelite_doc::FireLiteDoc;
use hakodb::document::value::Value;
use hakodb::engine::engine::Hako;
use hakodb::engine::files::FileReads;
use hakodb::engine::ids::{generate_sortable_id, subcollection_prefix};
use hakodb::engine::recovery::FoundShard;
use hakodb::engine::transaction::Transaction;
use hakodb::engine::types::{await_step, WaitStep};
use hakodb::engine::{AccessOp, BatchMutation, ChangeKind, SecurityRule};
use hakodb::error::HakoError;
use hakodb::index::composite::definition::SortDirection;
use hakodb::query::Query;
use hakodb::storage::shard::Shard;
use hakodb::storage::wal::WalOp;

fn open() -> Hako {
    Hako::open(HakoConfig::default(), None, None)
}

fn none() -> NameTable<FileReads> {
    NameTable::new()
}

fn doc(n: i64) -> FireLiteDoc {
    let mut d = FireLiteDoc::default();
    d.insert("n".to_string(), Value::Int(n));
    d
}

fn n_of(db: &mut Hako, col: &str, id: &str) -> Option<i64> {
    match db.get(col, id, &FileReads::new()) {
        Ok(Some(d)) => match d.get("n") {
            Some(Value::Int(n)) => Some(*n),
            _ => None,
        },
        _ => None,
    }
}

fn rule(prefix: &str, op: AccessOp, allow: bool) -> SecurityRule {
    SecurityRule { collection_prefix: prefix.to_string(), op, allow }
}

#[test]
fn what_was_put_is_read_back() {
    let mut db = open();
    let o = db.put("c", "a", &doc(7), 5_000).unwrap_or_else(|e| panic!("{}", e.text()));
    assert_eq!(o.ids, vec!["a".to_string()]);
    assert_eq!(o.applied.len(), 1);
    assert_eq!(o.applied[0].collection, "c");
    let events = o.applied[0].events();
    assert_eq!(events.len(), 1);
    assert!(events[0].kind == ChangeKind::Put);
    assert_eq!(n_of(&mut db, "c", "a"), Some(7));
    // Read again, from what is held ready.
    assert_eq!(n_of(&mut db, "c", "a"), Some(7));
    assert_eq!(n_of(&mut db, "c", "b"), None);
    assert_eq!(n_of(&mut db, "d", "a"), None);
}

#[test]
fn an_empty_id_is_made() {
    let mut db = open();
    let o = db.put("c", "", &doc(1), 1_000_000).unwrap_or_else(|e| panic!("{}", e.text()));
    assert_eq!(o.ids.len(), 1);
    assert!(!o.ids[0].is_empty());
    assert_eq!(n_of(&mut db, "c", &o.ids[0].clone()), Some(1));
}

#[test]
fn ids_sort_by_time_and_number() {
    let a = generate_sortable_id(1_000, 9);
    let b = generate_sortable_id(2_000, 1);
    let c = generate_sortable_id(2_000, 2);
    assert!(a < b && b < c);
}

#[test]
fn what_was_deleted_is_gone() {
    let mut db = open();
    assert!(db.put("c", "a", &doc(7), 5_000).is_ok());
    let o = db.delete("c", "a", 6_000, &none()).unwrap_or_else(|e| panic!("{}", e.text()));
    assert!(o.applied[0].events()[0].kind == ChangeKind::Delete);
    assert_eq!(n_of(&mut db, "c", "a"), None);
    assert!(db.get_raw_bytes("c", "a", &FileReads::new()).is_none());
    assert_eq!(db.vacuum_collection("c"), 1);
    assert_eq!(db.vacuum_collection("c"), 0);
}

#[test]
fn a_batch_leaves_other_documents_alone() {
    let mut db = open();
    assert!(db.put("c", "keep", &doc(1), 1_000).is_ok());
    assert!(db.put("c", "gone", &doc(2), 2_000).is_ok());
    let batch = vec![
        BatchMutation::Put { collection: "d".to_string(), doc_id: "x".to_string(), doc: doc(3) },
        BatchMutation::Delete { collection: "c".to_string(), doc_id: "gone".to_string() },
    ];
    assert!(db.write_batch(&batch, 3_000, &none()).is_ok());
    assert_eq!(n_of(&mut db, "c", "keep"), Some(1));
    assert_eq!(n_of(&mut db, "c", "gone"), None);
    assert_eq!(n_of(&mut db, "d", "x"), Some(3));
}

#[test]
fn a_patch_changes_the_named_fields() {
    let mut db = open();
    let mut d = doc(1);
    d.insert("s".to_string(), Value::String("old".to_string()));
    assert!(db.put("c", "a", &d, 1_000).is_ok());
    assert!(db.patch("c", "a", &vec![("n".to_string(), Value::Int(2))], 2_000, &none()).is_ok());
    match db.get("c", "a", &FileReads::new()) {
        Ok(Some(d)) => {
            assert!(matches!(d.get("n"), Some(Value::Int(2))));
            assert!(matches!(d.get("s"), Some(Value::String(s)) if s == "old"));
        }
        _ => panic!("no document"),
    }
}

#[test]
fn rules_refuse_and_the_last_one_decides() {
    let mut db = open();
    assert!(db.put("secret_a", "x", &doc(1), 1_000).is_ok());
    db.set_security_rules(vec![
        rule("secret", AccessOp::Get, false),
        rule("secret", AccessOp::Batch, false),
        rule("secret", AccessOp::Query, false),
        rule("secret", AccessOp::Put, false),
    ]);
    match db.get("secret_a", "x", &FileReads::new()) {
        Err(e @ HakoError::Corrupt(_)) => assert_eq!(e.text(), "corrupt data: Denied"),
        _ => panic!("not refused"),
    }
    match db.put("secret_a", "y", &doc(1), 2_000) {
        Err(e @ HakoError::Corrupt(_)) => assert_eq!(e.text(), "corrupt data: Security Denied"),
        _ => panic!("not refused"),
    }
    assert!(db.query_all("secret_a", &FileReads::new()).is_err());
    assert!(db.query(&Query::new("secret_a"), Ok(1u8)).is_err());
    assert!(db.patch("secret_a", "x", &vec![], 3_000, &none()).is_err());
    assert!(db.get_view("secret_a", "x", &FileReads::new()).is_err());
    assert_eq!(n_of(&mut db, "open", "x"), None);
    db.set_security_rules(vec![rule("secret", AccessOp::Get, false), rule("secret_a", AccessOp::Get, true)]);
    assert_eq!(n_of(&mut db, "secret_a", "x"), Some(1));
}

#[test]
fn the_audit_tells_of_reads_and_writes() {
    let mut config = HakoConfig::default();
    config.enable_audit_log = true;
    let mut db = Hako::open(config, None, None);
    assert!(db.put("c", "a", &doc(1), 1_000).is_ok());
    assert_eq!(n_of(&mut db, "c", "a"), Some(1));
    let lines = db.audit_entries();
    assert!(lines.iter().any(|l| l.op == AccessOp::Batch && l.ok && l.collection == "<sharded>"));
    assert!(lines.iter().any(|l| l.op == AccessOp::Get && l.ok && l.doc_id == Some("a".to_string())));
}

#[test]
fn references_lead_to_documents() {
    let mut db = open();
    assert!(db.put("users", "u", &doc(5), 1_000).is_ok());
    let r = Value::Reference { collection: "users".to_string(), doc_id: "u".to_string() };
    assert!(matches!(db.get_by_reference(&r, &FileReads::new()), Ok(Some(_))));
    match db.get_by_reference(&Value::Int(1), &FileReads::new()) {
        Err(e) => assert_eq!(e.text(), "corrupt data: Not ref"),
        _ => panic!("no error"),
    }
}

#[test]
fn a_transaction_commits_unless_a_read_has_changed() {
    let mut db = open();
    assert!(db.put("acc", "alice", &doc(10), 1_000).is_ok());
    let mut tx = db.begin_serializable_transaction();
    assert!(matches!(tx.get(&mut db, "acc", "alice", &FileReads::new()), Ok(Some(_))));
    tx.put("acc", "alice", doc(20));
    assert!(tx.commit(&mut db, 2_000, &none()).is_ok());
    assert_eq!(n_of(&mut db, "acc", "alice"), Some(20));
    // What it read has changed since: the same transaction is refused now.
    match tx.commit(&mut db, 3_000, &none()) {
        Err(e) => assert_eq!(e.text(), "corrupt data: Transaction Conflict"),
        Ok(_) => panic!("no conflict"),
    }
    let mut plain = Transaction::new();
    plain.put("acc", "bob", doc(1));
    plain.delete("acc", "alice");
    assert!(plain.commit(&mut db, 4_000, &none()).is_ok());
    assert_eq!(n_of(&mut db, "acc", "bob"), Some(1));
    assert_eq!(n_of(&mut db, "acc", "alice"), None);
}

#[test]
fn subdocuments_stand_in_a_collection_of_their_own() {
    let mut db = open();
    assert!(db.put_subdocument("users", "u", "posts", "p", &doc(3), 1_000).is_ok());
    let name = subcollection_prefix("users", "u", "posts");
    assert_eq!(n_of(&mut db, &name, "p"), Some(3));
    assert_eq!(n_of(&mut db, "users", "p"), None);
}

#[test]
fn rows_are_deleted_and_patched() {
    let mut db = open();
    for i in 0..3 {
        assert!(db.put("c", &format!("k{i}"), &doc(i), 1_000 + i).is_ok());
    }
    let rows = db.query_all("c", &FileReads::new()).unwrap_or_else(|e| panic!("{}", e.text()));
    assert_eq!(rows.len(), 3);
    assert_eq!(rows[1].0, "k1");
    assert!(db.patch_where("c", &rows, &vec![("n".to_string(), Value::Int(9))], 5_000, &none()).is_ok());
    assert_eq!(n_of(&mut db, "c", "k2"), Some(9));
    let o = db.delete_where("c", &rows, 6_000, &none()).unwrap_or_else(|e| panic!("{}", e.text()));
    assert_eq!(o.ids.len(), 3);
    assert_eq!(n_of(&mut db, "c", "k0"), None);
    let o = db.delete_where("c", &vec![], 7_000, &none()).unwrap_or_else(|e| panic!("{}", e.text()));
    assert!(o.ids.is_empty() && o.applied.is_empty());
}

#[test]
fn local_deletions_are_marked() {
    let mut db = open();
    assert!(db.put("c", "a", &doc(1), 1_000).is_ok());
    let rows = db.query_all("c", &FileReads::new()).unwrap_or_else(|e| panic!("{}", e.text()));
    let (marks, deleted) = db.delete_where_local("c", &rows, 2_000, &none());
    assert!(marks.is_ok() && deleted.is_ok());
    assert!(db.marks.is_local_only("c", "a"));
    assert!(!db.marks.is_local_only("c", "b"));
    // The marks are kept in a document, and come back from it.
    let kept = match db.get("__hako_system", "local_only", &FileReads::new()) {
        Ok(Some(d)) => d,
        _ => panic!("no marks"),
    };
    let again = Hako::open(HakoConfig::default(), None, Some(&kept));
    assert!(again.marks.is_local_only("c", "a"));
    assert!(db.replicate_key("c", "a", 3_000).is_ok());
    assert!(!db.marks.is_local_only("c", "a"));
    let (marks, deleted) = db.delete_ids_local("c", &vec![], 4_000, &none());
    assert!(matches!(marks, Ok(o) if o.applied.is_empty()));
    assert!(matches!(deleted, Ok(o) if o.applied.is_empty()));
}

#[test]
fn a_large_value_waits_for_the_blob_file_and_comes_back() {
    let mut config = HakoConfig::default();
    config.value_blob_threshold_bytes = 8;
    let mut db = Hako::open(config, None, None);
    let at = db.get_shard("c");
    let mut with_file = Shard::new(Some(100));
    db.shards.swap(at, with_file);
    let mut d = doc(1);
    d.insert("big".to_string(), Value::String("0123456789".to_string()));
    assert!(db.put("c", "a", &d, 1_000).is_ok());
    match db.get("c", "a", &FileReads::new()) {
        Ok(Some(d)) => assert!(matches!(d.get("big"), Some(Value::String(s)) if s == "0123456789")),
        _ => panic!("no document"),
    }
    with_file = db.shards.swap(at, Shard::new(None));
    let works = with_file.take_blob_batch();
    assert_eq!(works.len(), 1);
    assert_eq!(works[0].offset, 100);
    assert_eq!(works[0].data, b"0123456789".to_vec());
}

#[test]
fn indexes_are_made_and_listed() {
    let mut db = open();
    assert!(db.create_index("c", "n"));
    assert!(!db.create_index("c", "n"));
    db.create_fts_index("c", "text");
    let fields = vec![("n".to_string(), SortDirection::Asc), ("m".to_string(), SortDirection::Desc)];
    let (id, made) = db.create_composite_index("c", fields);
    assert!(made);
    let fields = vec![("n".to_string(), SortDirection::Asc), ("m".to_string(), SortDirection::Desc)];
    assert_eq!(db.create_composite_index("c", fields), (id, false));
    let l = db.list_indexes(Some("c"));
    assert_eq!(l.secondary, vec![("c".to_string(), vec!["n".to_string()])]);
    assert_eq!(l.fts, vec![("c".to_string(), vec!["text".to_string()])]);
    assert_eq!(l.composite.len(), 1);
    assert_eq!(l.composite[0].fields[1].direction, "desc");
    assert!(db.list_indexes(Some("d")).secondary.is_empty());
}

#[test]
fn kept_indexes_come_back_into_a_store() {
    let mut db = open();
    db.create_index("c", "n");
    db.create_composite_index("c", vec![("n".to_string(), SortDirection::Desc)]);
    let state = db.persist_index_defs();
    let again = Hako::open(HakoConfig::default(), Some(&state), None);
    let l = again.list_indexes(None);
    assert_eq!(l.secondary, vec![("c".to_string(), vec!["n".to_string()])]);
    assert_eq!(l.composite.len(), 1);
    assert_eq!(l.composite[0].id, 1);
    assert!(!again.is_indexes_ready());
    assert!(!again.index_query_ready(0));
}

#[test]
fn a_store_comes_back_with_its_collections_and_indexes() {
    let mut first = open();
    first.create_index("c", "n");
    let kept = first.persist_index_defs();
    let mut db = Hako::open(HakoConfig::default(), Some(&kept), None);
    let mut shard = Shard::new(None);
    let mut d = doc(4);
    d._time = 77;
    shard.apply(&vec![WalOp::PutInlined { key: "a".to_string(), value: d.encode() }]);
    let found = vec![FoundShard { name: "c".to_string(), shard }];
    let cut = db.recover(None, found, &none(), &[]);
    assert_eq!(cut, 0);
    assert!(db.is_indexes_ready());
    assert!(!db.index_query_ready(1));
    assert_eq!(n_of(&mut db, "c", "a"), Some(4));
    let held = db.inspect_index("c", "n");
    assert_eq!(held.values.len(), 1);
    assert_eq!(held.values[0].1, vec!["a".to_string()]);
    assert!(held.composite.is_empty());
    assert_eq!(db.get_collection_version("c"), 77);
}

#[test]
fn a_settled_store_is_clear_twice() {
    let mut streak = 0u32;
    assert!(matches!(await_step(&mut streak, true, false), WaitStep::Again));
    assert!(matches!(await_step(&mut streak, false, false), WaitStep::Again));
    assert_eq!(streak, 0);
    assert!(matches!(await_step(&mut streak, false, true), WaitStep::LastLook));
    assert!(matches!(await_step(&mut streak, true, false), WaitStep::Again));
    assert!(matches!(await_step(&mut streak, true, false), WaitStep::Done(true)));
}

#[test]
fn errors_have_words() {
    let list = [
        (HakoError::Io("x".to_string()), "io error: x"),
        (HakoError::LockPoisoned("x".to_string()), "lock poisoned: x"),
        (HakoError::StorageError("x".to_string()), "storage error: x"),
        (HakoError::QueryError("x".to_string()), "query error: x"),
        (HakoError::IndexError("x".to_string()), "index error: x"),
        (HakoError::Corrupt("x".to_string()), "corrupt data: x"),
        (HakoError::InvalidInput("x".to_string()), "invalid input: x"),
    ];
    for (e, words) in list {
        assert_eq!(e.text(), words);
    }
}

#[test]
fn links_without_a_blob_file_are_an_error() {
    let mut db = open();
    let mut d = FireLiteDoc::default();
    d.insert("big".to_string(), Value::BlobLink { offset: 5, len: 3 });
    let at = db.get_shard("c");
    db.shards.swap(at, Shard::new(None));
    match db.resolve_document_blobs(&mut d, "c", &FileReads::new()) {
        Err(HakoError::StorageError(m)) => assert_eq!(m, "No blob manager"),
        _ => panic!("no error"),
    }
    let at = db.get_shard("f");
    db.shards.swap(at, Shard::new(Some(100)));
    match db.resolve_document_blobs(&mut d, "f", &FileReads::new()) {
        Err(HakoError::Io(m)) => assert_eq!(m, "blob cannot be read"),
        _ => panic!("no error"),
    }
    let mut reads = FileReads::new();
    reads.blobs.insert(5, b"abc".to_vec());
    assert!(db.resolve_document_blobs(&mut d, "f", &reads).is_ok());
    assert!(matches!(d.get("big"), Some(Value::String(s)) if s == "abc"));
}

#[test]
fn a_snapshot_stands_in_for_the_documents() {
    let mut first = open();
    first.create_index("c", "n");
    let kept = first.persist_index_defs();
    let snapshot = first.indexes.export_state();
    let mut shard = Shard::new(None);
    shard.apply(&vec![WalOp::PutInlined { key: "a".to_string(), value: doc(4).encode() }]);
    let found = vec![FoundShard { name: "c".to_string(), shard }];
    let mut db = Hako::open(HakoConfig::default(), Some(&kept), None);
    db.recover(Some(snapshot.as_slice()), found, &none(), &[]);
    assert!(db.inspect_index("c", "n").values.is_empty());

    // One that cannot be read does not.
    let mut shard = Shard::new(None);
    shard.apply(&vec![WalOp::PutInlined { key: "a".to_string(), value: doc(4).encode() }]);
    let found = vec![FoundShard { name: "c".to_string(), shard }];
    let mut db = Hako::open(HakoConfig::default(), Some(&kept), None);
    let torn: &[u8] = &[1];
    db.recover(Some(torn), found, &none(), &[]);
    assert_eq!(db.inspect_index("c", "n").values.len(), 1);
}

#[test]
fn every_form_of_query_is_admitted_first() {
    let mut db = open();
    db.config.enable_audit_log = true;
    let q = Query::new("c");
    assert_eq!(db.query_raw(&q, Ok(vec![("a".to_string(), vec![1])])).unwrap(), vec![("a".to_string(), vec![1])]);
    assert_eq!(db.walk(&q, Ok(3)).unwrap(), 3);
    assert_eq!(db.walk_view(&q, Ok(2)).unwrap(), 2);
    assert!(db.query_projected_zero_copy(&q, Ok(Vec::new())).unwrap().is_empty());
    let figures = vec![("count".to_string(), 2.0f64.to_bits())];
    assert_eq!(db.execute_aggregation(&q, Ok(figures.clone())).unwrap(), figures);
    let failed = db.execute_aggregation(&q, Err(HakoError::QueryError("x".to_string())));
    assert!(matches!(failed, Err(HakoError::QueryError(_))));
    let log = db.audit_entries();
    assert_eq!(log.iter().filter(|e| e.ok).count(), 5);
    assert_eq!(log.iter().filter(|e| !e.ok).count(), 1);

    db.set_security_rules(vec![rule("c", AccessOp::Query, false)]);
    assert!(matches!(db.walk(&q, Ok(3)), Err(HakoError::Corrupt(_))));
    assert!(matches!(db.execute_aggregation(&q, Ok(figures)), Err(HakoError::Corrupt(_))));
}

#[test]
fn a_store_is_named_after_its_directory() {
    assert_eq!(Hako::db_name(Some("shop")), "shop");
    assert_eq!(Hako::db_name(None), "hakodb_default");
}

#[test]
fn large_values_of_a_document_are_set_aside() {
    let db = open();
    let mut d = FireLiteDoc::default();
    d.insert("small".to_string(), Value::String("abc".to_string()));
    d.insert("text".to_string(), Value::String("x".repeat(20)));
    let mut end = 100u64;
    let works = db.process_doc_blobs("k", &mut d, 8, &mut end);
    assert_eq!(works.len(), 1);
    assert_eq!((works[0].offset, works[0].len), (100, 20));
    assert_eq!(end, 120);
    assert!(matches!(d.get("text"), Some(Value::BlobLink { offset: 100, len: 20 })));
    assert!(matches!(d.get("small"), Some(Value::String(_))));
}

#[test]
fn the_log_brings_the_documents_back() {
    let mut config = HakoConfig::default();
    config.value_blob_threshold_bytes = 16;
    let mut db = Hako::open(config, None, None);
    let mut log: Vec<WalOp> = Vec::new();
    for (id, n, now) in [("a", 1i64, 1_000_000i64), ("b", 2, 2_000_000), ("a", 3, 3_000_000)] {
        for applied in db.put("c", id, &doc(n), now).unwrap().applied {
            log.extend(applied.ops);
        }
    }
    for applied in db.delete("c", "b", 4_000_000, &none()).unwrap().applied {
        log.extend(applied.ops);
    }
    let mut echo = hakodb::cloud_sync::ingest::EchoCache::new();
    let mut far = FireLiteDoc::default();
    far.insert("text".to_string(), Value::String("x".repeat(40)));
    far._time = 9_000;
    let ops = vec![WalOp::PutInlined { key: "far".to_string(), value: far.encode() }];
    let taken = hakodb::net_sync::intake::apply_replication_batch(&mut db, &mut echo, "c", &ops, &FileReads::new());
    log.extend(taken.unwrap().ops);
    db.vacuum_collection("c");

    let mut shard = Shard::new(None);
    shard.apply(&log);
    let reads = FileReads::new();
    assert_eq!(shard.live_keys(), db.list_storage_keys("c"));
    for key in ["a", "b", "far", "none"] {
        assert_eq!(shard.get(&key.to_string(), None), db.get_raw_bytes("c", key, &reads));
    }
}
