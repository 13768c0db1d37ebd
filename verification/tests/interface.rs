use hakodb::config::{DurabilityMode, HakoConfig};
use hakodb::directory::NameTable;
use hakodb::document::json::Json;
use hakodb::document::json_text::FloatTexts;
use hakodb::document::value::Value;
use hakodb::engine::files::FileReads;
use hakodb::error::HakoError;
use hakodb::executor::executor::QueryExecutor;
use hakodb::ffi::documents::{
    fl_doc_resolve_blobs,
    fl_array_append_doc, fl_array_append_int, fl_array_append_str, fl_array_new, fl_doc_insert_array, fl_doc_insert_bin,
    fl_doc_insert_bool, fl_doc_insert_doc, fl_doc_insert_float, fl_doc_insert_int, fl_doc_insert_null,
    fl_doc_insert_reference, fl_doc_insert_server_timestamp, fl_doc_insert_str, fl_doc_insert_timestamp, fl_doc_new,
    fl_doc_to_json, fl_result_set_count, fl_result_set_get_doc, fl_result_set_to_json,
};
use hakodb::ffi::last_error::{cstr_to_string, LastError};
use hakodb::ffi::nodes::{
    fl_cloud_sync_client_new, fl_cloud_sync_new, fl_cloud_sync_server_new, fl_cloud_sync_status, fl_cloud_sync_stop,
    fl_net_syncer_new, fl_net_syncer_set_discovery, fl_net_syncer_status,
};
use hakodb::ffi::queries::{
    fl_query_aggregate_avg, fl_query_aggregate_count, fl_query_aggregate_sum, fl_query_defer_blobs, fl_query_end_before,
    fl_query_limit, fl_query_new, fl_query_offset, fl_query_order_by, fl_query_select_field, fl_query_start_at,
    fl_query_where_eq_bool, fl_query_where_gte_int, fl_query_where_in, fl_query_where_or_int, fl_query_where_starts_with,
};
use hakodb::ffi::settings::{
    encrypt_collections, fl_config_new, fl_config_set_audit_log, fl_config_set_durability, fl_config_set_encrypted_collections,
    fl_config_set_encryption_key, fl_config_set_memory_limits,
};
use hakodb::ffi::stores::{
    create_index_of, fl_batch_commit, fl_batch_delete, fl_batch_new, fl_batch_set, fl_engine_create_fts_index, fl_engine_create_index,
    fl_engine_create_simple_index, fl_engine_delete, fl_engine_delete_local, fl_engine_get, fl_engine_get_audit_log,
    fl_engine_get_by_ref, fl_engine_get_stats, fl_engine_insert, fl_engine_insert_subdoc, fl_engine_insert_take, fl_engine_is_indexes_ready,
    fl_engine_list_collections, fl_engine_list_indexes, fl_engine_open, fl_engine_open_with_config, fl_engine_patch,
    fl_engine_replicate_collection, fl_engine_set_collection_local, fl_engine_vacuum_collection, fl_query_delete,
    fl_query_execute, fl_query_execute_aggregation, fl_query_execute_to_handles, fl_transaction_begin, fl_transaction_commit, fl_transaction_get,
    fl_transaction_set, FL_Engine,
};
use hakodb::net_sync::DiscoveryMode;
use hakodb::query::{AggregateOp, Operator, Query};

fn none() -> NameTable<FileReads> {
    NameTable::new()
}

fn b(s: &str) -> Option<&[u8]> {
    Some(s.as_bytes())
}

fn error(last: &LastError) -> &str {
    last.fl_last_error().map(|s| s.as_str()).unwrap_or("")
}

fn open() -> FL_Engine {
    let mut last = LastError::new();
    fl_engine_open(&mut last, b("path"), None, None).unwrap()
}

#[test]
fn texts_of_callers_are_checked() {
    assert_eq!(cstr_to_string(None), Err("null pointer".to_string()));
    assert_eq!(cstr_to_string(Some(&[0xFF])), Err("invalid utf8".to_string()));
    assert_eq!(cstr_to_string(b("é")), Ok("é".to_string()));
}

#[test]
fn an_error_with_a_zero_in_it_cannot_be_told() {
    let mut last = LastError::new();
    assert_eq!(last.set_last_error("a\0b"), -1);
    assert_eq!(error(&last), "ffi error");
    assert_eq!(last.set_error(&HakoError::Io("x".to_string())), -1);
    assert_eq!(error(&last), "io error: x");
    last.clear_last_error();
    assert!(last.fl_last_error().is_none());
}

#[test]
fn a_document_is_put_together() {
    let mut last = LastError::new();
    let mut d = fl_doc_new();
    assert_eq!(fl_doc_insert_int(&mut last, Some(&mut d), b("i"), -4), 0);
    assert_eq!(fl_doc_insert_float(&mut last, Some(&mut d), b("f"), 1.5f64.to_bits()), 0);
    assert_eq!(fl_doc_insert_bool(&mut last, Some(&mut d), b("b"), true), 0);
    assert_eq!(fl_doc_insert_null(&mut last, Some(&mut d), b("n")), 0);
    assert_eq!(fl_doc_insert_str(&mut last, Some(&mut d), b("s"), b("x\"y")), 0);
    assert_eq!(fl_doc_insert_bin(&mut last, Some(&mut d), b("raw"), Some(&[1, 2]), 2), 0);
    assert_eq!(fl_doc_insert_bin(&mut last, Some(&mut d), b("raw0"), None, 0), 0);
    assert_eq!(fl_doc_insert_timestamp(&mut last, Some(&mut d), b("t"), 5), 0);
    assert_eq!(fl_doc_insert_server_timestamp(&mut last, Some(&mut d), b("st")), 0);
    assert_eq!(fl_doc_insert_reference(&mut last, Some(&mut d), b("ref"), b("c"), b("i")), 0);
    let mut list = fl_array_new();
    assert_eq!(fl_array_append_int(&mut list, 3), 0);
    assert_eq!(fl_array_append_str(&mut last, &mut list, b("z")), 0);
    let child = {
        let mut c = fl_doc_new();
        fl_doc_insert_int(&mut last, Some(&mut c), b("k"), 1);
        c
    };
    assert_eq!(fl_array_append_doc(&mut last, Some(&mut list), Some(&child)), 0);
    assert_eq!(fl_doc_insert_array(&mut last, &mut d, b("list"), list), 0);
    assert_eq!(fl_doc_insert_doc(&mut last, &mut d, b("child"), &child), 0);
    let mut floats = FloatTexts::new();
    floats.insert(1.5f64.to_bits(), "1.5".to_string());
    assert_eq!(
        fl_doc_to_json(&mut last, Some(&d), &floats).unwrap(),
        "{\"b\":true,\"child\":{\"k\":1},\"f\":1.5,\"i\":-4,\"list\":[3,\"z\",{\"k\":1}],\"n\":null,\"raw\":[1,2],\
         \"raw0\":[],\"ref\":{\"__ref__\":\"c/i\"},\"s\":\"x\\\"y\",\"st\":null,\"t\":5}"
    );
}

#[test]
fn documents_report_what_is_missing() {
    let mut last = LastError::new();
    assert_eq!(fl_doc_insert_int(&mut last, None, b("k"), 1), -1);
    assert_eq!(error(&last), "null FL_Doc");
    let mut d = fl_doc_new();
    assert_eq!(fl_doc_insert_str(&mut last, Some(&mut d), b("k"), None), -1);
    assert_eq!(error(&last), "null pointer");
    assert_eq!(fl_doc_insert_bin(&mut last, Some(&mut d), b("k"), None, 3), -1);
    assert_eq!(error(&last), "null binary data");
    assert_eq!(fl_doc_insert_timestamp(&mut last, None, b("k"), 1), -1);
    assert_eq!(error(&last), "null doc");
    assert!(fl_doc_to_json(&mut last, None, &FloatTexts::new()).is_none());
    assert_eq!(error(&last), "null doc handle");
    assert!(d.doc.fields.is_empty());
    assert_eq!(fl_doc_insert_int(&mut last, Some(&mut d), b("k"), 1), 0);
    assert!(last.fl_last_error().is_none());
}

#[test]
fn settings_are_set() {
    let mut c = fl_config_new();
    fl_config_set_durability(Some(&mut c), 3);
    assert!(c.inner.durability_mode == DurabilityMode::OnCommit);
    fl_config_set_durability(Some(&mut c), 99);
    assert!(c.inner.durability_mode == DurabilityMode::Always);
    fl_config_set_encryption_key(Some(&mut c), b("key"));
    assert_eq!(c.inner.encryption_key, Some("key".to_string()));
    fl_config_set_audit_log(Some(&mut c), true, None);
    assert!(c.inner.enable_audit_log);
    assert_eq!(c.inner.audit_log_path, None);
    fl_config_set_memory_limits(Some(&mut c), 5, 6);
    assert_eq!((c.inner.mmap_size, c.inner.max_inlined_memory_bytes), (5, 6));
    assert_eq!(encrypt_collections(Some(&mut c), None), -1);
    assert_eq!(encrypt_collections(None, Some(vec![])), -1);
    assert_eq!(encrypt_collections(Some(&mut c), Some(vec!["a".to_string()])), 0);
    assert_eq!(c.inner.encrypted_cols, Some(vec!["a".to_string()]));
    fl_config_set_durability(None, 1);
}

#[test]
fn a_query_is_put_together() {
    let mut last = LastError::new();
    assert!(fl_query_new(&mut last, None).is_none());
    assert_eq!(error(&last), "null pointer");
    let mut q = fl_query_new(&mut last, b("c")).unwrap();
    assert_eq!(fl_query_where_gte_int(&mut last, Some(&mut q), b("n"), 4), 0);
    assert_eq!(fl_query_where_starts_with(&mut last, Some(&mut q), b("s"), b("x")), 0);
    assert_eq!(fl_query_where_eq_bool(&mut last, Some(&mut q), b("ok"), true), 0);
    let mut list = fl_array_new();
    fl_array_append_int(&mut list, 1);
    assert_eq!(fl_query_where_in(&mut last, Some(&mut q), b("n"), Some(list)), 0);
    assert_eq!(fl_query_where_in(&mut last, Some(&mut q), b("n"), None), -1);
    assert_eq!(fl_query_where_or_int(&mut last, &mut q, b("m"), 2), 0);
    assert_eq!(fl_query_order_by(&mut last, Some(&mut q), b("n"), false), 0);
    assert_eq!(fl_query_limit(Some(&mut q), 10), 0);
    assert_eq!(fl_query_offset(Some(&mut q), 2), 0);
    assert_eq!(fl_query_defer_blobs(Some(&mut q), 1), 0);
    assert_eq!(fl_query_select_field(&mut last, Some(&mut q), b("n")), 0);
    assert_eq!(fl_query_aggregate_count(&mut last, Some(&mut q)), 0);
    assert_eq!(fl_query_aggregate_sum(&mut last, Some(&mut q), b("n")), 0);
    assert_eq!(fl_query_aggregate_avg(&mut last, Some(&mut q), b("n")), 0);
    assert_eq!(fl_query_limit(None, 10), -1);
    let ops: Vec<Operator> = q.query.filters.iter().map(|f| f.op).collect();
    assert_eq!(ops, vec![Operator::Gte, Operator::StartsWith, Operator::Eq, Operator::In]);
    assert!(matches!(q.query.filters[0].value, Value::Int(4)));
    assert_eq!(q.query.or_groups.len(), 1);
    assert_eq!(q.query.or_groups[0][0].field, "m");
    assert_eq!((q.query.limit, q.query.offset, q.query.defer_blobs), (Some(10), Some(2), true));
    assert!(matches!(&q.query.aggregations[2], AggregateOp::Avg(f) if f == "n"));
    assert!(!q.query.order_by[0].ascending);
}

#[test]
fn a_query_begins_and_ends_at_documents() {
    let mut last = LastError::new();
    let mut q = fl_query_new(&mut last, b("c")).unwrap();
    let mut d = fl_doc_new();
    d.id = "x".to_string();
    fl_doc_insert_int(&mut last, Some(&mut d), b("n"), 3);
    assert_eq!(fl_query_start_at(&mut last, Some(&mut q), Some(&d)), -1);
    assert_eq!(error(&last), "Anchor document missing one or more fields from sort chain");
    fl_query_order_by(&mut last, Some(&mut q), b("n"), true);
    fl_query_order_by(&mut last, Some(&mut q), b("id"), true);
    assert_eq!(fl_query_start_at(&mut last, Some(&mut q), Some(&d)), 0);
    match &q.query.start_at {
        Some(v) => {
            assert!(matches!(v[0], Value::Int(3)));
            assert!(matches!(&v[1], Value::String(s) if s == "x"));
        }
        None => panic!("no anchor"),
    }
    fl_query_order_by(&mut last, Some(&mut q), b("gone"), true);
    assert_eq!(fl_query_end_before(&mut last, Some(&mut q), Some(&d)), -1);
    assert_eq!(error(&last), "Anchor document missing sort field");
    assert!(q.query.end_before.is_none());
    assert_eq!(fl_query_end_before(&mut last, None, Some(&d)), -1);
}

#[test]
fn a_store_is_opened_with_settings() {
    let mut last = LastError::new();
    assert!(fl_engine_open_with_config(&mut last, b("p"), None, None, None).is_none());
    assert_eq!(error(&last), "Null config provided");
    assert!(fl_engine_open(&mut last, Some(&[0xFF]), None, None).is_none());
    assert_eq!(error(&last), "invalid utf8");
    let mut c = fl_config_new();
    fl_config_set_audit_log(Some(&mut c), true, None);
    let mut e = fl_engine_open_with_config(&mut last, b("p"), Some(c), None, None).unwrap();
    assert!(e.db.config.enable_audit_log);
    assert!(last.fl_last_error().is_none());
    assert!(!fl_engine_is_indexes_ready(Some(&e)));
    assert!(!fl_engine_is_indexes_ready(None));
    let mut d = fl_doc_new();
    fl_doc_insert_int(&mut last, Some(&mut d), b("n"), 1);
    assert_eq!(fl_engine_insert(&mut last, Some(&mut e), b("c"), b("a"), Some(&d), 1_000).0, 0);
    assert!(fl_engine_get(&mut last, Some(&mut e), b("c"), b("a"), &FileReads::new()).is_some());
    let audit = fl_engine_get_audit_log(Some(&e)).unwrap();
    assert!(audit.contains("{\"op\":\"Get\",\"collection\":\"c\",\"doc_id\":\"a\",\"ok\":true}"));
    assert!(audit.contains("{\"op\":\"Batch\",\"collection\":\"<sharded>\",\"doc_id\":null,\"ok\":true}"));
}

#[test]
fn documents_go_into_a_store_and_come_back() {
    let mut last = LastError::new();
    let mut e = open();
    let reads = FileReads::new();
    let mut d = fl_doc_new();
    fl_doc_insert_int(&mut last, Some(&mut d), b("n"), 1);
    assert_eq!(fl_engine_insert(&mut last, None, b("c"), b("a"), Some(&d), 1_000).0, -1);
    assert_eq!(error(&last), "null engine/doc handle");
    assert_eq!(fl_engine_insert(&mut last, Some(&mut e), b("c"), b("a"), Some(&d), 1_000).0, 0);
    assert_eq!(fl_engine_insert_take(&mut last, Some(&mut e), b("c"), b("b"), Some(d), 2_000).0, 0);
    let got = fl_engine_get(&mut last, Some(&mut e), b("c"), b("a"), &reads).unwrap();
    assert_eq!(got.id, "a");
    assert!(fl_engine_get(&mut last, Some(&mut e), None, b("a"), &reads).is_none());
    assert_eq!(error(&last), "null collection handle");
    assert!(fl_engine_get(&mut last, Some(&mut e), b("c"), None, &reads).is_none());
    assert_eq!(error(&last), "null doc_id handle");
    let mut patch = fl_doc_new();
    fl_doc_insert_int(&mut last, Some(&mut patch), b("m"), 9);
    assert_eq!(fl_engine_patch(&mut last, Some(&mut e), b("c"), b("a"), Some(&patch), 3_000, &none()).0, 0);
    let got = fl_engine_get(&mut last, Some(&mut e), b("c"), b("a"), &reads).unwrap();
    assert!(matches!(got.doc.get("m"), Some(Value::Int(9))));
    assert_eq!(fl_engine_delete(&mut last, Some(&mut e), b("c"), b("a"), 4_000, &none()).0, 0);
    assert!(fl_engine_get(&mut last, Some(&mut e), b("c"), b("a"), &reads).is_none());
    let (n, written, marks) = fl_engine_delete_local(&mut last, Some(&mut e), b("c"), b("b"), 5_000, &none());
    assert_eq!(n, 0);
    assert!(written.is_some() && marks.is_some());
    assert!(e.db.marks.is_local_only("c", "b"));
    assert_eq!(fl_engine_vacuum_collection(&mut last, Some(&mut e), b("c")), 2);
    assert_eq!(fl_engine_set_collection_local(&mut last, Some(&mut e), b("c"), 1, 6_000).0, 0);
    assert!(e.db.marks.is_collection_local("c"));
    assert_eq!(fl_engine_replicate_collection(&mut last, Some(&mut e), b("c"), 7_000).0, 0);
    assert!(!e.db.marks.is_collection_local("c") && !e.db.marks.is_local_only("c", "b"));
    let mut refers = fl_doc_new();
    refers.id = "r".to_string();
    fl_doc_insert_reference(&mut last, Some(&mut refers), b("to"), b("c"), b("b"));
    assert!(fl_engine_get_by_ref(&mut last, Some(&mut e), Some(&refers), b("to"), &reads).is_none());
    assert!(fl_engine_get_by_ref(&mut last, Some(&mut e), Some(&refers), b("none"), &reads).is_none());
    assert_eq!(error(&last), "Field not found in document");
    assert_eq!(fl_engine_insert_subdoc(&mut last, &mut e, b("c"), b("x"), b("s"), b("y"), &refers, 8_000).0, 0);
    let dirs = vec!["d".to_string(), "c".to_string(), "_hidden".to_string(), "snapshots".to_string()];
    assert_eq!(fl_engine_list_collections(&mut last, Some(&e), &dirs).unwrap(), "[\"c\",\"d\"]");
}

#[test]
fn batches_and_transactions_reach_the_store() {
    let mut last = LastError::new();
    let mut e = open();
    let mut batch = fl_batch_new();
    let mut d = fl_doc_new();
    fl_doc_insert_int(&mut last, Some(&mut d), b("n"), 5);
    assert_eq!(fl_batch_set(&mut last, Some(&mut batch), b("c"), b("a"), Some(&mut d)), 0);
    assert!(d.doc.fields.is_empty());
    assert_eq!(fl_batch_delete(&mut last, Some(&mut batch), b("c"), b("gone")), 0);
    assert_eq!(fl_batch_commit(&mut last, Some(&mut e), Some(&mut batch), 1_000, &none()).0, 0);
    assert!(batch.ops.is_empty());
    assert_eq!(fl_batch_commit(&mut last, None, Some(&mut batch), 1_000, &none()).0, -1);
    assert_eq!(error(&last), "null engine/batch handle");
    let mut tx = fl_transaction_begin(&e);
    let got = fl_transaction_get(&mut e, &mut tx, b("c"), b("a"), &FileReads::new()).unwrap();
    assert_eq!(fl_transaction_set(&mut tx, b("c"), b("a"), &got), 0);
    assert_eq!(fl_transaction_commit(&mut last, &mut e, &tx, 2_000, &none()).0, 0);
    assert_eq!(fl_transaction_commit(&mut last, &mut e, &tx, 3_000, &none()).0, -1);
    assert_eq!(error(&last), "corrupt data: Transaction Conflict");
}

#[test]
fn indexes_are_asked_for() {
    let mut last = LastError::new();
    let mut e = open();
    assert_eq!(fl_engine_create_simple_index(Some(&mut e), b("c"), b("n")), (0, true));
    assert_eq!(fl_engine_create_simple_index(Some(&mut e), b("c"), b("n")), (0, false));
    assert_eq!(fl_engine_create_simple_index(None, b("c"), b("n")), (-1, false));
    assert_eq!(fl_engine_create_fts_index(Some(&mut e), b("c"), None), -1);
    assert_eq!(fl_engine_create_fts_index(Some(&mut e), b("c"), b("t")), 0);
    let fields = vec![
        Json::Object(vec![
            ("desc".to_string(), Json::Bool(true)),
            ("field".to_string(), Json::Text("n".to_string())),
        ]),
        Json::Null,
    ];
    assert_eq!(create_index_of(&mut e, b("c"), Some(&fields)), (1, true));
    assert_eq!(create_index_of(&mut e, b("c"), None), (0, false));
    let list = fl_engine_list_indexes(&mut last, Some(&e), None).unwrap();
    assert_eq!(list.composite[0].fields[0].field, "n");
    assert_eq!(list.composite[0].fields[0].direction, "desc");
    assert_eq!(list.composite[0].fields[1].field, "");
    assert!(fl_engine_list_indexes(&mut last, None, None).is_none());
}

#[test]
fn answers_to_queries_are_handed_over() {
    let mut last = LastError::new();
    let mut e = open();
    let mut d = fl_doc_new();
    fl_doc_insert_int(&mut last, Some(&mut d), b("n"), 5);
    fl_engine_insert(&mut last, Some(&mut e), b("c"), b("a"), Some(&d), 1_000);
    fl_engine_insert(&mut last, Some(&mut e), b("c"), b("b"), Some(&d), 2_000);
    let q = fl_query_new(&mut last, b("c")).unwrap();
    let rows = e.db.query_all("c", &FileReads::new());
    let text = fl_query_execute(&mut last, Some(&mut e), Some(&q), rows, &FloatTexts::new()).unwrap();
    assert_eq!(text, "[{\"n\":5},{\"n\":5}]");
    let rows = e.db.query_all("c", &FileReads::new());
    let set = fl_query_execute_to_handles(&mut e, &q, rows);
    assert_eq!(fl_result_set_count(Some(&set)), 2);
    assert_eq!(fl_result_set_count(None), 0);
    assert_eq!(fl_result_set_get_doc(Some(&set), 1).unwrap().id, "b");
    assert!(fl_result_set_get_doc(Some(&set), 2).is_none());
    assert_eq!(fl_result_set_to_json(&mut last, Some(&set), &FloatTexts::new()).unwrap(), text);
    assert!(fl_result_set_to_json(&mut last, None, &FloatTexts::new()).is_none());
    assert_eq!(error(&last), "null result set handle");
    let failed = fl_query_execute(
        &mut last,
        Some(&mut e),
        Some(&q),
        Err(HakoError::QueryError("bad".to_string())),
        &FloatTexts::new(),
    );
    assert!(failed.is_none());
    assert_eq!(error(&last), "query error: bad");
    let rows = e.db.query_all("c", &FileReads::new()).unwrap_or_else(|x| panic!("{}", x.text()));
    assert_eq!(fl_query_delete(&mut last, Some(&mut e), Some(&q), &rows, 3_000, &none()).0, 2);
    assert_eq!(fl_query_delete(&mut last, Some(&mut e), Some(&q), &vec![], 4_000, &none()).0, 0);
    assert_eq!(fl_query_delete(&mut last, None, Some(&q), &vec![], 4_000, &none()).0, -1);
}

#[test]
fn nodes_are_made_and_looked_at() {
    let mut last = LastError::new();
    let mut e = open();
    let mut n = fl_net_syncer_new(&mut last, &mut e, None, None, false, 0, &FileReads::new());
    assert_eq!(n.inner.self_id, "node");
    assert_eq!(fl_net_syncer_set_discovery(&mut last, Some(&mut n), 2), 0);
    assert_eq!(n.inner.discovery_mode(), DiscoveryMode::Both);
    assert_eq!(fl_net_syncer_set_discovery(&mut last, Some(&mut n), 3), -1);
    assert_eq!(error(&last), "invalid discovery mode (0=mdns, 1=broadcast, 2=both)");
    assert_eq!(fl_net_syncer_status(Some(&n)).unwrap().peer_count, 0);
    assert!(fl_net_syncer_status(None).is_none());
    assert!(fl_cloud_sync_new(&mut last, None, 0, None, None, None, None).is_none());
    assert_eq!(error(&last), "Null engine handle");
    let mut c = fl_cloud_sync_new(&mut last, Some(&e), 7, b("me"), b("room"), None, None).unwrap();
    let s = fl_cloud_sync_status(&mut last, Some(&c)).unwrap();
    assert_eq!((s.room_name.as_str(), s.room_key.as_str(), s.connected), ("room", "default", false));
    c.inner.start();
    fl_cloud_sync_stop(Some(&mut c));
    assert!(!c.inner.running);
    let s = fl_cloud_sync_server_new(&mut last, Some(&e), None, b("t")).unwrap();
    assert_eq!(s.inner.client_id, "server");
    assert_eq!(fl_cloud_sync_status(&mut last, Some(&s)).unwrap().room_name, "(multi-room)");
    let k = fl_cloud_sync_client_new(&mut last, Some(&e), None, None, b("k"), None).unwrap();
    assert_eq!((k.inner.client_id.as_str(), k.inner.room_key.as_str()), ("node", "k"));
}

#[test]
fn queries_wait_for_workers() {
    let mut x = QueryExecutor::new(4);
    let mut s = x.execute(Query::new("a"), 1);
    x.execute(Query::new("b"), 2);
    assert_eq!(s.next(), None);
    assert_eq!(x.workers, 4);
    assert_eq!(x.scheduler.take().map(|t| t.collection_id), Some(1));
    assert_eq!(x.scheduler.take().map(|t| t.query.collection), Some("b".to_string()));
    assert!(x.scheduler.take().is_none());
}

#[test]
fn the_default_settings_are_those_of_the_handle() {
    let c = fl_config_new();
    let d = HakoConfig::default();
    assert_eq!(c.inner.page_size, d.page_size);
    assert_eq!(c.inner.value_blob_threshold_bytes, 16384);
}

#[test]
fn figures_are_told_as_an_object() {
    let mut last = LastError::new();
    let mut e = open();
    let q = fl_query_new(&mut last, b("c")).unwrap();
    let mut floats = FloatTexts::new();
    floats.insert(2.5f64.to_bits(), "2.5".to_string());
    let found = Ok(vec![("mean".to_string(), 2.5f64.to_bits())]);
    let text = fl_query_execute_aggregation(&mut last, Some(&mut e), Some(&q), found, &floats);
    assert_eq!(text, Some("{\"mean\":2.5}".to_string()));
    assert_eq!(fl_query_execute_aggregation(&mut last, None, Some(&q), Ok(Vec::new()), &floats), None);
    assert_eq!(last.fl_last_error(), Some(&"null engine or query handle".to_string()));
}

#[test]
fn the_counts_of_a_store_are_told_as_an_object() {
    let mut e = open();
    assert_eq!(fl_engine_get_stats(&e), "{}");
    let mut d = hakodb::document::firelite_doc::FireLiteDoc::default();
    d.insert("n".to_string(), Value::Int(1));
    assert!(e.db.put("c", "a", &d, 1_000_000).is_ok());
    assert_eq!(fl_engine_get_stats(&e), "{\"c_count\":1,\"c_pending_blob_bytes\":0}");
}

#[test]
fn the_encrypted_collections_come_as_a_json_text() {
    let mut c = fl_config_new();
    assert_eq!(fl_config_set_encrypted_collections(Some(&mut c), b("[\"b\", \"a\\u00e9\", \"b\"]")), 0);
    let mut names = c.inner.encrypted_cols.clone().unwrap();
    names.sort();
    assert_eq!(names, vec!["aé".to_string(), "b".to_string()]);
    for wrong in ["", "{}", "[1]", "[\"a\"", "[\"a\"] x", "null"] {
        assert_eq!(fl_config_set_encrypted_collections(Some(&mut c), b(wrong)), -1);
    }
    assert_eq!(fl_config_set_encrypted_collections(Some(&mut c), None), -1);
    assert_eq!(fl_config_set_encrypted_collections(Some(&mut c), Some(&[0xff])), -1);
    assert_eq!(fl_config_set_encrypted_collections(None, b("[]")), -1);
    assert_eq!(c.inner.encrypted_cols.as_ref().unwrap().len(), 2);
    assert_eq!(fl_config_set_encrypted_collections(Some(&mut c), b(" [] ")), 0);
    assert_eq!(c.inner.encrypted_cols, Some(vec![]));
}

#[test]
fn the_columns_of_an_index_come_as_a_json_text() {
    let mut last = LastError::new();
    let mut e = open();
    let text = "[{\"field\": \"n\", \"desc\": true}, {\"desc\": 1, \"field\": \"m\"}, 7, {\"field\": [1]}]";
    assert_eq!(fl_engine_create_index(&mut e, b("c"), b(text)), (1, true));
    let list = fl_engine_list_indexes(&mut last, Some(&e), None).unwrap();
    let made: Vec<(&str, &str)> =
        list.composite[0].fields.iter().map(|f| (f.field.as_str(), f.direction.as_str())).collect();
    assert_eq!(made, vec![("n", "desc"), ("m", "asc"), ("", "asc"), ("", "asc")]);
    for wrong in ["", "{\"field\": \"n\"}", "[{]", "[] []"] {
        assert_eq!(fl_engine_create_index(&mut e, b("c"), b(wrong)), (0, false));
    }
    assert_eq!(fl_engine_create_index(&mut e, b("c"), None), (0, false));
    assert_eq!(fl_engine_create_index(&mut e, None, b("[]")), (0, false));
}

#[test]
fn a_document_whose_links_cannot_be_read_is_kept() {
    let mut last = LastError::new();
    let mut e = open();
    let mut d = fl_doc_new();
    d.id = "x".to_string();
    d.doc.insert("a".to_string(), Value::BlobLink { offset: 3, len: 1 });
    d.doc.insert("b".to_string(), Value::BlobLink { offset: 9, len: 1 });
    d.doc.insert("c".to_string(), Value::Int(1));
    let mut r = FileReads::new();
    r.blobs.insert(3, b"z".to_vec());
    assert_eq!(fl_doc_resolve_blobs(&mut last, Some(&mut e.db), b("c"), Some(&mut d), &r), -1);
    assert!(error(&last).contains("blob cannot be read"));
    assert_eq!(d.id, "x");
    assert!(matches!(d.doc.get("a"), Some(Value::String(s)) if s == "z"));
    assert!(matches!(d.doc.get("b"), Some(Value::BlobLink { offset: 9, .. })));
    assert!(matches!(d.doc.get("c"), Some(Value::Int(1))));
    assert_eq!(fl_doc_resolve_blobs(&mut last, None, b("c"), Some(&mut d), &r), -1);
    assert!(matches!(d.doc.get("b"), Some(Value::BlobLink { .. })));
    r.blobs.insert(9, vec![0xff]);
    assert_eq!(fl_doc_resolve_blobs(&mut last, Some(&mut e.db), b("c"), Some(&mut d), &r), 0);
    assert!(matches!(d.doc.get("b"), Some(Value::Binary(v)) if v == &vec![0xff]));
}
