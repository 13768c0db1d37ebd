use hakodb::document::firelite_doc::FireLiteDoc;
use hakodb::document::value::Value;
use hakodb::engine::worker::apply_index_op;
use hakodb::engine::IndexOp;
use hakodb::index::composite::composite_index::CompositeIndex;
use hakodb::index::composite::definition::{CompositeIndexDefinition, SortDirection};
use hakodb::index::composite::key_encoder::key_of;
use hakodb::index::composite::manager::CompositeIndexManager;
use hakodb::index::composite::range_builder::{build_prefix_range, build_prefix_key, build_prefix_open_end};
use hakodb::index::index_key::{decode_scalar_as_f64, encode_scalar};
use hakodb::index::inverted_index::{split_words, tokenize, InvertedIndex};
use hakodb::index::manager::IndexManager;
use hakodb::index::secondary_index::SecondaryIndex;
use hakodb::index::storage::index_log::{encode_entry, DELETE, INSERT};
use hakodb::index::storage::index_recovery::replay_log;
use hakodb::index::storage::index_storage::IndexStorage;

fn doc(fields: &[(&str, i64)]) -> FireLiteDoc {
    let mut d = FireLiteDoc::default();
    for (k, v) in fields {
        d.insert(k.to_string(), Value::Int(*v));
    }
    d
}

fn definition(fields: &[(&str, SortDirection)]) -> CompositeIndexDefinition {
    CompositeIndexDefinition::new("c").with_fields(fields.iter().map(|(f, d)| (f.to_string(), *d)).collect())
}

#[test]
fn words_are_lower_case_letters_and_digits() {
    assert_eq!(tokenize("Größe-42, ÉTÉ!"), vec!["größe".to_string(), "42".to_string(), "été".to_string()]);
    // Single letters are no words.
    assert_eq!(split_words("ab--cd e"), vec!["ab".to_string(), "cd".to_string()]);
    assert!(tokenize(" ,;").is_empty());
}

#[test]
fn a_document_is_found_by_its_words_until_it_is_taken_out() {
    let mut idx = InvertedIndex::default();
    idx.insert("Red apple", "a".to_string());
    idx.insert("green apple", "b".to_string());
    assert_eq!(idx.search("APPLE"), Some(vec!["a".to_string(), "b".to_string()]));
    assert_eq!(idx.search("red apple"), Some(vec!["a".to_string()]));
    idx.remove("Red apple", "a");
    assert_eq!(idx.search("apple"), Some(vec!["b".to_string()]));
    assert!(idx.search("red").is_none());
    assert!(idx.search("").is_none());
}

#[test]
fn secondary_entries_come_and_go() {
    let mut x = SecondaryIndex::default();
    let k = encode_scalar(&Value::Int(5));
    x.insert(k.clone(), "b".to_string());
    x.insert_borrowed(&k, "a");
    assert_eq!(x.lookup(&k), vec!["a".to_string(), "b".to_string()]);
    assert_eq!(x.get_map().len(), 1);
    x.remove(&k, "b");
    assert_eq!(x.lookup(&k), vec!["a".to_string()]);
    x.remove(&k, "a");
    assert!(x.lookup(&k).is_empty());
    assert!(x.get_map().is_empty());
}

#[test]
fn the_number_of_a_key_is_found_again() {
    for n in [-3i64, 0, 7, i64::MAX] {
        let k = encode_scalar(&Value::Int(n));
        assert_eq!(decode_scalar_as_f64(&k).map(f64::from_bits), Some(n as f64));
    }
    assert!(decode_scalar_as_f64(&encode_scalar(&Value::Bool(true))).is_none());
    assert_ne!(encode_scalar(&Value::Int(1)), encode_scalar(&Value::Int(2)));
}

#[test]
fn a_composite_index_scans_by_prefix_in_order() {
    let def = definition(&[("a", SortDirection::Asc), ("b", SortDirection::Desc)]);
    let mut x = CompositeIndex::new(def);
    x.index_document("d1", &doc(&[("a", 1), ("b", 10)]));
    x.index_document("d2", &doc(&[("a", 1), ("b", 20)]));
    x.index_document("d3", &doc(&[("a", 2), ("b", 5)]));
    x.index_document("d4", &doc(&[("a", 2)]));
    let def = definition(&[("a", SortDirection::Asc), ("b", SortDirection::Desc)]);
    let r = build_prefix_range(&def, &vec![Value::Int(1)]);
    assert_eq!(x.range_scan(&r.start, &r.end), vec!["d2".to_string(), "d1".to_string()]);
    assert_eq!(x.range_scan_limit(&r.start, &r.end, 1, false), vec!["d2".to_string()]);
    assert_eq!(x.range_scan_limit(&r.start, &r.end, 1, true), vec!["d1".to_string()]);
    x.remove_document("d2", &doc(&[("a", 1), ("b", 20)]));
    assert_eq!(x.range_scan(&r.start, &r.end), vec!["d1".to_string()]);
    let p = build_prefix_key(&def, &vec![Value::Int(2)]);
    let e = build_prefix_open_end(&p);
    assert_eq!(x.range_scan(&p, &e), vec!["d3".to_string()]);
}

#[test]
fn the_manager_keeps_all_indexes_of_a_collection() {
    let mut m = IndexManager::default();
    m.create_secondary_index("c", "n");
    m.create_fts_index("c", "t");
    let id = m.create_index(definition(&[("n", SortDirection::Asc)]));
    let mut d = doc(&[("n", 4)]);
    d.insert("t".to_string(), Value::String("blue sky".to_string()));
    m.index_document("c", "x", &d);
    assert_eq!(m.lookup_secondary("c", "n", &encode_scalar(&Value::Int(4))), Some(vec!["x".to_string()]));
    assert!(m.has_index("c", &vec!["n".to_string()]));
    assert!(!m.has_index("d", &vec!["n".to_string()]));
    assert_eq!(
        m.exact_match_doc_ids("c", &vec!["n".to_string()], &vec![Value::Int(4)]),
        Some(vec!["x".to_string()])
    );
    m.remove_document("c", "x", &d);
    assert_eq!(m.exact_match_doc_ids("c", &vec!["n".to_string()], &vec![Value::Int(4)]), Some(vec![]));
    assert_eq!(m.indexes_for_collection("c")[0].definition.id, id);
    assert!(m.lookup_secondary("c", "none", &[]).is_none());
}

#[test]
fn index_work_writes_what_is_to_be_logged() {
    let mut m = IndexManager::default();
    m.create_index(definition(&[("n", SortDirection::Asc)]));
    let op = IndexOp {
        collection: "c".to_string(),
        puts: vec![("x".to_string(), doc(&[("n", 4)]))],
        deletes: vec![],
    };
    let log = apply_index_op(&mut m, &op);
    assert!(!log.is_empty());
    assert_eq!(log[0], INSERT);
    let mut other = CompositeIndexManager::default();
    other.create_index(definition(&[("n", SortDirection::Asc)]));
    assert_eq!(replay_log(&log, &mut other), log.len());
    assert_eq!(
        other.exact_match_doc_ids("c", &vec!["n".to_string()], &vec![Value::Int(4)]),
        Some(vec!["x".to_string()])
    );
}

#[test]
fn a_torn_record_at_the_end_of_a_log_is_dropped() {
    let mut m = CompositeIndexManager::default();
    m.create_index(definition(&[("n", SortDirection::Asc)]));
    let mut log = encode_entry(INSERT, 1, b"k1", "d1");
    log.extend(encode_entry(INSERT, 1, b"k2", "d2"));
    log.extend(encode_entry(DELETE, 1, b"k1", "d1"));
    let whole = log.len();
    let torn = encode_entry(INSERT, 1, b"k3", "d3");
    log.extend_from_slice(&torn[..torn.len() - 1]);
    assert_eq!(replay_log(&log, &mut m), whole);
    let x = m.get(1).unwrap();
    assert_eq!(x.range_scan(&key_of(b""), &key_of(b"z")), vec!["d2".to_string()]);
}

#[test]
fn ids_in_a_log_that_are_no_text_get_replacement_characters() {
    let mut m = CompositeIndexManager::default();
    m.create_index(definition(&[("n", SortDirection::Asc)]));
    let mut log = encode_entry(INSERT, 1, b"k", "d");
    let n = log.len();
    log[n - 1] = 0xFF;
    assert_eq!(replay_log(&log, &mut m), n);
    let x = m.get(1).unwrap();
    assert_eq!(x.range_scan(&key_of(b""), &key_of(b"z")), vec!["\u{FFFD}".to_string()]);
}

#[test]
fn index_storage_logs_and_comes_back() {
    let (mut s, end) = IndexStorage::open(&[], "snaps");
    assert_eq!(end, 0);
    s.manager.create_index(definition(&[("n", SortDirection::Asc)]));
    let record = s.insert(1, b"k".to_vec(), "d".to_string());
    assert_eq!(record, encode_entry(INSERT, 1, b"k", "d"));
    let (path, bytes) = s.snapshot(1).unwrap();
    assert_eq!(path, "snaps/1.snap");
    assert!(!bytes.is_empty());
    assert!(s.snapshot(9).is_none());
    let gone = s.delete(1, b"k".to_vec(), "d".to_string());
    assert_eq!(gone[0], DELETE);
}

#[test]
fn indexes_come_back_from_their_saved_state() {
    let mut a = IndexManager::default();
    a.create_secondary_index("c", "n");
    a.create_fts_index("c", "t");
    let mut d = doc(&[("n", 7)]);
    d.insert("t".to_string(), Value::String("red apple".to_string()));
    a.index_document("c", "x", &d);
    let bytes = a.export_state();

    let mut b = IndexManager::default();
    b.create_secondary_index("c", "n");
    b.create_fts_index("c", "t");
    assert!(b.import_state(&bytes).is_ok());
    let key = encode_scalar(&Value::Int(7));
    assert_eq!(b.lookup_secondary("c", "n", &key), Some(vec!["x".to_string()]));
    assert_eq!(b.export_state(), bytes);

    // What is not indexed here is not taken over.
    let mut other = IndexManager::default();
    other.create_secondary_index("c", "m");
    assert!(other.import_state(&bytes).is_ok());
    assert_eq!(other.lookup_secondary("c", "n", &key), None);
    assert_eq!(other.lookup_secondary("c", "m", &key), Some(vec![]));
}

#[test]
fn the_saved_state_is_counted_rows() {
    let mut a = IndexManager::default();
    a.create_secondary_index("c", "n");
    // One collection with one field and no keys, and no collection with words.
    let mut expected = vec![1, 0, 0, 0, 0, 0, 0, 0, 1, 0, 0, 0, 0, 0, 0, 0, b'c'];
    expected.extend_from_slice(&[1, 0, 0, 0, 0, 0, 0, 0, 1, 0, 0, 0, 0, 0, 0, 0, b'n']);
    expected.extend_from_slice(&[0; 16]);
    assert_eq!(a.export_state(), expected);
}

#[test]
fn bytes_that_hold_no_state_change_no_index() {
    let mut a = IndexManager::default();
    a.create_secondary_index("c", "n");
    a.index_document("c", "x", &doc(&[("n", 1)]));
    let before = a.export_state();
    match a.import_state(&[9, 9]) {
        Err(hakodb::error::HakoError::Corrupt(m)) => assert!(m.starts_with("Index import failed: ")),
        _ => panic!("taken"),
    }
    assert_eq!(a.export_state(), before);
}

fn ids(names: &[&str]) -> Vec<String> {
    names.iter().map(|n| n.to_string()).collect()
}

fn one(field: &str, v: Value) -> FireLiteDoc {
    let mut d = FireLiteDoc::default();
    d.insert(field.to_string(), v);
    d
}

#[test]
fn times_and_texts_of_one_length_stand_in_the_order_of_their_direction() {
    for (direction, times, texts) in [
        (SortDirection::Asc, ids(&["t1", "t2", "t3"]), ids(&["x", "y", "z"])),
        (SortDirection::Desc, ids(&["t3", "t2", "t1"]), ids(&["z", "y", "x"])),
    ] {
        let mut x = CompositeIndex::new(definition(&[("at", direction)]));
        for (id, t) in [("t3", 300i64), ("t1", 5), ("t2", 256)] {
            x.index_document(id, &one("at", Value::Timestamp(t)));
        }
        let mut y = CompositeIndex::new(definition(&[("name", direction)]));
        for (id, s) in [("y", "abd"), ("z", "b00"), ("x", "abc")] {
            y.index_document(id, &one("name", Value::String(s.to_string())));
        }
        let r = build_prefix_range(&definition(&[("at", direction)]), &vec![]);
        assert_eq!(x.range_scan(&r.start, &r.end), times);
        assert_eq!(y.range_scan(&r.start, &r.end), texts);
    }
    assert!(encode_scalar(&Value::Int(2)) < encode_scalar(&Value::Int(300)));
    assert!(encode_scalar(&Value::Timestamp(-300)) < encode_scalar(&Value::Timestamp(-2)));
}

#[test]
fn documents_with_the_same_values_have_entries_of_their_own() {
    let mut x = CompositeIndex::new(definition(&[("n", SortDirection::Asc)]));
    for id in ["a", "ab", "b", ""] {
        x.index_document(id, &doc(&[("n", 7)]));
    }
    let r = build_prefix_range(&definition(&[("n", SortDirection::Asc)]), &vec![Value::Int(7)]);
    assert_eq!(x.range_scan(&r.start, &r.end), ids(&["", "a", "b", "ab"]));
}

#[test]
fn a_filled_index_holds_each_document_and_no_other() {
    let mut m = IndexManager::default();
    m.create_secondary_index("c", "n");
    m.create_fts_index("c", "t");
    let docs = vec![
        ("a".to_string(), doc(&[("n", 1)])),
        ("b".to_string(), doc(&[("n", 2)])),
        ("c".to_string(), one("t", Value::String("blue sky".to_string()))),
        ("d".to_string(), doc(&[("n", 1)])),
    ];
    m.fill_secondary("c", &docs);
    m.fill_fts("c", &docs);
    assert_eq!(m.lookup_secondary("c", "n", &encode_scalar(&Value::Int(1))), Some(ids(&["a", "d"])));
    assert_eq!(m.lookup_secondary("c", "n", &encode_scalar(&Value::Int(2))), Some(ids(&["b"])));
    assert_eq!(m.lookup_secondary("c", "n", &encode_scalar(&Value::Int(3))), Some(vec![]));
}

#[test]
fn both_ways_of_putting_a_document_under_a_key_agree() {
    let mut a = SecondaryIndex::default();
    let mut b = SecondaryIndex::default();
    for (k, id) in [(5, "x"), (3, "y"), (5, "a"), (5, "x")] {
        let key = encode_scalar(&Value::Int(k));
        a.insert(key.clone(), id.to_string());
        b.insert_borrowed(&key, id);
        assert_eq!(a.get_map(), b.get_map());
    }
    let rows = a.get_map();
    assert_eq!(rows.len(), 2);
    assert!(rows[0].0 < rows[1].0);
    assert_eq!(rows[0], (encode_scalar(&Value::Int(3)), ids(&["y"])));
    assert_eq!(rows[1].1, ids(&["a", "x"]));
}

#[test]
fn a_document_is_indexed_by_what_a_search_finds_in_it() {
    let d = FireLiteDoc {
        fields: vec![("n".to_string(), Value::Int(9)), ("m".to_string(), Value::Int(1)), ("n".to_string(), Value::Int(4))],
        _time: 0,
    };
    let mut m = IndexManager::default();
    m.create_secondary_index("c", "n");
    m.index_document("c", "x", &d);
    let at = m.secondary.find("c").unwrap();
    let field = m.secondary.thing(at).find("n").unwrap();
    let rows = m.secondary.thing(at).thing(field).get_map();
    let expected: Vec<(Vec<u8>, Vec<String>)> = d.get("n").map(|v| (encode_scalar(v), ids(&["x"]))).into_iter().collect();
    assert_eq!(rows, expected);
}

#[test]
fn what_comes_behind_a_saved_state_is_not_looked_at() {
    let mut a = IndexManager::default();
    a.create_secondary_index("c", "n");
    let mut bytes = a.export_state();
    for n in 0..bytes.len() {
        assert!(a.import_state(&bytes[..n]).is_err());
    }
    bytes.push(7);
    assert!(a.import_state(&bytes).is_ok());
}
