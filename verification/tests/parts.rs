use hakodb::cloud_sync::packet::CloudSyncMode;
use hakodb::cloud_sync::CloudSync;
use hakodb::composite::composite_planner::CompositePlanner;
use hakodb::composite::definition::{CompositeIndexDefinition, SortDirection};
use hakodb::composite::manager::CompositeIndexManager;
use hakodb::composite::range_builder::RangeBuilder;
use hakodb::config::HakoConfig;
use hakodb::document::firelite_doc::{BorrowedValue, FireLiteDoc};
use hakodb::document::value::Value;
use hakodb::engine::access::get_encryption_for_col;
use hakodb::engine::engine::Hako;
use hakodb::engine::files::FileReads;
use hakodb::engine::stats::{write_stats_report, WritePhaseStats};
use hakodb::engine::worker::{blob_worker_step, query_threads};
use hakodb::index::composite::composite_index::CompositeIndex;
use hakodb::index::composite::definition;
use hakodb::index::composite::range_builder::{build_cursor_range, build_prefix_open_end, build_value_key};
use hakodb::memory::doc_view::DocView;
use hakodb::memory::memory_engine::MemoryEngine;
use hakodb::memory::page::DEFAULT_PAGE_SIZE;
use hakodb::net_sync::{DiscoveryMode, NetSyncer};
use hakodb::query::{Filter, Operator, Query};
use hakodb::text::trim_text;

fn open() -> Hako {
    Hako::open(HakoConfig::default(), None, None)
}

fn doc(n: i64) -> FireLiteDoc {
    let mut d = FireLiteDoc::default();
    d.insert("n".to_string(), Value::Int(n));
    d
}

#[test]
fn a_service_of_rooms_tells_its_peers_and_versions() {
    let mut c = CloudSync::new(CloudSyncMode::Client, "me", "room", "key", "token");
    c.set_api_key(Some(String::new()));
    assert_eq!(c.api_key, None);
    c.set_api_key(Some("k".to_string()));
    assert_eq!(c.api_key.as_deref(), Some("k"));
    c.hall.peers.insert("room/a".to_string(), "room".to_string());
    let peers = c.peer_list();
    assert_eq!(peers.len(), 1);
    assert_eq!((peers[0].peer_key.as_str(), peers[0].prefix.as_str()), ("room/a", "room"));
    let mut db = open();
    assert!(db.put("room_users", "u", &doc(1), 5_000_000).is_ok());
    let dirs = vec!["room_users".to_string(), "other_users".to_string(), "_hidden".to_string()];
    let versions = c.room_versions(&mut db, "room", &dirs);
    assert_eq!(versions.len(), 1);
    assert_eq!(versions.get(&"users".to_string()), Some(&5_000));
}

#[test]
fn the_planner_takes_the_first_index_that_serves() {
    let mut m = CompositeIndexManager::new();
    m.create_index(CompositeIndexDefinition::new(7).add_field("b", SortDirection::Asc));
    m.create_index(
        CompositeIndexDefinition::new(7).add_field("a", SortDirection::Asc).add_field("b", SortDirection::Desc),
    );
    let mut q = Query::new("c");
    q.filters.push(Filter { field: "a".to_string(), op: Operator::Eq, value: Value::Int(1) });
    let found = CompositePlanner::find_index(&q, &m, 7).unwrap();
    assert_eq!(found.definition.fields.len(), 2);
    assert!(CompositePlanner::find_index(&q, &m, 8).is_none());
    q.filters.push(Filter { field: "x".to_string(), op: Operator::Eq, value: Value::Int(1) });
    assert!(CompositePlanner::find_index(&q, &m, 7).is_none());
}

#[test]
fn a_prefix_range_ends_behind_its_start() {
    let def = CompositeIndexDefinition::new(1).add_field("a", SortDirection::Asc);
    let r = RangeBuilder::build_prefix(&def, &vec![]);
    assert_eq!(r.start, vec![0, 0, 0, 1]);
    assert_eq!(r.end, vec![0, 0, 0, 1, 255]);
}

#[test]
fn ranges_of_values_and_cursors() {
    let make = || {
        definition::CompositeIndexDefinition::new("c").with_fields(vec![
            ("a".to_string(), definition::SortDirection::Asc),
            ("b".to_string(), definition::SortDirection::Asc),
        ])
    };
    let def = make();
    let mut x = CompositeIndex::new(make());
    for (id, a, b) in [("d1", 1i64, 10i64), ("d2", 1, 20), ("d3", 1, 30), ("d4", 2, 10)] {
        let mut d = FireLiteDoc::default();
        d.insert("a".to_string(), Value::Int(a));
        d.insert("b".to_string(), Value::Int(b));
        x.index_document(id, &d);
    }
    let one = vec![Value::Int(1)];
    let from = build_value_key(&def, &one, &Value::Int(20)).unwrap();
    let to = build_prefix_open_end(&build_value_key(&def, &one, &Value::Int(30)).unwrap());
    assert_eq!(x.range_scan(&from, &to), vec!["d2".to_string(), "d3".to_string()]);
    assert!(build_value_key(&def, &vec![Value::Int(1), Value::Int(2)], &Value::Int(3)).is_none());
    let at = vec![Value::Int(1), Value::Int(20)];
    let end = build_prefix_open_end(&build_value_key(&def, &vec![], &Value::Int(1)).unwrap());
    let here = build_cursor_range(&def, &at, false);
    assert_eq!(x.range_scan(&here, &end), vec!["d2".to_string(), "d3".to_string()]);
    let mut y = CompositeIndex::new(make());
    let mut d = FireLiteDoc::default();
    d.insert("a".to_string(), Value::Int(1));
    d.insert("b".to_string(), Value::Int(20));
    y.index_document("", &d);
    assert_eq!(y.range_scan(&here, &end).len(), 1);
    assert!(y.range_scan(&build_cursor_range(&def, &at, true), &end).is_empty());
}

#[test]
fn values_tell_their_length_and_stand_in_bytes() {
    assert_eq!(Value::String("zoë".to_string()).len_bytes(), 4);
    assert_eq!(Value::Binary(vec![1, 2, 3]).len_bytes(), 3);
    assert_eq!(Value::Int(9).len_bytes(), 0);
    let v = BorrowedValue { tag: 0x42, data: b"hi" };
    assert!(matches!(v.to_owned_value(), Some(Value::String(s)) if s == "hi"));
    assert!(BorrowedValue { tag: 0x42, data: b"h" }.to_owned_value().is_none());
    let d = doc(3);
    let mut buf = vec![9, 9];
    assert_eq!(d.encode_buffered(&mut buf), d.encode());
    assert_eq!(buf, d.encode());
}

#[test]
fn a_collection_has_a_secret_where_it_is_encrypted() {
    let mut config = HakoConfig::default();
    assert!(get_encryption_for_col(&config, "c").is_none());
    config.encryption_key = Some("key".to_string());
    assert_eq!(get_encryption_for_col(&config, "c"), Some(&"key".to_string()));
    config.encrypted_cols = Some(vec!["d".to_string()]);
    assert!(get_encryption_for_col(&config, "c").is_none());
    assert!(get_encryption_for_col(&config, "d").is_some());
}

#[test]
fn the_writer_of_blobs_rests_and_stops() {
    let s = blob_worker_step(false, false, false);
    assert!(s.rest && !s.stop);
    let s = blob_worker_step(true, false, true);
    assert!(!s.rest && !s.stop);
    let s = blob_worker_step(false, true, true);
    assert!(!s.rest && s.stop);
    assert_eq!([query_threads(0), query_threads(5), query_threads(99)], [1, 5, 8]);
}

#[test]
fn a_packed_blob_file_holds_what_documents_link_to() {
    let mut config = HakoConfig::default();
    config.value_blob_threshold_bytes = 8;
    let mut db = Hako::open(config, None, None);
    for (id, text, now) in [("b", "y".repeat(12), 1_000_000i64), ("a", "x".repeat(10), 2_000_000)] {
        let mut d = FireLiteDoc::default();
        d.insert("t".to_string(), Value::String(text));
        assert!(db.put("c", id, &d, now).is_ok());
    }
    let mut reads = FileReads::new();
    assert!(db.vacuum("c", &reads).is_err());
    reads.blobs.insert(0, "y".repeat(12).into_bytes());
    reads.blobs.insert(12, "x".repeat(10).into_bytes());
    let packed = db.vacuum("c", &reads).unwrap();
    assert_eq!(String::from_utf8(packed).unwrap(), "x".repeat(10) + &"y".repeat(12));
}

#[test]
fn memory_is_written_and_paged() {
    let view = DocView::new(&[0, 0, 1, 2, 7]);
    assert_eq!(view.get_u32(0), 258);
    assert_eq!(view.slice(3, 2), &[2, 7]);
    let mut m = MemoryEngine::open(vec![0; DEFAULT_PAGE_SIZE], DEFAULT_PAGE_SIZE * 2);
    assert_eq!(m.write_doc(b"abc").unwrap(), 0);
    assert_eq!(m.write_doc(b"de").unwrap(), 3);
    assert_eq!(m.read_doc(0, 5), b"abcde".to_vec());
    let page = m.load_page(0);
    assert_eq!(page.len(), DEFAULT_PAGE_SIZE);
    assert_eq!(&page[..5], b"abcde");
    // A page that is held is not read again.
    assert!(m.write_doc(b"f").is_ok());
    assert_eq!(m.load_page(0)[5], 0);
    assert!(m.write_doc(&vec![1; DEFAULT_PAGE_SIZE]).is_err());
}

#[test]
fn ways_of_discovery_have_numbers() {
    for v in 0u8..=9 {
        if let Some(mode) = DiscoveryMode::from_u8(v) {
            assert_eq!(mode.number(), v);
        }
    }
    assert!(DiscoveryMode::from_u8(200).is_none());
    let mut db = open();
    let node = NetSyncer::new(&mut db, "n", "room", vec![], false, 0, &FileReads::new()).with_relay(true);
    assert!(node.enable_relay);
}

#[test]
fn a_composite_index_is_made_once() {
    let mut db = open();
    let up = vec![("a".to_string(), definition::SortDirection::Asc), ("b".to_string(), definition::SortDirection::Asc)];
    let turned = vec![up[1].clone(), up[0].clone()];
    let down = vec![("a".to_string(), definition::SortDirection::Desc), up[1].clone()];
    let (id, made) = db.create_composite_index("c", up.clone());
    assert!(made);
    assert_eq!(db.create_composite_index("c", up), (id, false));
    assert_eq!(db.list_indexes(Some("c")).composite.len(), 1);
    let (second, _) = db.create_composite_index("c", turned);
    let (third, _) = db.create_composite_index("c", down);
    assert!(id != second && second != third && id != third);
    assert_eq!(db.list_indexes(Some("c")).composite.len(), 3);
}

#[test]
fn a_report_starts_the_count_anew() {
    let words = ("1.5".to_string(), "0.5".to_string());
    let figures = vec![words; 10];
    let mut stats = WritePhaseStats {
        batches: 2,
        mutations: 6,
        total_ns: 3000,
        encode_ns: 0,
        wal_ns: 0,
        apply_ns: 0,
        index_send_ns: 0,
        versions_ns: 0,
        watchers_ns: 0,
        cache_ns: 0,
        blob_ns: 0,
        encdoc_ns: 0,
    };
    let first = write_stats_report(&mut stats, "3.0", &figures);
    assert!(first.starts_with("write profile: 2 batches, 6 mutations (3.0/batch)\n"));
    assert!(first.contains("  total   1.5us/batch 0.5us/mutation\n"));
    let second = write_stats_report(&mut stats, "3.0", &figures);
    let lines: Vec<&str> = second.lines().collect();
    assert_eq!(lines[0], "write profile: 1 batches, 1 mutations (1.0/batch)");
    assert_eq!(lines.len(), 11);
    for line in lines.iter().skip(1) {
        assert!(line.ends_with(&format!(" {:>10.1}us/batch {:>8.1}us/mutation", 0.0, 0.0)));
    }
}

#[test]
fn what_is_written_into_memory_is_read_and_the_rest_stays() {
    let mut m = MemoryEngine::open(vec![7; 16], 0);
    let a = m.write_doc(b"abc").unwrap();
    let b = m.write_doc(b"de").unwrap();
    assert_eq!(m.read_doc(a, 3), b"abc".to_vec());
    assert_eq!(m.read_doc(b, 2), b"de".to_vec());
    assert_eq!(m.read_doc(5, 11), vec![7; 11]);
    assert!(m.write_doc(&[0; 12]).is_err());
}

#[test]
fn a_put_keeps_the_fields_as_they_come() {
    let mut db = open();
    let d = FireLiteDoc {
        fields: vec![("b".to_string(), Value::Int(1)), ("a".to_string(), Value::Int(2)), ("b".to_string(), Value::Int(3))],
        _time: 0,
    };
    assert!(db.put("c", "x", &d, 5_000).is_ok());
    let read = db.get("c", "x", &FileReads::new()).unwrap().unwrap();
    assert_eq!(read._time, 5);
    assert_eq!(format!("{:?}", read.fields), r#"[("b", Int(1)), ("a", Int(2)), ("b", Int(3))]"#);
}

#[test]
fn a_query_asks_for_a_part() {
    let mut q = Query::new("c");
    let rows: Vec<(String, FireLiteDoc)> = (0..5).map(|n| (format!("d{}", n), doc(n))).collect();
    let ids = |q: &Query| -> Vec<String> { q.page(&rows).into_iter().map(|r| r.0).collect() };
    assert_eq!(ids(&q).len(), 5);
    q.offset = Some(3);
    assert_eq!(ids(&q), vec!["d3", "d4"]);
    q.limit = Some(1);
    assert_eq!(ids(&q), vec!["d3"]);
    q.offset = Some(9);
    assert!(ids(&q).is_empty());
    let mut d = doc(1);
    d.insert("zz".to_string(), Value::Null);
    d._time = 4;
    assert_eq!(q.project(&d).fields.len(), d.fields.len());
    q.projection = vec!["zz".to_string()];
    let p = q.project(&d);
    assert_eq!(p._time, 4);
    assert_eq!(p.fields, vec![("zz".to_string(), Value::Null)]);
    assert!(q.is_plain());
    q.start_at = Some(vec![]);
    assert!(!q.is_plain());
}

#[test]
fn a_checkpoint_is_due_after_five_seconds_with_changes() {
    assert!(!NetSyncer::checkpoint_due(true, 5_000));
    assert!(NetSyncer::checkpoint_due(true, 5_001));
    assert!(!NetSyncer::checkpoint_due(false, 60_000));
}

#[test]
fn no_more_documents_are_held_ready_than_there_is_room_for() {
    let mut db = open();
    let r = FileReads::new();
    for n in 0..8_195 {
        let id = format!("d{}", n);
        db.put("c", &id, &doc(n), 1_000).unwrap();
        assert!(db.get("c", &id, &r).unwrap().is_some());
    }
    assert_eq!(db.doc_cache.len(), 8_192);
    assert!(db.get("c", "d0", &r).unwrap().is_some());
    assert_eq!(db.doc_cache.len(), 8_192);
}

#[test]
fn white_space_is_what_unicode_says() {
    let white: Vec<char> = "\u{9}\u{a}\u{b}\u{c}\u{d}\u{20}\u{85}\u{a0}\u{1680}\u{2000}\u{2001}\u{2002}\u{2003}\u{2004}\u{2005}\u{2006}\u{2007}\u{2008}\u{2009}\u{200a}\u{2028}\u{2029}\u{202f}\u{205f}\u{3000}"
        .chars()
        .collect();
    for n in 0..=0x10ffff {
        if let Some(c) = char::from_u32(n) {
            assert_eq!(trim_text(&c.to_string()).is_empty(), white.contains(&c), "{:x}", n);
        }
    }
    assert_eq!(trim_text("\u{3000}a b\t\n"), "a b");
}
