use hakodb::directory::NameTable;
use hakodb::log::{decode_record, Log, Record};
use hakodb::memory::allocator::Allocator;
use hakodb::memory::arena::Arena;
use hakodb::memory::page::Page;
use hakodb::order::compare_bytes;
use hakodb::sorted_map::SortedMap;
use hakodb::text::{compare_text, replace_all, same_text, trim_text};
use hakodb::util::decimal::{push_digits, push_padded, push_signed};
use hakodb::util::frame::{put_frame_be, put_frame_le, read_frame_be, read_frame_le};
use hakodb::util::sort::sort_texts;
use hakodb::util::varint::{decode_varint, encode_varint, zigzag_decode, zigzag_encode};
use hakodb::Order;

#[test]
fn numbers_of_any_size_come_back() {
    for x in [0u64, 1, 127, 128, 300, u32::MAX as u64, u64::MAX] {
        let mut out = vec![9u8];
        encode_varint(x, &mut out);
        out.push(7);
        let mut pos = 1usize;
        assert_eq!(decode_varint(&out, &mut pos), Some(x));
        assert_eq!(pos, out.len() - 1);
    }
    let mut out = Vec::new();
    encode_varint(300, &mut out);
    assert_eq!(out, vec![0xAC, 0x02]);
    let mut pos = 0usize;
    assert_eq!(decode_varint(&[0x80], &mut pos), None);
}

#[test]
fn signed_numbers_are_folded() {
    assert_eq!(zigzag_encode(0), 0);
    assert_eq!(zigzag_encode(-1), 1);
    assert_eq!(zigzag_encode(1), 2);
    for x in [i64::MIN, -5, 0, 5, i64::MAX] {
        assert_eq!(zigzag_decode(zigzag_encode(x)), x);
    }
}

#[test]
fn frames_give_their_payload_back() {
    let mut be = Vec::new();
    put_frame_be(&mut be, b"hello");
    assert_eq!(&be[..4], &[0, 0, 0, 5]);
    be.push(1);
    assert_eq!(read_frame_be(&be), Some((b"hello".to_vec(), 9)));
    assert_eq!(read_frame_be(&be[..6]), None);
    let mut le = Vec::new();
    put_frame_le(&mut le, b"hi");
    assert_eq!(&le[..4], &[2, 0, 0, 0]);
    assert_eq!(read_frame_le(&le), Some((b"hi".to_vec(), 6)));
}

#[test]
fn digits_in_any_base() {
    let mut s = String::new();
    push_digits(&mut s, 255, 16);
    s.push(' ');
    push_padded(&mut s, 7, 10, 3);
    s.push(' ');
    push_signed(&mut s, i64::MIN);
    assert_eq!(s, "ff 007 -9223372036854775808");
}

#[test]
fn texts_compare_and_are_trimmed() {
    assert!(same_text("é", "é"));
    assert!(!same_text("e", "é"));
    assert_eq!(compare_text("a", "b"), Order::Less);
    assert_eq!(compare_bytes(&[1, 2], &[1]), Order::Greater);
    assert_eq!(trim_text(" \t x y\u{2003}\n"), "x y");
    assert_eq!(replace_all("aXbX", "X"), "aXbX".replace("X", ""));
    let v = vec!["b".to_string(), "a".to_string(), "b".to_string()];
    assert_eq!(sort_texts(&v), vec!["a".to_string(), "b".to_string(), "b".to_string()]);
}

#[test]
fn a_sorted_map_keeps_its_keys_in_order() {
    let mut m: SortedMap<String, i32> = SortedMap::new();
    assert_eq!(m.insert("b".to_string(), 2), None);
    assert_eq!(m.insert("a".to_string(), 1), None);
    assert_eq!(m.insert("b".to_string(), 3), Some(2));
    assert_eq!(m.len(), 2);
    assert_eq!(m.entry(0), (&"a".to_string(), &1));
    assert_eq!(m.get(&"b".to_string()), Some(&3));
    assert_eq!(m.find(&"aa".to_string()), Err(1));
    assert_eq!(m.remove(&"a".to_string()), Some(1));
    assert_eq!(m.remove(&"a".to_string()), None);
    assert_eq!(m.remove_at(0), ("b".to_string(), 3));
}

#[test]
fn a_table_finds_things_by_name() {
    let mut t: NameTable<i32> = NameTable::new();
    t.push("x".to_string(), 1);
    t.push("y".to_string(), 2);
    assert_eq!(t.find("x"), Some(0));
    assert_eq!(t.find("y"), Some(1));
    assert_eq!(t.find("z"), None);
    assert_eq!(t.swap(0, 5), 1);
    assert_eq!(*t.thing(0), 5);
    assert_eq!(t.name(1), "y");
    assert_eq!(t.pop(), ("y".to_string(), 2));
    assert_eq!(t.find("y"), None);
    assert_eq!(t.len(), 1);
}

#[test]
fn a_log_reads_back_what_was_appended() {
    let mut log = Log::open(Vec::new());
    let a = log.append(&Record { key: "k1".to_string(), doc: vec![1, 2] });
    let b = log.append(&Record { key: "k2".to_string(), doc: vec![] });
    assert_eq!(a, 0);
    assert_eq!(log.scan(), vec![("k1".to_string(), a), ("k2".to_string(), b)]);
    let r = log.read_at(b).unwrap_or_else(|e| panic!("{}", e.text()));
    assert_eq!(r.key, "k2");
    let r = log.read_at(a).unwrap_or_else(|e| panic!("{}", e.text()));
    assert_eq!(r.doc, vec![1, 2]);
    assert!(log.read_at(9999).is_err());
    assert!(decode_record(&[1]).is_err());
}

#[test]
fn memory_is_handed_out_once() {
    let mut arena = Arena::new(10);
    assert_eq!(arena.allocate(6).map(|s| s.len()), Some(6));
    assert!(arena.allocate(6).is_none());
    arena.reset();
    assert!(arena.allocate(10).is_some());
    let mut a = Allocator::new();
    let first = a.allocate(5);
    let second = a.allocate(3);
    assert_eq!((first, second), (0, 5));
    let mut p = Page::new(3);
    p.write(10, &[7, 8]);
    assert_eq!(p.read(9, 4), &[0, 7, 8, 0]);
}
