use hakodb::document::firelite_doc::{decode_value, FireLiteDoc, FireLiteDocView};
use hakodb::document::json::{Json, JsonNumber};
use hakodb::document::json_read::parse_items;
use hakodb::document::json_text::{json_to_text, FloatTexts};
use hakodb::document::number::{magnitude_of, signed_to_bits, unsigned_to_bits};
use hakodb::document::value::Value;
use hakodb::Order;

fn sample() -> FireLiteDoc {
    let mut d = FireLiteDoc::default();
    d.insert("name".to_string(), Value::String("zoë".to_string()));
    d.insert("age".to_string(), Value::Int(-30));
    d.insert("tags".to_string(), Value::Array(vec![Value::Bool(true), Value::Null]));
    d.insert("raw".to_string(), Value::Binary(vec![0, 255]));
    d.insert("at".to_string(), Value::Timestamp(1_700_000_000));
    d.insert("nest".to_string(), Value::Object(vec![("k".to_string(), Value::Int(1))]));
    d.insert(
        "link".to_string(),
        Value::Reference { collection: "users".to_string(), doc_id: "u1".to_string() },
    );
    d._time = 42;
    d
}

#[test]
fn fields_stand_in_order_and_are_found() {
    let d = sample();
    let keys: Vec<&str> = d.fields.iter().map(|f| f.0.as_str()).collect();
    assert_eq!(keys, vec!["age", "at", "link", "name", "nest", "raw", "tags"]);
    assert!(matches!(d.get("age"), Some(Value::Int(-30))));
    assert!(d.get("none").is_none());
}

#[test]
fn a_second_value_replaces_the_first() {
    let mut d = FireLiteDoc::default();
    d.insert("k".to_string(), Value::Int(1));
    d.insert("k".to_string(), Value::Int(2));
    assert_eq!(d.fields.len(), 1);
    assert!(matches!(d.get("k"), Some(Value::Int(2))));
}

#[test]
fn a_document_comes_back_from_its_bytes() {
    let d = sample();
    let bytes = d.encode();
    assert_eq!(bytes[0], 0xF1);
    assert_eq!(bytes[1], 5);
    let back = FireLiteDoc::decode(&bytes).unwrap();
    assert_eq!(back._time, 42);
    assert_eq!(format!("{:?}", back.fields), format!("{:?}", d.fields));
}

#[test]
fn bytes_without_the_header_are_no_document() {
    let mut bytes = sample().encode();
    bytes[0] = 0;
    assert!(FireLiteDoc::decode(&bytes).is_none());
    assert!(FireLiteDocView::new(&bytes).is_none());
    assert!(FireLiteDoc::decode(&[0xF1, 5]).is_none());
}

#[test]
fn a_projection_holds_the_fields_that_were_asked_for() {
    let bytes = sample().encode();
    let d = FireLiteDoc::decode_projected(&bytes, &vec!["age".to_string(), "none".to_string()]).unwrap();
    assert_eq!(d.fields.len(), 1);
    assert!(matches!(d.get("age"), Some(Value::Int(-30))));
    assert_eq!(d._time, 42);
}

#[test]
fn a_view_walks_the_fields() {
    let d = sample();
    let bytes = d.encode();
    let view = FireLiteDocView::new(&bytes).unwrap();
    assert_eq!(view._time, 42);
    let mut it = view.iter();
    let mut seen = Vec::new();
    while let Some((k, tag, data)) = it.next() {
        seen.push(k.clone());
        if k == "age" {
            assert!(matches!(decode_value(tag, data), Some(Value::Int(-30))));
        }
    }
    assert_eq!(seen.len(), 7);
    assert_eq!(seen[0], "age");
}

#[test]
fn text_that_is_no_utf8_is_no_value() {
    let mut d = FireLiteDoc::default();
    d.insert("k".to_string(), Value::String("ab".to_string()));
    let mut bytes = d.encode();
    let n = bytes.len();
    bytes[n - 1] = 0xFF;
    let back = FireLiteDoc::decode(&bytes);
    let lost = match &back {
        None => true,
        Some(b) => !matches!(b.get("k"), Some(Value::String(_))),
    };
    assert!(lost);
}

#[test]
fn values_of_one_kind_compare_by_what_they_hold() {
    assert_eq!(Value::Int(1).compare(&Value::Int(2)), Order::Less);
    assert_eq!(Value::Int(2).compare(&Value::Int(1)), Order::Greater);
    assert_eq!(Value::String("b".to_string()).compare(&Value::String("a".to_string())), Order::Greater);
    assert_eq!(Value::Bool(true).compare(&Value::Bool(true)), Order::Equal);
    assert!(Value::Int(3).equals(&Value::Int(3)));
    assert!(!Value::Int(3).equals(&Value::Bool(true)));
}

#[test]
fn values_are_equal_where_neither_is_above_the_other() {
    let values = vec![
        Value::Null,
        Value::Bool(false),
        Value::Int(0),
        Value::Float(0.0f64.to_bits()),
        Value::Float((-0.0f64).to_bits()),
        Value::Float(f64::NAN.to_bits()),
        Value::String("a".to_string()),
        Value::Binary(vec![]),
        Value::Binary(vec![1]),
        Value::BlobLink { offset: 1, len: 2 },
        Value::Reference { collection: "c".to_string(), doc_id: "d".to_string() },
        Value::Timestamp(5),
        Value::ServerTimestamp,
        Value::Object(vec![("k".to_string(), Value::Binary(vec![1]))]),
        Value::Array(vec![Value::Int(1), Value::Array(vec![])]),
    ];
    for a in values.iter() {
        assert!(a == a);
        for b in values.iter() {
            assert_eq!(a == b, a.compare(b) == Order::Equal);
        }
    }
    assert!(Value::Int(0) == Value::Float(0.0f64.to_bits()));
    assert!(Value::Int(0) != Value::Float((-0.0f64).to_bits()));
    assert!(Value::Array(vec![Value::Int(1)]) != Value::Array(vec![Value::Int(2)]));
}

#[test]
fn numbers_keep_their_value_as_bits() {
    assert_eq!(unsigned_to_bits(1), 1.0f64.to_bits());
    assert_eq!(unsigned_to_bits(u64::MAX), (u64::MAX as f64).to_bits());
    assert_eq!(unsigned_to_bits(9_007_199_254_740_993), (9_007_199_254_740_993u64 as f64).to_bits());
    assert_eq!(signed_to_bits(-7), (-7.0f64).to_bits());
    assert_eq!(signed_to_bits(i64::MIN), (i64::MIN as f64).to_bits());
    assert_eq!(magnitude_of((-2.5f64).to_bits()), 2.5f64.to_bits());
}

#[test]
fn a_reference_comes_back_from_json() {
    let v = Value::Reference { collection: "users".to_string(), doc_id: "a/b".to_string() };
    match v.to_json() {
        Json::Object(entries) => {
            assert_eq!(entries[0].0, "__ref__");
            assert!(matches!(&entries[0].1, Json::Text(s) if s == "users/a/b"));
        }
        _ => panic!("no object"),
    }
    match Value::from_json(&v.to_json()) {
        Ok(Value::Reference { collection, doc_id }) => {
            assert_eq!(collection, "users");
            assert_eq!(doc_id, "a/b");
        }
        _ => panic!("no reference"),
    }
}

#[test]
fn a_blob_link_comes_back_from_json() {
    let v = Value::BlobLink { offset: 77, len: 5 };
    assert!(matches!(Value::from_json(&v.to_json()), Ok(Value::BlobLink { offset: 77, len: 5 })));
}

#[test]
fn a_document_as_json_has_its_time_and_its_id() {
    let mut d = FireLiteDoc::default();
    d.insert("b".to_string(), Value::Int(-1));
    d._time = 9;
    let text = json_to_text(&d.to_json_with_id("x"), &FloatTexts::new());
    assert_eq!(text, "{\"_time\":9,\"b\":-1,\"id\":\"x\"}");
}

#[test]
fn json_texts_are_those_of_the_outside_crate() {
    let mut floats = FloatTexts::new();
    floats.insert(1.5f64.to_bits(), "1.5".to_string());
    let j = Json::List(vec![
        Json::Null,
        Json::Bool(false),
        Json::Number(JsonNumber::PosInt(u64::MAX)),
        Json::Number(JsonNumber::NegInt(i64::MIN)),
        Json::Number(JsonNumber::Float(1.5f64.to_bits())),
        Json::Text("tab\there \u{1} \"q\"".to_string()),
        Json::Object(vec![("a".to_string(), Json::List(vec![])), ("b".to_string(), Json::Object(vec![]))]),
    ]);
    let text = json_to_text(&j, &floats);
    assert_eq!(
        text,
        "[null,false,18446744073709551615,-9223372036854775808,1.5,\"tab\\there \\u0001 \\\"q\\\"\",{\"a\":[],\"b\":{}}]"
    );
    let back: serde_json::Value = serde_json::from_str(&text).unwrap();
    assert_eq!(serde_json::to_string(&back).unwrap(), text);
}

#[test]
fn a_number_without_a_text_is_null() {
    let j = Json::Number(JsonNumber::Float(f64::NAN.to_bits()));
    assert_eq!(json_to_text(&j, &FloatTexts::new()), "null");
}

#[test]
fn what_was_read_from_a_long_form_is_read_again() {
    let mut bytes: Vec<u8> = vec![0xF1, 5, 42, 0, 0, 0, 0, 0, 0, 0, 1, 0];
    // A number below 16 behind a tag and a length, with a group of seven bits too many.
    bytes.extend_from_slice(&[1, b'n', 3, 2, 0, 0, 0, 0x8A, 0x00]);
    let d = FireLiteDoc::decode(&bytes).unwrap();
    assert!(matches!(d.get("n"), Some(Value::Int(5))));
    let again = d.encode();
    assert!(again.len() < bytes.len());
    let e = FireLiteDoc::decode(&again).unwrap();
    assert!(matches!(e.get("n"), Some(Value::Int(5))));
    assert_eq!(e._time, 42);
    assert_eq!(e.encode(), again);
}

fn jumbled() -> FireLiteDoc {
    FireLiteDoc {
        fields: vec![
            ("b".to_string(), Value::Int(1)),
            ("c".to_string(), Value::Int(2)),
            ("a".to_string(), Value::Int(3)),
            ("b".to_string(), Value::Int(4)),
        ],
        _time: 7,
    }
}

#[test]
fn fields_are_kept_as_they_came() {
    let d = jumbled();
    let bytes = d.encode();
    let read = FireLiteDoc::decode(&bytes).unwrap();
    assert_eq!(read._time, 7);
    assert_eq!(format!("{:?}", read.fields), r#"[("b", Int(1)), ("c", Int(2)), ("a", Int(3)), ("b", Int(4))]"#);
    assert_eq!(read.encode(), bytes);
    assert!(d.get("d").is_none());
    // What a search finds among fields out of order is one of them.
    for key in ["a", "b", "c"] {
        if let Some(v) = d.get(key) {
            assert!(d.fields.iter().any(|f| f.0 == key && &f.1 == v));
        }
    }
}

#[test]
fn every_key_of_a_document_in_order_is_found() {
    let mut d = FireLiteDoc::default();
    for n in 0..40 {
        assert!(d.get(&format!("k{:02}", 2 * n + 1)).is_none());
        d.insert(format!("k{:02}", 2 * n), Value::Int(n));
        for m in 0..=n {
            assert!(matches!(d.get(&format!("k{:02}", 2 * m)), Some(Value::Int(i)) if *i == m));
            assert!(d.get(&format!("k{:02}", 2 * m + 1)).is_none());
        }
    }
}

#[test]
fn a_search_by_halves_goes_as_that_of_a_slice() {
    let names = ["a", "b", "c", "d"];
    for len in 0..7u32 {
        for code in 0..4u32.pow(len) {
            let fields: Vec<(String, Value)> = (0..len)
                .map(|i| (names[(code / 4u32.pow(i) % 4) as usize].to_string(), Value::Int(i as i64)))
                .collect();
            let d = FireLiteDoc { fields: fields.clone(), _time: 0 };
            for key in ["0", "a", "b", "c", "d", "e"] {
                let expected = fields.binary_search_by(|f| f.0.as_str().cmp(key)).ok().map(|i| &fields[i].1);
                assert_eq!(d.get(key), expected);
                let mut e = d.clone();
                e.insert(key.to_string(), Value::Null);
                let mut f = fields.clone();
                match f.binary_search_by(|f| f.0.as_str().cmp(key)) {
                    Ok(i) => f[i].1 = Value::Null,
                    Err(i) => f.insert(i, (key.to_string(), Value::Null)),
                }
                assert_eq!(e.fields, f);
            }
        }
    }
}

#[test]
fn a_view_walks_over_the_fields_as_they_were_written() {
    for d in [sample(), jumbled()] {
        let bytes = d.encode();
        let view = FireLiteDocView::new(&bytes).unwrap();
        for _ in 0..2 {
            let mut it = view.iter();
            for (key, value) in d.fields.iter() {
                let (k, tag, data) = it.next().unwrap();
                assert_eq!(&k, key);
                let mut expected = Vec::new();
                FireLiteDoc::encode_value_to(value, &mut expected);
                assert_eq!([&[tag], data].concat(), expected);
                assert_eq!(decode_value(tag, data).as_ref(), Some(value));
            }
            assert!(it.next().is_none());
        }
    }
}

#[test]
fn texts_are_quoted_with_what_must_be_escaped() {
    let text = "a\"b\\c\u{8}\t\n\u{c}\r\u{0}\u{1f}\u{7f}é/";
    let quoted = json_to_text(&Json::Text(text.to_string()), &FloatTexts::new());
    assert_eq!(quoted, "\"a\\\"b\\\\c\\b\\t\\n\\f\\r\\u0000\\u001f\u{7f}é/\"");
}

#[test]
fn a_view_gives_the_time_of_its_document() {
    let bytes = sample().encode();
    assert_eq!(FireLiteDocView::new(&bytes).unwrap()._time, 42);
}

#[test]
fn a_json_list_is_read() {
    let text = "[null, true, 5, -6, 1.5, \"x\\n\", [[]], {\"b\": 1, \"a\": {\"c\": 18446744073709551615}, \"b\": 2}]";
    let items = parse_items(text).unwrap();
    assert_eq!(items.len(), 8);
    assert!(matches!(items[0], Json::Null));
    assert!(matches!(items[1], Json::Bool(true)));
    assert!(matches!(items[2], Json::Number(JsonNumber::PosInt(5))));
    assert!(matches!(items[3], Json::Number(JsonNumber::NegInt(-6))));
    assert!(matches!(items[4], Json::Number(JsonNumber::Float(n)) if n == 1.5f64.to_bits()));
    assert!(matches!(&items[5], Json::Text(s) if s == "x\n"));
    let floats = FloatTexts::new();
    assert_eq!(json_to_text(&items[6], &floats), "[[]]");
    // The last of equal keys counts, and the entries ascend.
    assert_eq!(json_to_text(&items[7], &floats), "{\"a\":{\"c\":18446744073709551615},\"b\":2}");
    assert!(parse_items("{}").is_none());
    assert!(parse_items("[1,]").is_none());
    assert!(parse_items(&("[".repeat(200) + &"]".repeat(200))).is_none());
    assert!(parse_items("[]").unwrap().is_empty());
}
