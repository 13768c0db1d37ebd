use hakodb::document::firelite_doc::FireLiteDoc;
use hakodb::document::json::{Json, JsonNumber};
use hakodb::document::json_text::{doc_to_json, FloatTexts};
use hakodb::document::value::Value;

/// A value of the library as one of the outside crate.
fn outside(j: &Json) -> serde_json::Value {
    match j {
        Json::Null => serde_json::Value::Null,
        Json::Bool(b) => serde_json::Value::Bool(*b),
        Json::Number(JsonNumber::PosInt(n)) => serde_json::Value::from(*n),
        Json::Number(JsonNumber::NegInt(n)) => serde_json::Value::from(*n),
        Json::Number(JsonNumber::Float(b)) => serde_json::Value::from(f64::from_bits(*b)),
        Json::Text(s) => serde_json::Value::String(s.clone()),
        Json::List(items) => serde_json::Value::Array(items.iter().map(outside).collect()),
        Json::Object(entries) => {
            let mut map = serde_json::Map::new();
            for (k, v) in entries {
                map.insert(k.clone(), outside(v));
            }
            serde_json::Value::Object(map)
        }
    }
}

#[test]
fn doc_to_json_matches_serde_map_output() {
    let mut doc = FireLiteDoc::default();
    doc.insert("v".to_string(), Value::Binary(vec![0u8, 1, 9, 10, 99, 100, 171, 255]));
    doc.insert("z".to_string(), Value::Int(-42));
    doc.insert("a".to_string(), Value::String("q\"\\qé".to_string()));
    doc.insert("m".to_string(), Value::Bool(true));

    let mut reference = serde_json::Map::new();
    for (k, v) in &doc.fields {
        reference.insert(k.to_string(), outside(&v.to_json()));
    }
    let expected = serde_json::to_string(&serde_json::Value::Object(reference)).unwrap();

    assert_eq!(doc_to_json(&doc, &FloatTexts::new()), expected);
    assert!(expected.contains("\"v\":[0,1,9,10,99,100,171,255]"));
}
