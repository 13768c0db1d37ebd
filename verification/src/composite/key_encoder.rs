//! The keys of composite indexes: the number of the collection, a key for each value, and
//! the id of the document.
use vstd::prelude::*;
use vstd::utf8::encode_utf8;

use crate::composite::definition::{columns, CompositeIndexDefinition, Definition, SortDirection};
use crate::document::firelite_doc::put_short_text;
use crate::document::format::short_text;
use crate::document::value::{items_view, Val, Value};
use crate::util::fixed::{be_bytes, put_be};

verus! {

/// The bytes as a direction has them: in descending order each byte is complemented.
pub open spec fn directed(direction: SortDirection, s: Seq<u8>) -> Seq<u8> {
    match direction {
        SortDirection::Asc => s,
        SortDirection::Desc => Seq::new(s.len(), |i: int| (255 - s[i]) as u8),
    }
}

/// The key of a value in a direction. Only numbers and texts have one.
pub open spec fn value_key(v: Val, direction: SortDirection) -> Seq<u8> {
    match v {
        Val::Int(i) => seq![1u8] + directed(direction, be_bytes((i as u64) as nat, 8)),
        Val::Float(bits) => seq![2u8] + directed(direction, be_bytes(bits as nat, 8)),
        Val::String(s) => seq![3u8] + be_bytes(encode_utf8(s).len(), 2) + directed(direction, encode_utf8(s)),
        _ => Seq::empty(),
    }
}

/// The keys of the first `n` values, one behind the other.
pub open spec fn values_key(values: Seq<Val>, columns: Seq<(Seq<char>, SortDirection)>, n: nat) -> Seq<u8>
    decreases n,
{
    if n == 0 {
        Seq::empty()
    } else {
        values_key(values, columns, (n - 1) as nat) + value_key(values[n - 1], columns[n - 1].1)
    }
}

/// The key of a document.
pub open spec fn composite_key(d: Definition, values: Seq<Val>, doc_id: Seq<char>) -> Seq<u8> {
    let n = if values.len() <= d.columns.len() {
        values.len()
    } else {
        d.columns.len()
    };
    be_bytes(d.collection_id as nat, 4) + values_key(values, d.columns, n) + short_text(doc_id)
}

fn put_directed(out: &mut Vec<u8>, direction: SortDirection, bytes: &[u8])
    ensures
        final(out)@ == old(out)@ + directed(direction, bytes@),
{
    let ghost d = directed(direction, bytes@);
    let mut i: usize = 0;
    while i < bytes.len()
        invariant
            i <= bytes@.len(),
            d == directed(direction, bytes@),
            out@ =~= old(out)@ + d.take(i as int),
        decreases bytes@.len() - i,
    {
        out.push(
            match direction {
                SortDirection::Asc => bytes[i],
                SortDirection::Desc => 255 - bytes[i],
            },
        );
        proof {
            assert(d.take(i + 1) =~= d.take(i as int).push(d[i as int]));
        }
        i = i + 1;
    }
    proof {
        assert(d.take(d.len() as int) =~= d);
    }
}

/// Appends the key of a value in a direction.
pub fn encode_value(value: &Value, buf: &mut Vec<u8>, direction: SortDirection)
    ensures
        final(buf)@ == old(buf)@ + value_key(value@, direction),
{
    let ghost before = buf@;
    match value {
        Value::Int(i) => {
            buf.push(1);
            let mut bytes: Vec<u8> = Vec::new();
            put_be(&mut bytes, *i as u64, 8);
            put_directed(buf, direction, bytes.as_slice());
        },
        Value::Float(bits) => {
            buf.push(2);
            let mut bytes: Vec<u8> = Vec::new();
            put_be(&mut bytes, *bits, 8);
            put_directed(buf, direction, bytes.as_slice());
        },
        Value::String(s) => {
            let bytes = s.as_str().as_bytes();
            buf.push(3);
            put_be(buf, bytes.len() as u64, 2);
            put_directed(buf, direction, bytes);
        },
        _ => {},
    }
    proof {
        assert(forall|s: Seq<u8>| Seq::<u8>::empty() + s =~= s);
        assert(buf@ =~= before + value_key(value@, direction));
    }
}

/// The key of a document.
pub fn encode_composite_key(def: &CompositeIndexDefinition, values: &Vec<Value>, doc_id: &str) -> (key: Vec<u8>)
    ensures
        key@ == composite_key(def@, items_view(values@), doc_id@),
{
    let mut key: Vec<u8> = Vec::new();
    put_be(&mut key, def.collection_id as u64, 4);
    let ghost vs = items_view(values@);
    let ghost cs = columns(def.fields@);
    let ghost start = be_bytes(def.collection_id as nat, 4);
    let mut i: usize = 0;
    proof {
        assert(key@ =~= start);
        assert(start + values_key(vs, cs, 0) =~= start);
    }
    while i < values.len() && i < def.fields.len()
        invariant
            i <= values@.len(),
            i <= def.fields@.len(),
            vs == items_view(values@),
            cs == columns(def.fields@),
            key@ == start + values_key(vs, cs, i as nat),
        decreases values@.len() - i,
    {
        encode_value(&values[i], &mut key, def.fields[i].direction);
        proof {
            assert(key@ =~= start + values_key(vs, cs, i as nat + 1));
        }
        i = i + 1;
    }
    put_short_text(&mut key, doc_id);
    key
}

} // verus!
