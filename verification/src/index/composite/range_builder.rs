//! The ranges of keys in which the documents with given values stand.
use vstd::prelude::*;

use crate::document::value::{items_view, Val, Value};
use crate::index::composite::definition::{CompositeIndexDefinition, Definition};
use crate::index::composite::key_encoder::{
    composite_key, encode_composite_key, encode_prefix, encode_value, key_bytes, key_extend, key_of, key_slice,
    prefix_bytes, value_key, KeyBuf,
};
use crate::index::secondary_index::bytes_le;
use crate::order::{byte_codes, lex, Order};

verus! {

/// A range of keys, both ends taken in.
pub struct ScanRange {
    pub start: KeyBuf,
    pub end: KeyBuf,
}

/// The key behind every key that begins with `k` and goes on with a byte below 255.
pub open spec fn upper(k: Seq<u8>) -> Seq<u8> {
    k.push(255)
}

/// Whether a key lies in a range.
pub open spec fn in_range(k: Seq<u8>, start: Seq<u8>, end: Seq<u8>) -> bool {
    bytes_le(start, k) && bytes_le(k, end)
}

/// A key lies between `p` and the key behind it exactly when it begins with `p` and goes
/// on with nothing, with a byte below 255, or with that byte alone.
pub proof fn prefix_range_exact(p: Seq<u8>, k: Seq<u8>)
    ensures
        in_range(k, p, upper(p)) <==> p.is_prefix_of(k) && (k.len() == p.len() || k[p.len() as int] < 255 || k.len()
            == p.len() + 1),
    decreases p.len(),
{
    let a = byte_codes(p);
    let b = byte_codes(k);
    let u = byte_codes(upper(p));
    if p.len() == 0 {
        assert(k.subrange(0, 0) =~= p);
        assert(p.is_prefix_of(k));
        assert(a =~= Seq::<int>::empty());
        if k.len() > 0 {
            assert(b.len() > 0 && u.len() == 1 && u[0] == 255);
            assert(lex(a, b) == Order::Less);
            if b[0] == u[0] {
                assert(u.drop_first() =~= Seq::<int>::empty());
                assert(lex(b, u) == lex(b.drop_first(), u.drop_first()));
                assert(b.drop_first().len() == k.len() - 1);
            }
        } else {
            assert(b =~= Seq::<int>::empty());
        }
    } else if k.len() == 0 {
        assert(b.len() == 0 && a.len() > 0);
        assert(lex(a, b) == Order::Greater);
    } else {
        let p1 = p.drop_first();
        let k1 = k.drop_first();
        assert(a.drop_first() =~= byte_codes(p1));
        assert(b.drop_first() =~= byte_codes(k1));
        assert(upper(p).drop_first() =~= upper(p1));
        assert(u.drop_first() =~= byte_codes(upper(p1)));
        assert(u[0] == a[0]);
        prefix_range_exact(p1, k1);
        if p[0] == k[0] {
            assert(lex(a, b) == lex(a.drop_first(), b.drop_first()));
            assert(lex(b, u) == lex(b.drop_first(), u.drop_first()));
            assert(p.is_prefix_of(k) <==> p1.is_prefix_of(k1)) by {
                if p1.is_prefix_of(k1) {
                    assert(k.subrange(0, p.len() as int) =~= p) by {
                        assert forall|i: int| 0 <= i < p.len() implies k[i] == p[i] by {
                            if i > 0 {
                                assert(k1.subrange(0, p1.len() as int)[i - 1] == p1[i - 1]);
                            }
                        }
                    }
                }
                if p.is_prefix_of(k) {
                    assert(k1.subrange(0, p1.len() as int) =~= p1) by {
                        assert forall|i: int| 0 <= i < p1.len() implies k1[i] == p1[i] by {
                            assert(k.subrange(0, p.len() as int)[i + 1] == p[i + 1]);
                        }
                    }
                }
            }
            if p1.len() < k1.len() {
                assert(k1[p1.len() as int] == k[p.len() as int]);
            }
        } else {
            assert(!p.is_prefix_of(k)) by {
                if p.is_prefix_of(k) {
                    assert(k.subrange(0, p.len() as int)[0] == p[0]);
                }
            }
        }
    }
}

/// A range that begins with a key and ends behind it is not empty.
pub proof fn prefix_range_ordered(p: Seq<u8>)
    ensures
        bytes_le(p, upper(p)),
{
    prefix_range_exact(p, upper(p));
    assert(upper(p).subrange(0, p.len() as int) =~= p);
}

/// The key of a document with the given values lies in their range, where the id is
/// shorter than 65280 bytes.
pub proof fn document_in_prefix_range(d: Definition, values: Seq<Val>, doc_id: Seq<char>)
    requires
        vstd::utf8::encode_utf8(doc_id).len() < 65280,
    ensures
        in_range(composite_key(d, values, doc_id), prefix_bytes(d, values), upper(prefix_bytes(d, values))),
{
    let p = prefix_bytes(d, values);
    let k = composite_key(d, values, doc_id);
    let n = vstd::utf8::encode_utf8(doc_id).len();
    assert(k.subrange(0, p.len() as int) =~= p);
    crate::util::fixed::be_round_trip(n, 2);
    assert(k[p.len() as int] == (n / 256) as u8) by {
        assert(k[p.len() as int] == crate::util::fixed::be_bytes(n, 2)[0]);
        assert(crate::util::fixed::be_bytes(n, 2)[0] == crate::util::fixed::be_bytes(n / 256, 1)[0]);
        assert(crate::util::fixed::be_bytes(n / 256, 1) =~= seq![(n / 256) as u8]) by {
            assert(crate::util::fixed::be_bytes(n / 256 / 256, 0) =~= Seq::<u8>::empty());
        }
    }
    prefix_range_exact(p, k);
}

/// The range of the documents with the given values.
pub fn build_prefix_range(def: &CompositeIndexDefinition, values: &Vec<Value>) -> (r: ScanRange)
    ensures
        key_bytes(r.start) == prefix_bytes(def@, items_view(values@)),
        key_bytes(r.end) == upper(prefix_bytes(def@, items_view(values@))),
{
    let start = build_prefix_key(def, values);
    let end = build_prefix_open_end(&start);
    ScanRange { start, end }
}

/// The key with which the keys of the documents with the given values begin.
pub fn build_prefix_key(def: &CompositeIndexDefinition, values: &Vec<Value>) -> (k: KeyBuf)
    ensures
        key_bytes(k) == prefix_bytes(def@, items_view(values@)),
{
    encode_prefix(def, values)
}

/// The key behind those that begin with `prefix`.
pub fn build_prefix_open_end(prefix: &KeyBuf) -> (k: KeyBuf)
    ensures
        key_bytes(k) == upper(key_bytes(*prefix)),
{
    key_with_upper_sentinel(prefix)
}

/// The key of values that are given for the first fields, and of a value of the field
/// behind them. Nothing where the index has no such field.
pub fn build_value_key(
    def: &CompositeIndexDefinition,
    eq_prefix_values: &Vec<Value>,
    range_value: &Value,
) -> (r: Option<KeyBuf>)
    ensures
        r is Some <==> eq_prefix_values@.len() < def@.columns.len(),
        r matches Some(k) ==> key_bytes(k) == prefix_bytes(def@, items_view(eq_prefix_values@)) + value_key(
            range_value@,
            def@.columns[eq_prefix_values@.len() as int].1,
        ),
{
    let at: usize = eq_prefix_values.len();
    if at >= def.fields.len() {
        return None;
    }
    let mut key = build_prefix_key(def, eq_prefix_values);
    encode_value(range_value, def.fields[at].direction, &mut key);
    Some(key)
}

/// The key behind those that begin with `key`.
pub fn key_with_upper_sentinel(key: &KeyBuf) -> (k: KeyBuf)
    ensures
        key_bytes(k) == upper(key_bytes(*key)),
{
    let mut k = key_of(key_slice(key));
    let mut tail: Vec<u8> = Vec::new();
    tail.push(255);
    key_extend(&mut k, tail.as_slice());
    proof {
        assert(key_bytes(k) =~= upper(key_bytes(*key)));
    }
    k
}

/// The key from which a scan goes on at, or behind, the given values.
pub fn build_cursor_range(def: &CompositeIndexDefinition, cursor_values: &Vec<Value>, is_after: bool) -> (k: KeyBuf)
    ensures
        key_bytes(k) == if is_after {
            upper(composite_key(def@, items_view(cursor_values@), Seq::empty()))
        } else {
            composite_key(def@, items_view(cursor_values@), Seq::empty())
        },
{
    proof {
        reveal_strlit("");
        assert(""@ =~= Seq::empty());
    }
    let key = encode_composite_key(def, cursor_values, "");
    if is_after {
        key_with_upper_sentinel(&key)
    } else {
        key
    }
}

} // verus!
