//! The keys under which single values are indexed.
use vstd::prelude::*;
use vstd::utf8::encode_utf8;

use crate::document::firelite_doc::put_short_text;
use crate::document::format::short_text;
use crate::document::number::{bits_of_int, signed_to_bits};
use crate::document::value::{Val, Value};
use crate::index::composite::definition::SortDirection;
use crate::index::composite::key_encoder::{int_keys_ordered, time_keys_ordered, value_key};
use crate::order::{byte_codes, lex, Order};
use crate::util::fixed::{be_bytes, be_round_trip, be_value, i64_bits, pow256_values, put_be, read_be};

verus! {

/// The key of a text: its tag, its length and its bytes.
pub open spec fn text_key(s: Seq<char>) -> Seq<u8> {
    seq![4u8] + be_bytes(encode_utf8(s).len(), 4) + encode_utf8(s)
}

/// The key of a value.
pub open spec fn scalar_key(v: Val) -> Seq<u8> {
    match v {
        Val::Null => seq![0u8],
        Val::ServerTimestamp => seq![0u8],
        Val::Bool(b) => seq![
            1u8,
            if b {
                1u8
            } else {
                0u8
            },
        ],
        Val::Int(i) => seq![2u8] + be_bytes((i as u64) as nat, 8),
        Val::Float(bits) => seq![3u8] + be_bytes(bits as nat, 8),
        Val::String(s) => text_key(s),
        Val::Binary(b) => seq![5u8] + be_bytes(b.len(), 4) + b,
        Val::Timestamp(t) => seq![6u8] + be_bytes((t as u64) as nat, 8),
        Val::Object(_) => seq![8u8],
        Val::Array(_) => seq![9u8],
        Val::Reference { collection, doc_id } => seq![10u8] + short_text(collection) + short_text(doc_id),
        Val::BlobLink { offset, len } => seq![11u8] + be_bytes(offset as nat, 8) + be_bytes(len as nat, 4),
    }
}

/// The bits of the number that a key holds, if it is the key of a number.
pub open spec fn key_number(s: Seq<u8>) -> Option<u64> {
    if s.len() < 9 {
        None
    } else if s[0] == 2 {
        Some(bits_of_int(((be_value(s.subrange(1, 9)) as u64) as i64) as int) as u64)
    } else if s[0] == 3 {
        Some(be_value(s.subrange(1, 9)) as u64)
    } else {
        None
    }
}

/// The number of an indexed number is found again in its key.
pub proof fn key_number_round_trip(v: Val)
    ensures
        v matches Val::Int(i) ==> key_number(scalar_key(v)) == Some(bits_of_int(i as int) as u64),
        v matches Val::Float(bits) ==> key_number(scalar_key(v)) == Some(bits),
{
    pow256_values();
    match v {
        Val::Int(i) => {
            be_round_trip((i as u64) as nat, 8);
            i64_bits(i, 0);
            assert(scalar_key(v).subrange(1, 9) =~= be_bytes((i as u64) as nat, 8));
        },
        Val::Float(bits) => {
            be_round_trip(bits as nat, 8);
            assert(scalar_key(v).subrange(1, 9) =~= be_bytes(bits as nat, 8));
        },
        _ => {},
    }
}

/// Integers of one sign, and times of one sign, stand in their own order in an index.
pub proof fn scalar_keys_ordered(a: i64, b: i64)
    requires
        a < b,
        a >= 0 || b < 0,
    ensures
        lex(byte_codes(scalar_key(Val::Int(a))), byte_codes(scalar_key(Val::Int(b)))) == Order::Less,
        lex(byte_codes(scalar_key(Val::Timestamp(a))), byte_codes(scalar_key(Val::Timestamp(b)))) == Order::Less,
{
    let up = SortDirection::Asc;
    let none = Seq::<u8>::empty();
    int_keys_ordered(a, b, up, none, none);
    time_keys_ordered(a, b, up, none, none);
    assert(value_key(Val::Int(a), up) + none =~= scalar_key(Val::Int(a)));
    assert(value_key(Val::Int(b), up) + none =~= scalar_key(Val::Int(b)));
    assert(value_key(Val::Timestamp(a), up) + none =~= scalar_key(Val::Timestamp(a)));
    assert(value_key(Val::Timestamp(b), up) + none =~= scalar_key(Val::Timestamp(b)));
}

/// Two values of one scalar type with the same key are the same.
pub proof fn scalar_keys_differ(a: Val, b: Val)
    requires
        scalar_key(a) == scalar_key(b),
    ensures
        (a is Int && b is Int) ==> a == b,
        (a is Float && b is Float) ==> a == b,
        (a is Timestamp && b is Timestamp) ==> a == b,
        (a is Bool && b is Bool) ==> a == b,
        (a is String && b is String) ==> a == b,
        (a is Binary && b is Binary) ==> a == b,
{
    pow256_values();
    let s = scalar_key(a);
    match (a, b) {
        (Val::Int(x), Val::Int(y)) => {
            be_round_trip((x as u64) as nat, 8);
            be_round_trip((y as u64) as nat, 8);
            i64_bits(x, 0);
            i64_bits(y, 0);
            assert(s.skip(1) =~= be_bytes((x as u64) as nat, 8));
            assert(scalar_key(b).skip(1) =~= be_bytes((y as u64) as nat, 8));
        },
        (Val::Float(x), Val::Float(y)) => {
            be_round_trip(x as nat, 8);
            be_round_trip(y as nat, 8);
            assert(s.skip(1) =~= be_bytes(x as nat, 8));
            assert(scalar_key(b).skip(1) =~= be_bytes(y as nat, 8));
        },
        (Val::Timestamp(x), Val::Timestamp(y)) => {
            be_round_trip((x as u64) as nat, 8);
            be_round_trip((y as u64) as nat, 8);
            i64_bits(x, 0);
            i64_bits(y, 0);
            assert(s.skip(1) =~= be_bytes((x as u64) as nat, 8));
            assert(scalar_key(b).skip(1) =~= be_bytes((y as u64) as nat, 8));
        },
        (Val::Bool(x), Val::Bool(y)) => {
            assert(s[1] == scalar_key(b)[1]);
        },
        (Val::String(x), Val::String(y)) => {
            be_round_trip(encode_utf8(x).len(), 4);
            be_round_trip(encode_utf8(y).len(), 4);
            assert(s.skip(5) =~= encode_utf8(x));
            assert(scalar_key(b).skip(5) =~= encode_utf8(y));
            crate::text::encode_utf8_injective(x, y);
        },
        (Val::Binary(x), Val::Binary(y)) => {
            be_round_trip(x.len(), 4);
            be_round_trip(y.len(), 4);
            assert(s.skip(5) =~= x);
            assert(scalar_key(b).skip(5) =~= y);
        },
        _ => {},
    }
}

/// The key of a value.
pub fn encode_scalar(value: &Value) -> (out: Vec<u8>)
    ensures
        out@ == scalar_key(value@),
{
    let mut out: Vec<u8> = Vec::new();
    encode_scalar_into(value, &mut out);
    proof {
        assert(Seq::<u8>::empty() + scalar_key(value@) =~= scalar_key(value@));
    }
    out
}

/// Appends the key of a value.
pub fn encode_scalar_into(value: &Value, out: &mut Vec<u8>)
    ensures
        final(out)@ == old(out)@ + scalar_key(value@),
{
    let ghost before = out@;
    match value {
        Value::Null => out.push(0),
        Value::ServerTimestamp => out.push(0),
        Value::Bool(b) => {
            out.push(1);
            out.push(
                if *b {
                    1
                } else {
                    0
                },
            );
        },
        Value::Int(i) => {
            out.push(2);
            put_be(out, *i as u64, 8);
        },
        Value::Float(bits) => {
            out.push(3);
            put_be(out, *bits, 8);
        },
        Value::String(s) => encode_str_scalar_into(s.as_str(), out),
        Value::Binary(b) => {
            out.push(5);
            put_be(out, b.len() as u64, 4);
            out.extend_from_slice(b.as_slice());
        },
        Value::Timestamp(t) => {
            out.push(6);
            put_be(out, *t as u64, 8);
        },
        Value::Object(_) => out.push(8),
        Value::Array(_) => out.push(9),
        Value::Reference { collection, doc_id } => {
            out.push(10);
            put_short_text(out, collection.as_str());
            put_short_text(out, doc_id.as_str());
        },
        Value::BlobLink { offset, len } => {
            out.push(11);
            put_be(out, *offset, 8);
            put_be(out, *len as u64, 4);
        },
    }
    proof {
        assert(out@ =~= before + scalar_key(value@));
    }
}

/// Appends the key of a text.
pub fn encode_str_scalar_into(s: &str, out: &mut Vec<u8>)
    ensures
        final(out)@ == old(out)@ + text_key(s@),
{
    let ghost before = out@;
    let bytes = s.as_bytes();
    out.push(4);
    put_be(out, bytes.len() as u64, 4);
    out.extend_from_slice(bytes);
    proof {
        assert(out@ =~= before + text_key(s@));
    }
}

/// The bits of the number that a key holds, if it is the key of a number.
pub fn decode_scalar_as_f64(bytes: &[u8]) -> (r: Option<u64>)
    ensures
        r == key_number(bytes@),
{
    if bytes.len() < 9 {
        return None;
    }
    let tag: u8 = bytes[0];
    if tag == 2 {
        Some(signed_to_bits(read_be(bytes, 1, 8) as i64))
    } else if tag == 3 {
        Some(read_be(bytes, 1, 8))
    } else {
        None
    }
}

} // verus!
