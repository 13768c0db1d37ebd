//! The binary form of values and of the documents that hold them.
//!
//! A value is a tag and what follows it. Small values stand in the tag alone, or in
//! the tag and a few bytes; every other value has a length of four bytes and a body.
use vstd::prelude::*;
use vstd::utf8::{decode_utf8, encode_utf8, valid_utf8};

use crate::document::value::Val;
use crate::util::fixed::{le_bytes, le_round_trip, le_value, pow256, pow256_values};
use crate::util::varint::{unzigzag, varint, varint_read, varint_round_trip, zigzag, zigzag_round_trip};

verus! {

/// A tag, the length of the body, and the body.
pub open spec fn tagged(tag: u8, body: Seq<u8>) -> Seq<u8> {
    seq![tag] + le_bytes(body.len(), 4) + body
}

/// A text behind the low byte of its length.
pub open spec fn short_text(s: Seq<char>) -> Seq<u8> {
    seq![(encode_utf8(s).len() % 256) as u8] + encode_utf8(s)
}

/// The bytes of a value.
pub open spec fn value_bytes(v: Val) -> Seq<u8>
    decreases v,
{
    match v {
        Val::Null => seq![0xC0u8],
        Val::ServerTimestamp => seq![0xC1u8],
        Val::Bool(true) => seq![0xC2u8],
        Val::Bool(false) => seq![0xC3u8],
        Val::Int(i) => if 0 <= i <= 15 {
            seq![(0x10 + i) as u8]
        } else {
            tagged(3, varint(zigzag(i) as nat))
        },
        Val::Float(bits) => tagged(4, le_bytes(bits as nat, 8)),
        Val::String(s) => if encode_utf8(s).len() <= 7 {
            seq![(0x40 + encode_utf8(s).len()) as u8] + encode_utf8(s)
        } else {
            tagged(5, encode_utf8(s))
        },
        Val::Binary(b) => tagged(6, b),
        Val::Timestamp(t) => tagged(7, varint(zigzag(t) as nat)),
        Val::Object(fields) => tagged(8, le_bytes(fields.len(), 2) + fields_bytes(fields)),
        Val::Array(items) => tagged(9, le_bytes(items.len(), 4) + items_bytes(items)),
        Val::Reference { collection, doc_id } => tagged(10, short_text(collection) + short_text(doc_id)),
        Val::BlobLink { offset, len } => tagged(11, le_bytes(offset as nat, 8) + le_bytes(len as nat, 4)),
    }
}

/// The bytes of fields: each its key and its value.
pub open spec fn fields_bytes(fields: Seq<(Seq<char>, Val)>) -> Seq<u8>
    decreases fields,
{
    if fields.len() == 0 {
        Seq::empty()
    } else {
        fields_bytes(fields.drop_last()) + short_text(fields.last().0) + value_bytes(fields.last().1)
    }
}

/// The bytes of values, one behind the other.
pub open spec fn items_bytes(items: Seq<Val>) -> Seq<u8>
    decreases items,
{
    if items.len() == 0 {
        Seq::empty()
    } else {
        items_bytes(items.drop_last()) + value_bytes(items.last())
    }
}

/// How many bytes belong to a value behind its tag, `rest` being what follows the tag.
pub open spec fn value_len(tag: u8, rest: Seq<u8>) -> Option<nat> {
    if 0xC0 <= tag <= 0xC3 || 0x10 <= tag <= 0x1F {
        Some(0)
    } else if 0x40 <= tag <= 0x47 {
        if (tag - 0x40) as nat <= rest.len() {
            Some((tag - 0x40) as nat)
        } else {
            None
        }
    } else if 3 <= tag <= 11 {
        if rest.len() < 4 || 4 + le_value(rest.take(4)) > rest.len() {
            None
        } else {
            Some(4 + le_value(rest.take(4)))
        }
    } else {
        None
    }
}

/// The text behind a byte that gives its length, and how many bytes it took.
pub open spec fn parse_short_text(s: Seq<u8>) -> Option<(Seq<char>, nat)> {
    if s.len() == 0 || s.len() < 1 + s[0] || !valid_utf8(s.subrange(1, 1 + s[0])) {
        None
    } else {
        Some((decode_utf8(s.subrange(1, 1 + s[0])), (1 + s[0]) as nat))
    }
}

/// The field at the start of `s`: its key, the tag and the data of its value, and how
/// many bytes it took.
pub open spec fn parse_field(s: Seq<u8>) -> Option<(Seq<char>, u8, Seq<u8>, nat)> {
    match parse_short_text(s) {
        None => None,
        Some((key, k)) => if s.len() <= k {
            None
        } else {
            match value_len(s[k as int], s.skip(k as int + 1)) {
                None => None,
                Some(n) => Some((key, s[k as int], s.subrange(k as int + 1, k as int + 1 + n as int), k + 1 + n)),
            }
        },
    }
}

/// A parsed field is longer than its data.
pub proof fn parse_field_bounds(s: Seq<u8>)
    ensures
        match parse_field(s) {
            None => true,
            Some((_, _, data, n)) => data.len() + 2 <= n <= s.len(),
        },
{
}

/// The value that a tag and its data hold.
pub open spec fn decode_val(tag: u8, data: Seq<u8>) -> Option<Val>
    decreases data.len(), 1nat,
{
    if tag == 0xC0 {
        Some(Val::Null)
    } else if tag == 0xC1 {
        Some(Val::ServerTimestamp)
    } else if tag == 0xC2 {
        Some(Val::Bool(true))
    } else if tag == 0xC3 {
        Some(Val::Bool(false))
    } else if 0x10 <= tag <= 0x1F {
        Some(Val::Int((tag - 0x10) as i64))
    } else if 0x40 <= tag <= 0x47 {
        decode_text(data, (tag - 0x40) as nat)
    } else if tag == 3 || tag == 7 {
        if data.len() < 4 {
            None
        } else {
            match varint_read(data.skip(4)) {
                None => None,
                Some((u, _)) => Some(
                    if tag == 3 {
                        Val::Int(unzigzag(u))
                    } else {
                        Val::Timestamp(unzigzag(u))
                    },
                ),
            }
        }
    } else if tag == 4 {
        if data.len() < 12 {
            None
        } else {
            Some(Val::Float(le_value(data.subrange(4, 12)) as u64))
        }
    } else if tag == 5 {
        if data.len() < 4 {
            None
        } else {
            decode_text(data.skip(4), le_value(data.take(4)))
        }
    } else if tag == 6 {
        if data.len() < 4 || data.len() < 4 + le_value(data.take(4)) {
            None
        } else {
            Some(Val::Binary(data.subrange(4, 4 + le_value(data.take(4)) as int)))
        }
    } else if tag == 8 {
        if data.len() < 6 {
            None
        } else {
            match decode_fields(data.skip(6), le_value(data.subrange(4, 6))) {
                None => None,
                Some(fields) => Some(Val::Object(fields)),
            }
        }
    } else if tag == 9 {
        if data.len() < 8 {
            None
        } else {
            match decode_items(data.skip(8), le_value(data.subrange(4, 8))) {
                None => None,
                Some(items) => Some(Val::Array(items)),
            }
        }
    } else if tag == 10 {
        if data.len() < 4 {
            None
        } else {
            match parse_short_text(data.skip(4)) {
                None => None,
                Some((collection, k)) => match parse_short_text(data.skip(4 + k as int)) {
                    None => None,
                    Some((doc_id, _)) => Some(Val::Reference { collection, doc_id }),
                },
            }
        }
    } else if tag == 11 {
        if data.len() < 16 {
            None
        } else {
            Some(
                Val::BlobLink {
                    offset: le_value(data.subrange(4, 12)) as u64,
                    len: le_value(data.subrange(12, 16)) as u32,
                },
            )
        }
    } else {
        Some(Val::Null)
    }
}

/// The text in the first `n` bytes.
pub open spec fn decode_text(data: Seq<u8>, n: nat) -> Option<Val> {
    if data.len() < n || !valid_utf8(data.take(n as int)) {
        None
    } else {
        Some(Val::String(decode_utf8(data.take(n as int))))
    }
}

/// The `count` fields at the start of `s`; nothing where one of them is broken.
pub open spec fn decode_fields(s: Seq<u8>, count: nat) -> Option<Seq<(Seq<char>, Val)>>
    decreases s.len(), 0nat,
    via decode_fields_ends
{
    if count == 0 {
        Some(Seq::empty())
    } else {
        match parse_field(s) {
            None => None,
            Some((key, tag, data, n)) => match decode_val(tag, data) {
                None => None,
                Some(v) => match decode_fields(s.skip(n as int), (count - 1) as nat) {
                    None => None,
                    Some(rest) => Some(seq![(key, v)] + rest),
                },
            },
        }
    }
}

#[via_fn]
proof fn decode_fields_ends(s: Seq<u8>, count: nat) {
    parse_field_bounds(s);
}

/// The `count` values at the start of `s`; nothing where one of them is broken.
pub open spec fn decode_items(s: Seq<u8>, count: nat) -> Option<Seq<Val>>
    decreases s.len(), 0nat,
{
    if count == 0 {
        Some(Seq::empty())
    } else if s.len() == 0 {
        None
    } else {
        match value_len(s[0], s.skip(1)) {
            None => None,
            Some(n) => match decode_val(s[0], s.subrange(1, 1 + n as int)) {
                None => None,
                Some(v) => match decode_items(s.skip(1 + n as int), (count - 1) as nat) {
                    None => None,
                    Some(rest) => Some(seq![v] + rest),
                },
            },
        }
    }
}

/// Whether a projection keeps a key. An empty one keeps every key.
pub open spec fn keeps(projection: Seq<Seq<char>>, key: Seq<char>) -> bool {
    projection.len() == 0 || projection.contains(key)
}

/// The fields of a document that a projection keeps, out of `count` fields, or out of
/// those before the first one that does not parse; nothing where the value of a kept
/// field is broken.
pub open spec fn decode_doc_fields(
    s: Seq<u8>,
    count: nat,
    projection: Seq<Seq<char>>,
) -> Option<Seq<(Seq<char>, Val)>>
    decreases count,
{
    if count == 0 {
        Some(Seq::empty())
    } else {
        match parse_field(s) {
            None => Some(Seq::empty()),
            Some((key, tag, data, n)) => if !keeps(projection, key) {
                decode_doc_fields(s.skip(n as int), (count - 1) as nat, projection)
            } else {
                match decode_val(tag, data) {
                    None => None,
                    Some(v) => match decode_doc_fields(s.skip(n as int), (count - 1) as nat, projection) {
                        None => None,
                        Some(rest) => Some(seq![(key, v)] + rest),
                    },
                }
            },
        }
    }
}

/// Whether the lengths inside a value fit the room that the form has for them.
pub open spec fn fits(v: Val) -> bool
    decreases v,
{
    match v {
        Val::String(s) => encode_utf8(s).len() < pow256(4),
        Val::Binary(b) => b.len() < pow256(4),
        Val::Reference { collection, doc_id } => encode_utf8(collection).len() < 256 && encode_utf8(doc_id).len() < 256,
        Val::Object(fields) => {
            &&& fields.len() < pow256(2)
            &&& 2 + fields_bytes(fields).len() < pow256(4)
            &&& forall|i: int| 0 <= i < fields.len() ==> field_fits(#[trigger] fields[i])
        },
        Val::Array(items) => {
            &&& items.len() < pow256(4)
            &&& 4 + items_bytes(items).len() < pow256(4)
            &&& forall|i: int| 0 <= i < items.len() ==> fits(#[trigger] items[i])
        },
        _ => true,
    }
}

/// Whether the lengths inside a field fit.
pub open spec fn field_fits(field: (Seq<char>, Val)) -> bool
    decreases field,
{
    encode_utf8(field.0).len() < 256 && fits(field.1)
}

/// The parts of a tagged value.
proof fn tagged_parts(tag: u8, body: Seq<u8>, tail: Seq<u8>)
    requires
        body.len() < pow256(4),
        3 <= tag <= 11,
    ensures
        tagged(tag, body).len() == 5 + body.len(),
        tagged(tag, body)[0] == tag,
        tagged(tag, body).skip(1).len() == 4 + body.len(),
        tagged(tag, body).skip(1).skip(4) == body,
        tagged(tag, body).skip(1).take(4) == le_bytes(body.len(), 4),
        le_value(tagged(tag, body).skip(1).take(4)) == body.len(),
        value_len(tag, tagged(tag, body).skip(1) + tail) == Some(4 + body.len()),
{
    let b = tagged(tag, body);
    le_round_trip(body.len(), 4);
    assert(b.skip(1) =~= le_bytes(body.len(), 4) + body);
    assert(b.skip(1).skip(4) =~= body);
    assert(b.skip(1).take(4) =~= le_bytes(body.len(), 4));
    assert((b.skip(1) + tail).take(4) =~= le_bytes(body.len(), 4));
}

/// A short text is read back, whatever follows it.
proof fn short_text_reads_back(s: Seq<char>, tail: Seq<u8>)
    requires
        encode_utf8(s).len() < 256,
    ensures
        parse_short_text(short_text(s) + tail) == Some((s, short_text(s).len())),
        short_text(s).len() == 1 + encode_utf8(s).len(),
{
    let b = short_text(s) + tail;
    let u = encode_utf8(s);
    vstd::utf8::encode_utf8_valid_utf8(s);
    vstd::utf8::encode_utf8_decode_utf8(s);
    assert(b[0] == u.len());
    assert(b.subrange(1, 1 + b[0]) =~= u);
}

/// The bytes of fields begin with those of the first field.
pub proof fn fields_bytes_front(fields: Seq<(Seq<char>, Val)>)
    requires
        fields.len() > 0,
    ensures
        fields_bytes(fields) == short_text(fields[0].0) + value_bytes(fields[0].1) + fields_bytes(fields.drop_first()),
    decreases fields.len(),
{
    if fields.len() == 1 {
        assert(fields.drop_last() =~= Seq::empty());
        assert(fields.drop_first() =~= Seq::empty());
        assert(fields_bytes(fields) =~= short_text(fields[0].0) + value_bytes(fields[0].1) + fields_bytes(
            fields.drop_first(),
        ));
    } else {
        fields_bytes_front(fields.drop_last());
        assert(fields.drop_last().drop_first() =~= fields.drop_first().drop_last());
        assert(fields_bytes(fields) =~= short_text(fields[0].0) + value_bytes(fields[0].1) + fields_bytes(
            fields.drop_first(),
        ));
    }
}

/// The bytes of values begin with those of the first value.
pub proof fn items_bytes_front(items: Seq<Val>)
    requires
        items.len() > 0,
    ensures
        items_bytes(items) == value_bytes(items[0]) + items_bytes(items.drop_first()),
    decreases items.len(),
{
    if items.len() == 1 {
        assert(items.drop_last() =~= Seq::empty());
        assert(items.drop_first() =~= Seq::empty());
        assert(items_bytes(items) =~= value_bytes(items[0]) + items_bytes(items.drop_first()));
    } else {
        items_bytes_front(items.drop_last());
        assert(items.drop_last().drop_first() =~= items.drop_first().drop_last());
        assert(items_bytes(items) =~= value_bytes(items[0]) + items_bytes(items.drop_first()));
    }
}

/// A value whose lengths fit is read back from its bytes, whatever follows them.
pub proof fn value_reads_back(v: Val, tail: Seq<u8>)
    requires
        fits(v),
    ensures
        value_bytes(v).len() >= 1,
        value_len(value_bytes(v)[0], value_bytes(v).skip(1) + tail) == Some((value_bytes(v).len() - 1) as nat),
        decode_val(value_bytes(v)[0], value_bytes(v).skip(1)) == Some(v),
    decreases v,
{
    let b = value_bytes(v);
    let data = b.skip(1);
    pow256_values();
    match v {
        Val::Int(i) => {
            if !(0 <= i <= 15) {
                varint_round_trip(zigzag(i), Seq::empty());
                zigzag_round_trip(i);
                let body = varint(zigzag(i) as nat);
                tagged_parts(3, body, tail);
                assert(data.skip(4) =~= body + Seq::empty());
            }
        },
        Val::Timestamp(t) => {
            varint_round_trip(zigzag(t), Seq::empty());
            zigzag_round_trip(t);
            let body = varint(zigzag(t) as nat);
            tagged_parts(7, body, tail);
            assert(data.skip(4) =~= body + Seq::empty());
        },
        Val::Float(bits) => {
            let body = le_bytes(bits as nat, 8);
            le_round_trip(bits as nat, 8);
            tagged_parts(4, body, tail);
            assert(data.subrange(4, 12) =~= data.skip(4));
        },
        Val::String(s) => {
            let u = encode_utf8(s);
            vstd::utf8::encode_utf8_valid_utf8(s);
            vstd::utf8::encode_utf8_decode_utf8(s);
            if u.len() <= 7 {
                assert(data =~= u);
                assert(data.take(u.len() as int) =~= u);
            } else {
                tagged_parts(5, u, tail);
                assert(data.skip(4).take(u.len() as int) =~= u);
            }
        },
        Val::Binary(body) => {
            tagged_parts(6, body, tail);
            assert(data.subrange(4, 4 + body.len() as int) =~= data.skip(4));
        },
        Val::Object(fields) => {
            let body = le_bytes(fields.len(), 2) + fields_bytes(fields);
            le_round_trip(fields.len(), 2);
            tagged_parts(8, body, tail);
            assert(data.subrange(4, 6) =~= le_bytes(fields.len(), 2)) by {
                assert(data.skip(4).take(2) =~= le_bytes(fields.len(), 2));
                assert(data.skip(4).take(2) =~= data.subrange(4, 6));
            }
            assert(data.skip(6) =~= fields_bytes(fields)) by {
                assert(data.skip(6) =~= data.skip(4).skip(2));
                assert(body.skip(2) =~= fields_bytes(fields));
            }
            fields_read_back(fields);
        },
        Val::Array(items) => {
            let body = le_bytes(items.len(), 4) + items_bytes(items);
            le_round_trip(items.len(), 4);
            tagged_parts(9, body, tail);
            assert(data.subrange(4, 8) =~= le_bytes(items.len(), 4)) by {
                assert(data.skip(4).take(4) =~= le_bytes(items.len(), 4));
                assert(data.skip(4).take(4) =~= data.subrange(4, 8));
            }
            assert(data.skip(8) =~= items_bytes(items)) by {
                assert(data.skip(8) =~= data.skip(4).skip(4));
                assert(body.skip(4) =~= items_bytes(items));
            }
            items_read_back(items);
        },
        Val::Reference { collection, doc_id } => {
            let body = short_text(collection) + short_text(doc_id);
            short_text_reads_back(collection, short_text(doc_id));
            short_text_reads_back(doc_id, Seq::empty());
            tagged_parts(10, body, tail);
            let k = short_text(collection).len();
            assert(data.skip(4 + k as int) =~= short_text(doc_id) + Seq::empty()) by {
                assert(data.skip(4 + k as int) =~= data.skip(4).skip(k as int));
            }
        },
        Val::BlobLink { offset, len } => {
            let body = le_bytes(offset as nat, 8) + le_bytes(len as nat, 4);
            le_round_trip(offset as nat, 8);
            le_round_trip(len as nat, 4);
            tagged_parts(11, body, tail);
            assert(data.subrange(4, 12) =~= le_bytes(offset as nat, 8)) by {
                assert(data.subrange(4, 12) =~= data.skip(4).take(8));
                assert(body.take(8) =~= le_bytes(offset as nat, 8));
            }
            assert(data.subrange(12, 16) =~= le_bytes(len as nat, 4)) by {
                assert(data.subrange(12, 16) =~= data.skip(4).skip(8));
                assert(body.skip(8) =~= le_bytes(len as nat, 4));
            }
        },
        _ => {},
    }
}

/// A value whose outer length fits is stepped over, whatever follows it and whatever stands
/// inside it.
pub proof fn value_is_stepped_over(v: Val, tail: Seq<u8>)
    requires
        value_bytes(v).len() < 5 + pow256(4),
    ensures
        value_bytes(v).len() >= 1,
        value_len(value_bytes(v)[0], value_bytes(v).skip(1) + tail) == Some((value_bytes(v).len() - 1) as nat),
{
    match v {
        Val::Int(i) => if !(0 <= i <= 15) {
            tagged_steps(3, varint(zigzag(i) as nat), tail);
        },
        Val::Timestamp(t) => {
            tagged_steps(7, varint(zigzag(t) as nat), tail);
        },
        Val::Float(bits) => {
            tagged_steps(4, le_bytes(bits as nat, 8), tail);
        },
        Val::String(s) => {
            if encode_utf8(s).len() <= 7 {
                assert(value_bytes(v).skip(1) =~= encode_utf8(s));
            } else {
                tagged_steps(5, encode_utf8(s), tail);
            }
        },
        Val::Binary(body) => {
            tagged_steps(6, body, tail);
        },
        Val::Object(fields) => {
            tagged_steps(8, le_bytes(fields.len(), 2) + fields_bytes(fields), tail);
        },
        Val::Array(items) => {
            tagged_steps(9, le_bytes(items.len(), 4) + items_bytes(items), tail);
        },
        Val::Reference { collection, doc_id } => {
            tagged_steps(10, short_text(collection) + short_text(doc_id), tail);
        },
        Val::BlobLink { offset, len } => {
            tagged_steps(11, le_bytes(offset as nat, 8) + le_bytes(len as nat, 4), tail);
        },
        _ => {},
    }
}

/// A tagged value whose length fits is stepped over.
proof fn tagged_steps(tag: u8, body: Seq<u8>, tail: Seq<u8>)
    requires
        tagged(tag, body).len() < 5 + pow256(4),
        3 <= tag <= 11,
    ensures
        tagged(tag, body).len() == 5 + body.len(),
        value_len(tag, tagged(tag, body).skip(1) + tail) == Some((tagged(tag, body).len() - 1) as nat),
{
    le_round_trip(body.len(), 4);
    assert(tagged(tag, body).len() == 5 + body.len());
    tagged_parts(tag, body, tail);
}

/// What a walk over fields gives of each: its key, and the tag and the data of its value. It
/// ends behind `count` fields, or at one that does not parse.
pub open spec fn walk(s: Seq<u8>, count: nat) -> Seq<(Seq<char>, u8, Seq<u8>)>
    decreases count,
{
    if count == 0 {
        Seq::empty()
    } else {
        match parse_field(s) {
            None => Seq::empty(),
            Some((key, tag, data, n)) => seq![(key, tag, data)] + walk(s.skip(n as int), (count - 1) as nat),
        }
    }
}

/// Fields as a walk gives them: the first byte of a value is its tag, the others are its data.
pub open spec fn walked(fields: Seq<(Seq<char>, Val)>) -> Seq<(Seq<char>, u8, Seq<u8>)> {
    Seq::new(
        fields.len(),
        |i: int| (fields[i].0, value_bytes(fields[i].1)[0], value_bytes(fields[i].1).skip(1)),
    )
}

/// A walk over the bytes of fields gives exactly these fields in their order.
pub proof fn walk_gives_fields(fields: Seq<(Seq<char>, Val)>)
    requires
        forall|i: int| 0 <= i < fields.len() ==> encode_utf8((#[trigger] fields[i]).0).len() < 256,
        forall|i: int| 0 <= i < fields.len() ==> value_bytes((#[trigger] fields[i]).1).len() < 5 + pow256(4),
    ensures
        walk(fields_bytes(fields), fields.len()) == walked(fields),
    decreases fields.len(),
{
    if fields.len() > 0 {
        let rest = fields.drop_first();
        let b = value_bytes(fields[0].1);
        let tail = fields_bytes(rest);
        let k = short_text(fields[0].0).len();
        let s = fields_bytes(fields);
        fields_bytes_front(fields);
        value_is_stepped_over(fields[0].1, tail);
        short_text_reads_back(fields[0].0, b + tail);
        assert(s =~= short_text(fields[0].0) + (b + tail));
        assert(s[k as int] == b[0]);
        assert(s.skip(k as int + 1) =~= b.skip(1) + tail);
        assert(s.subrange(k as int + 1, k as int + b.len() as int) =~= b.skip(1));
        assert(s.skip(k as int + b.len() as int) =~= tail);
        assert forall|i: int| 0 <= i < rest.len() implies encode_utf8((#[trigger] rest[i]).0).len() < 256
            && value_bytes(rest[i].1).len() < 5 + pow256(4) by {
            assert(rest[i] == fields[i + 1]);
        }
        walk_gives_fields(rest);
        assert(seq![(fields[0].0, b[0], b.skip(1))] + walked(rest) =~= walked(fields));
    } else {
        assert(walked(fields) =~= Seq::empty());
    }
}

/// A field whose lengths fit is parsed from its bytes, whatever follows them.
pub proof fn field_parses(field: (Seq<char>, Val), tail: Seq<u8>)
    requires
        field_fits(field),
    ensures
        ({
            let b = value_bytes(field.1);
            let s = short_text(field.0) + b + tail;
            let n = short_text(field.0).len() + b.len();
            &&& b.len() >= 1
            &&& parse_field(s) == Some((field.0, b[0], b.skip(1), n))
            &&& s.skip(n as int) == tail
            &&& decode_val(b[0], b.skip(1)) == Some(field.1)
        }),
    decreases field, 1nat,
{
    let b = value_bytes(field.1);
    let s = short_text(field.0) + b + tail;
    let k = short_text(field.0).len();
    value_reads_back(field.1, tail);
    short_text_reads_back(field.0, b + tail);
    assert(s =~= short_text(field.0) + (b + tail));
    assert(s[k as int] == b[0]);
    assert(s.skip(k as int + 1) =~= b.skip(1) + tail);
    assert(s.subrange(k as int + 1, k as int + b.len() as int) =~= b.skip(1));
    assert(s.skip(k as int + b.len() as int) =~= tail);
}

/// Fields whose lengths fit are read back from their bytes.
pub proof fn fields_read_back(fields: Seq<(Seq<char>, Val)>)
    requires
        forall|i: int| 0 <= i < fields.len() ==> field_fits(#[trigger] fields[i]),
    ensures
        decode_fields(fields_bytes(fields), fields.len()) == Some(fields),
    decreases fields,
{
    if fields.len() > 0 {
        let rest = fields.drop_first();
        fields_bytes_front(fields);
        field_parses(fields[0], fields_bytes(rest));
        assert forall|i: int| 0 <= i < rest.len() implies field_fits(#[trigger] rest[i]) by {
            assert(rest[i] == fields[i + 1]);
        }
        fields_read_back(rest);
        assert(seq![(fields[0].0, fields[0].1)] + rest =~= fields);
    } else {
        assert(fields =~= Seq::empty());
    }
}

/// Values whose lengths fit are read back from their bytes.
pub proof fn items_read_back(items: Seq<Val>)
    requires
        forall|i: int| 0 <= i < items.len() ==> fits(#[trigger] items[i]),
    ensures
        decode_items(items_bytes(items), items.len()) == Some(items),
    decreases items,
{
    if items.len() > 0 {
        let rest = items.drop_first();
        let s = items_bytes(items);
        items_bytes_front(items);
        let b = value_bytes(items[0]);
        value_reads_back(items[0], items_bytes(rest));
        assert forall|i: int| 0 <= i < rest.len() implies fits(#[trigger] rest[i]) by {
            assert(rest[i] == items[i + 1]);
        }
        items_read_back(rest);
        assert(s.skip(1) =~= b.skip(1) + items_bytes(rest));
        assert(s.subrange(1, b.len() as int) =~= b.skip(1));
        assert(s.skip(b.len() as int) =~= items_bytes(rest));
        assert(seq![items[0]] + rest =~= items);
    } else {
        assert(items =~= Seq::empty());
    }
}

/// The fields of a document are read back from their bytes.
pub proof fn doc_fields_read_back(fields: Seq<(Seq<char>, Val)>)
    requires
        forall|i: int| 0 <= i < fields.len() ==> field_fits(#[trigger] fields[i]),
    ensures
        decode_doc_fields(fields_bytes(fields), fields.len(), Seq::empty()) == Some(fields),
    decreases fields.len(),
{
    if fields.len() > 0 {
        let rest = fields.drop_first();
        fields_bytes_front(fields);
        field_parses(fields[0], fields_bytes(rest));
        assert forall|i: int| 0 <= i < rest.len() implies field_fits(#[trigger] rest[i]) by {
            assert(rest[i] == fields[i + 1]);
        }
        doc_fields_read_back(rest);
        assert(seq![(fields[0].0, fields[0].1)] + rest =~= fields);
    } else {
        assert(fields =~= Seq::empty());
    }
}

} // verus!
