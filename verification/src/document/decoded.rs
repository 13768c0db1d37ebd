//! What was read from bytes fits the form again, and takes no more room in it.
use vstd::prelude::*;
use vstd::utf8::{decode_utf8_encode_utf8, encode_utf8};

use crate::document::firelite_doc::{decode_doc, doc_bytes, document_round_trip, header_count, Doc};
use crate::document::format::{
    decode_doc_fields, decode_fields, decode_items, decode_val, field_fits, fields_bytes,
    fields_bytes_front, fits, items_bytes, items_bytes_front, keeps, parse_field, parse_field_bounds,
    parse_short_text, short_text, tagged, value_bytes, value_len,
};
use crate::util::fixed::{le_bytes, le_rewrite, le_round_trip, le_value, pow256_values};
use crate::util::varint::{unzigzag_round_trip, varint, varint_is_shortest, varint_read};

verus! {

/// A short text that was read takes as many bytes when it is written again.
proof fn short_text_fits(s: Seq<u8>)
    ensures
        parse_short_text(s) matches Some((t, k)) ==> encode_utf8(t).len() < 256 && short_text(t).len() == k <= s.len(),
{
    if let Some((t, k)) = parse_short_text(s) {
        decode_utf8_encode_utf8(s.subrange(1, 1 + s[0]));
    }
}

/// A tag, a length and a body.
proof fn tagged_len(tag: u8, body: Seq<u8>)
    ensures
        tagged(tag, body).len() == 5 + body.len(),
{
    le_round_trip(body.len(), 4);
}

/// A value that was read fits, and takes no more bytes when it is written again.
proof fn value_fits(tag: u8, data: Seq<u8>)
    requires
        value_len(tag, data) == Some(data.len()),
    ensures
        decode_val(tag, data) matches Some(v) ==> fits(v) && value_bytes(v).len() <= 1 + data.len(),
    decreases data.len(), 0nat,
{
    pow256_values();
    if 3 <= tag <= 11 {
        le_rewrite(data.take(4));
    }
    if let Some(v) = decode_val(tag, data) {
        if 0x40 <= tag <= 0x47 {
            decode_utf8_encode_utf8(data.take((tag - 0x40) as int));
        } else if tag == 3 || tag == 7 {
            varint_is_shortest(data.skip(4));
            let u = varint_read(data.skip(4))->Some_0.0;
            unzigzag_round_trip(u);
            tagged_len(tag, varint(u as nat));
        } else if tag == 4 {
            let bits = le_value(data.subrange(4, 12)) as u64;
            le_round_trip(bits as nat, 8);
            tagged_len(4, le_bytes(bits as nat, 8));
        } else if tag == 5 {
            let b = data.skip(4).take(le_value(data.take(4)) as int);
            decode_utf8_encode_utf8(b);
            tagged_len(5, b);
        } else if tag == 6 {
            tagged_len(6, v->Binary_0);
        } else if tag == 8 {
            let fields = v->Object_0;
            le_rewrite(data.subrange(4, 6));
            fields_fit(data.skip(6), le_value(data.subrange(4, 6)));
            le_round_trip(fields.len(), 2);
            tagged_len(8, le_bytes(fields.len(), 2) + fields_bytes(fields));
        } else if tag == 9 {
            let items = v->Array_0;
            le_rewrite(data.subrange(4, 8));
            items_fit(data.skip(8), le_value(data.subrange(4, 8)));
            le_round_trip(items.len(), 4);
            tagged_len(9, le_bytes(items.len(), 4) + items_bytes(items));
        } else if tag == 10 {
            short_text_fits(data.skip(4));
            let k = parse_short_text(data.skip(4))->Some_0.1;
            short_text_fits(data.skip(4 + k as int));
            tagged_len(10, short_text(v->Reference_collection) + short_text(v->Reference_doc_id));
        } else if tag == 11 {
            le_round_trip(v->BlobLink_offset as nat, 8);
            le_round_trip(v->BlobLink_len as nat, 4);
            tagged_len(11, le_bytes(v->BlobLink_offset as nat, 8) + le_bytes(v->BlobLink_len as nat, 4));
        }
    }
}

/// The data of a value is as long as its tag and its beginning say.
proof fn data_len(tag: u8, rest: Seq<u8>, n: nat)
    requires
        value_len(tag, rest) == Some(n),
    ensures
        n <= rest.len(),
        value_len(tag, rest.take(n as int)) == Some(n),
{
    if 3 <= tag <= 11 {
        assert(rest.take(n as int).take(4) =~= rest.take(4));
    }
}

/// A field that was read fits, and takes no more bytes when it is written again.
proof fn field_read_fits(s: Seq<u8>)
    ensures
        parse_field(s) matches Some((key, tag, data, n)) ==> (decode_val(tag, data) matches Some(v) ==> {
            &&& field_fits((key, v))
            &&& short_text(key).len() + value_bytes(v).len() <= n <= s.len()
        }),
    decreases s.len(), 0nat,
{
    parse_field_bounds(s);
    if let Some((key, tag, data, n)) = parse_field(s) {
        short_text_fits(s);
        let k = parse_short_text(s)->Some_0.1;
        let rest = s.skip(k as int + 1);
        let m = value_len(tag, rest)->Some_0;
        data_len(tag, rest, m);
        assert(rest.take(m as int) =~= data);
        value_fits(tag, data);
    }
}

/// Fields that were read fit, and take no more bytes when they are written again.
proof fn fields_fit(s: Seq<u8>, count: nat)
    ensures
        decode_fields(s, count) matches Some(fields) ==> {
            &&& fields.len() == count
            &&& fields_bytes(fields).len() <= s.len()
            &&& forall|i: int| 0 <= i < fields.len() ==> field_fits(#[trigger] fields[i])
        },
    decreases s.len(), 1nat,
{
    if count > 0 {
        parse_field_bounds(s);
        if let Some(fields) = decode_fields(s, count) {
            let (key, tag, data, n) = parse_field(s)->Some_0;
            let v = decode_val(tag, data)->Some_0;
            let rest = decode_fields(s.skip(n as int), (count - 1) as nat)->Some_0;
            field_read_fits(s);
            fields_fit(s.skip(n as int), (count - 1) as nat);
            assert(fields.drop_first() =~= rest);
            fields_bytes_front(fields);
            assert forall|i: int| 0 <= i < fields.len() implies field_fits(#[trigger] fields[i]) by {
                if i > 0 {
                    assert(fields[i] == rest[i - 1]);
                }
            }
        }
    }
}

/// Values that were read fit, and take no more bytes when they are written again.
proof fn items_fit(s: Seq<u8>, count: nat)
    ensures
        decode_items(s, count) matches Some(items) ==> {
            &&& items.len() == count
            &&& items_bytes(items).len() <= s.len()
            &&& forall|i: int| 0 <= i < items.len() ==> fits(#[trigger] items[i])
        },
    decreases s.len(), 1nat,
{
    if count > 0 {
        if let Some(items) = decode_items(s, count) {
            let n = value_len(s[0], s.skip(1))->Some_0;
            let data = s.subrange(1, 1 + n as int);
            let rest = decode_items(s.skip(1 + n as int), (count - 1) as nat)->Some_0;
            data_len(s[0], s.skip(1), n);
            assert(s.skip(1).take(n as int) =~= data);
            value_fits(s[0], data);
            items_fit(s.skip(1 + n as int), (count - 1) as nat);
            assert(items.drop_first() =~= rest);
            items_bytes_front(items);
            assert forall|i: int| 0 <= i < items.len() implies fits(#[trigger] items[i]) by {
                if i > 0 {
                    assert(items[i] == rest[i - 1]);
                }
            }
        }
    }
}

/// The fields of a document that was read fit.
proof fn doc_fields_fit(s: Seq<u8>, count: nat)
    ensures
        decode_doc_fields(s, count, Seq::empty()) matches Some(fields) ==> {
            &&& fields.len() <= count
            &&& forall|i: int| 0 <= i < fields.len() ==> field_fits(#[trigger] fields[i])
        },
    decreases count,
{
    if count > 0 {
        if let Some((key, tag, data, n)) = parse_field(s) {
            if let Some(fields) = decode_doc_fields(s, count, Seq::empty()) {
                assert(keeps(Seq::empty(), key));
                let rest = decode_doc_fields(s.skip(n as int), (count - 1) as nat, Seq::empty())->Some_0;
                field_read_fits(s);
                doc_fields_fit(s.skip(n as int), (count - 1) as nat);
                assert forall|i: int| 0 <= i < fields.len() implies field_fits(#[trigger] fields[i]) by {
                    if i > 0 {
                        assert(fields[i] == rest[i - 1]);
                    }
                }
            }
        }
    }
}

/// A document that was read from bytes fits, and is read again from the bytes that it is
/// written to.
pub proof fn what_was_read_is_read_again(s: Seq<u8>, d: Doc)
    requires
        decode_doc(s) == Some(d),
    ensures
        d.fits(),
        decode_doc(doc_bytes(d)) == Some(d),
{
    pow256_values();
    le_rewrite(s.subrange(10, 12));
    doc_fields_fit(s.skip(12), header_count(s));
    document_round_trip(d);
}

} // verus!
