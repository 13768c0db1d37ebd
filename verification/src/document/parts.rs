//! What is read of a part of a document.
use vstd::prelude::*;

use crate::document::firelite_doc::{borrowed_number, decode_doc, doc_bytes, project_doc, Doc};
use crate::document::format::{
    decode_doc_fields, field_fits, field_parses, fields_bytes, fields_bytes_front, fits, value_bytes, value_reads_back,
};
use crate::document::number::bits_of_int;
use crate::document::value::Val;
use crate::query::{projected, projection_keeps_named, projection_keeps_order};
use crate::util::fixed::{i64_bits, le_bytes, le_round_trip, pow256_values};

verus! {

/// Of the bytes of a document a projection reads the fields that it keeps, as they were written,
/// and the time.
pub proof fn projection_is_read(d: Doc, projection: Seq<Seq<char>>)
    requires
        d.fits(),
    ensures
        project_doc(doc_bytes(d), projection) == Some(Doc { fields: projected(d.fields, projection), time: d.time }),
{
    let s = doc_bytes(d);
    le_round_trip((d.time as u64) as nat, 8);
    le_round_trip(d.fields.len(), 2);
    pow256_values();
    i64_bits(d.time, 0);
    assert(s.subrange(2, 10) =~= le_bytes((d.time as u64) as nat, 8));
    assert(s.subrange(10, 12) =~= le_bytes(d.fields.len(), 2));
    assert(s.skip(12) =~= fields_bytes(d.fields));
    kept_fields_are_read(d.fields, projection);
}

proof fn kept_fields_are_read(fields: Seq<(Seq<char>, Val)>, projection: Seq<Seq<char>>)
    requires
        forall|i: int| 0 <= i < fields.len() ==> field_fits(#[trigger] fields[i]),
    ensures
        decode_doc_fields(fields_bytes(fields), fields.len(), projection) == Some(projected(fields, projection)),
    decreases fields.len(),
{
    if fields.len() > 0 {
        let rest = fields.drop_first();
        fields_bytes_front(fields);
        field_parses(fields[0], fields_bytes(rest));
        assert forall|i: int| 0 <= i < rest.len() implies field_fits(#[trigger] rest[i]) by {
            assert(rest[i] == fields[i + 1]);
        }
        kept_fields_are_read(rest, projection);
        projection_keeps_named(fields[0], projection);
        projection_keeps_order(seq![fields[0]], rest, projection);
        assert(seq![fields[0]] + rest =~= fields);
        assert(seq![(fields[0].0, fields[0].1)] =~= seq![fields[0]]);
        assert(Seq::<(Seq<char>, Val)>::empty() + projected(rest, projection) =~= projected(rest, projection));
    } else {
        assert(projected(fields, projection) =~= Seq::empty());
    }
}

/// The number in a value that is only looked at is that of the value: of an integer the number
/// that it becomes, of a floating-point number itself, and of any other value none.
pub proof fn looked_at_number(v: Val)
    requires
        fits(v),
    ensures
        ({
            let b = value_bytes(v);
            borrowed_number(b[0], b.skip(1)) == (match v {
                Val::Int(i) => Some(bits_of_int(i as int) as u64),
                Val::Float(bits) => Some(bits),
                _ => None,
            })
        }),
{
    value_reads_back(v, Seq::empty());
    if let Val::String(s) = v {
        assert(value_bytes(v)[0] == 5 || 0x40 <= value_bytes(v)[0] <= 0x47);
    }
}

/// Bytes that are too short for the head of a document, or do not begin as one, hold none.
pub proof fn no_head_no_document(s: Seq<u8>, d: Doc)
    ensures
        s.len() < 12 ==> decode_doc(s) is None,
        s.len() > 0 && s[0] != doc_bytes(d)[0] ==> decode_doc(s) is None,
        s.len() > 1 && s[1] != doc_bytes(d)[1] ==> decode_doc(s) is None,
{
}

} // verus!
