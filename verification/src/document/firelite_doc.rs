//! Documents: fields sorted by key, with the time of their last change.
use vstd::prelude::*;
use vstd::utf8::encode_utf8;

use crate::document::format::{
    decode_doc_fields, decode_fields, decode_items, decode_text, decode_val, doc_fields_read_back, field_fits,
    fields_bytes, items_bytes, parse_field, parse_field_bounds, parse_short_text, short_text, tagged, value_bytes,
    value_is_stepped_over, value_len, walk, walk_gives_fields, walked,
};
use crate::document::number::{bits_of_int, signed_to_bits};
use crate::document::value::{copy_bytes, fields_view, items_view, parts_view, Val, Value};
use crate::document::search::{halved, sought, sought_in_order, sought_is_there};
use crate::order::Order;
use crate::sorted_map::{ascending, entries_map, insert_holds, update_holds};
use crate::text::{compare_text, same_text, text_of_utf8};
use crate::util::fixed::{
    i64_bits, le_bytes, le_round_trip, le_value, pow256, pow256_values, put_le, read_le,
};
use crate::util::varint::{decode_varint, encode_varint, zigzag_decode, zigzag_encode};

verus! {

/// The first byte of a document.
pub const MAGIC: u8 = 0xF1;

/// The second byte of a document: the version of the form.
pub const VERSION: u8 = 5;

/// A document: its fields, and the time of its last change.
#[derive(Debug)]
pub struct FireLiteDoc {
    pub fields: Vec<(String, Value)>,
    pub _time: i64,
}

/// What a document stands for.
#[verifier::ext_equal]
pub struct Doc {
    pub fields: Seq<(Seq<char>, Val)>,
    pub time: i64,
}

impl Doc {
    /// What a search finds under each key.
    pub open spec fn map(self) -> Map<Seq<char>, Val> {
        Map::new(
            |k: Seq<char>| sought(self.fields, k) is Ok,
            |k: Seq<char>| self.fields[sought(self.fields, k)->Ok_0].1,
        )
    }

    /// The keys ascend: no key stands twice.
    pub open spec fn wf(self) -> bool {
        ascending::<String, Val>(self.fields)
    }

    /// The lengths inside the document fit the room that the form has for them.
    pub open spec fn fits(self) -> bool {
        &&& self.fields.len() < pow256(2)
        &&& forall|i: int| 0 <= i < self.fields.len() ==> field_fits(#[trigger] self.fields[i])
    }
}

impl View for FireLiteDoc {
    type V = Doc;

    open spec fn view(&self) -> Doc {
        Doc { fields: fields_view(self.fields@), time: self._time }
    }
}

/// The bytes of a document.
pub open spec fn doc_bytes(d: Doc) -> Seq<u8> {
    seq![MAGIC, VERSION] + le_bytes((d.time as u64) as nat, 8) + le_bytes(d.fields.len(), 2) + fields_bytes(d.fields)
}

/// Whether bytes begin as a document does.
pub open spec fn has_header(s: Seq<u8>) -> bool {
    s.len() >= 12 && s[0] == MAGIC && s[1] == VERSION
}

/// The time in the header.
pub open spec fn header_time(s: Seq<u8>) -> i64 {
    (le_value(s.subrange(2, 10)) as u64) as i64
}

/// The number of fields in the header.
pub open spec fn header_count(s: Seq<u8>) -> nat {
    le_value(s.subrange(10, 12))
}

/// The document that bytes hold.
pub open spec fn decode_doc(s: Seq<u8>) -> Option<Doc> {
    project_doc(s, Seq::empty())
}

/// The part of the document that bytes hold which a projection keeps.
pub open spec fn project_doc(s: Seq<u8>, projection: Seq<Seq<char>>) -> Option<Doc> {
    if !has_header(s) {
        None
    } else {
        match decode_doc_fields(s.skip(12), header_count(s), projection) {
            None => None,
            Some(fields) => Some(Doc { fields, time: header_time(s) }),
        }
    }
}

/// A document whose lengths fit is read back from its bytes.
pub proof fn document_round_trip(d: Doc)
    requires
        d.fits(),
    ensures
        decode_doc(doc_bytes(d)) == Some(d),
{
    let s = doc_bytes(d);
    le_round_trip((d.time as u64) as nat, 8);
    le_round_trip(d.fields.len(), 2);
    pow256_values();
    i64_bits(d.time, 0);
    assert(s.subrange(2, 10) =~= le_bytes((d.time as u64) as nat, 8));
    assert(s.subrange(10, 12) =~= le_bytes(d.fields.len(), 2));
    assert(s.skip(12) =~= fields_bytes(d.fields));
    doc_fields_read_back(d.fields);
}

/// Different documents whose lengths fit have different bytes.
pub proof fn document_bytes_injective(a: Doc, b: Doc)
    requires
        a.fits(),
        b.fits(),
        doc_bytes(a) == doc_bytes(b),
    ensures
        a == b,
{
    document_round_trip(a);
    document_round_trip(b);
}

/// A document in key order is searched as the map of its fields.
pub proof fn map_in_order(d: Doc)
    requires
        d.wf(),
    ensures
        d.map() == entries_map(d.fields),
{
    let m = entries_map(d.fields);
    assert forall|k: Seq<char>| #[trigger] d.map().contains_key(k) <==> m.contains_key(k) by {
        sought_in_order(d.fields, k);
    }
    assert forall|k: Seq<char>| #[trigger] d.map().contains_key(k) implies d.map()[k] == m[k] by {
        sought_in_order(d.fields, k);
    }
    assert(d.map() =~= m);
}

/// A document with a value put under a key: in place of the one that a search finds, and
/// else where the search ends.
pub open spec fn with_field(d: Doc, key: Seq<char>, value: Val) -> Doc {
    Doc {
        fields: match sought(d.fields, key) {
            Ok(i) => d.fields.update(i, (key, value)),
            Err(i) => d.fields.insert(i, (key, value)),
        },
        time: d.time,
    }
}

/// What a document in key order holds once a value was put under a key.
pub proof fn with_field_holds(d: Doc, key: Seq<char>, value: Val)
    requires
        d.wf(),
    ensures
        with_field(d, key, value).wf(),
        with_field(d, key, value).map() == d.map().insert(key, value),
        with_field(d, key, value).time == d.time,
{
    let e = with_field(d, key, value);
    sought_in_order(d.fields, key);
    match sought(d.fields, key) {
        Ok(i) => {
            update_holds::<String, Val>(d.fields, i, value);
        },
        Err(i) => {
            insert_holds::<String, Val>(d.fields, i, key, value);
        },
    }
    map_in_order(d);
    map_in_order(e);
}

/// A document whose lengths fit still does with one more field that fits, while there is room
/// for it.
pub proof fn with_field_fits(d: Doc, key: Seq<char>, value: Val)
    requires
        d.fits(),
        d.fields.len() + 1 < pow256(2),
        field_fits((key, value)),
    ensures
        with_field(d, key, value).fits(),
        with_field(d, key, value).fields.len() <= d.fields.len() + 1,
{
    let e = with_field(d, key, value);
    sought_is_there(d.fields, key);
    assert forall|i: int| 0 <= i < e.fields.len() implies field_fits(#[trigger] e.fields[i]) by {
        match sought(d.fields, key) {
            Ok(k) => if i != k {
                assert(e.fields[i] == d.fields[i]);
            },
            Err(k) => if i < k {
                assert(e.fields[i] == d.fields[i]);
            } else if i > k {
                assert(e.fields[i] == d.fields[i - 1]);
            },
        }
    }
}

/// A document with values put under keys, one after the other.
pub open spec fn with_fields(d: Doc, updates: Seq<(Seq<char>, Val)>) -> Doc
    decreases updates.len(),
{
    if updates.len() == 0 {
        d
    } else {
        with_field(with_fields(d, updates.drop_last()), updates.last().0, updates.last().1)
    }
}

/// Where `key` stands among fields, or where it would be put, by a search by halves.
fn find_field(fields: &Vec<(String, Value)>, key: &str) -> (r: Result<usize, usize>)
    ensures
        match (r, sought(fields_view(fields@), key@)) {
            (Ok(i), Ok(j)) => i == j && i < fields@.len(),
            (Err(i), Err(j)) => i == j && i <= fields@.len(),
            _ => false,
        },
{
    let ghost s = fields_view(fields@);
    proof {
        sought_is_there(s, key@);
    }
    let n: usize = fields.len();
    if n == 0 {
        return Err(0);
    }
    let mut size: usize = n;
    let mut base: usize = 0;
    while size > 1
        invariant
            s == fields_view(fields@),
            1 <= size,
            n == fields@.len(),
            base + size <= n,
            halved(s, 0, s.len() as int, key@) == halved(s, base as int, size as int, key@),
        decreases size,
    {
        let half: usize = size / 2;
        match compare_text(fields[base + half].0.as_str(), key) {
            Order::Greater => {},
            _ => {
                base = base + half;
            },
        }
        size = size - half;
    }
    match compare_text(fields[base].0.as_str(), key) {
        Order::Equal => Ok(base),
        Order::Less => Err(base + 1),
        Order::Greater => Err(base),
    }
}

impl Default for FireLiteDoc {
    fn default() -> (d: FireLiteDoc)
        ensures
            d@ == (Doc { fields: Seq::empty(), time: 0 }),
            d@.wf(),
            d@.map() == Map::<Seq<char>, Val>::empty(),
    {
        let d = FireLiteDoc { fields: Vec::new(), _time: 0 };
        proof {
            assert(d@.fields =~= Seq::empty());
            assert(d@.map() =~= Map::<Seq<char>, Val>::empty());
        }
        d
    }
}

impl Clone for FireLiteDoc {
    fn clone(&self) -> (d: FireLiteDoc)
        ensures
            d@ == self@,
    {
        FireLiteDoc { fields: crate::document::value::copy_fields(&self.fields), _time: self._time }
    }
}

impl FireLiteDoc {
    /// The value that a search finds under `key`.
    pub fn get(&self, key: &str) -> (r: Option<&Value>)
        ensures
            match r {
                Some(v) => self@.map().contains_key(key@) && self@.map()[key@] == v@,
                None => !self@.map().contains_key(key@),
            },
    {
        match find_field(&self.fields, key) {
            Ok(i) => Some(&self.fields[i].1),
            Err(_) => None,
        }
    }

    /// Puts `value` under `key`.
    pub fn insert(&mut self, key: String, value: Value)
        ensures
            final(self)@ == with_field(old(self)@, key@, value@),
            old(self)@.wf() ==> final(self)@.wf() && final(self)@.map() == old(self)@.map().insert(key@, value@),
            final(self)@.time == old(self)@.time,
    {
        let ghost before = self@;
        let ghost m = key@;
        let ghost v = value@;
        proof {
            sought_is_there(before.fields, m);
        }
        match find_field(&self.fields, key.as_str()) {
            Ok(i) => {
                let mut entry = (key, value);
                std::mem::swap(&mut self.fields[i], &mut entry);
                proof {
                    assert(self@.fields =~= before.fields.update(i as int, (m, v)));
                }
            },
            Err(i) => {
                self.fields.insert(i, (key, value));
                proof {
                    assert(self@.fields =~= before.fields.insert(i as int, (m, v)));
                }
            },
        }
        proof {
            assert(self@ == with_field(before, m, v));
            if before.wf() {
                with_field_holds(before, m, v);
            }
        }
    }

    /// The time of the last change.
    pub fn get_logical_time(&self) -> (t: i64)
        ensures
            t == self@.time,
    {
        self._time
    }

    /// Appends the bytes of the document.
    pub fn encode_into(&self, out: &mut Vec<u8>)
        ensures
            final(out)@ == old(out)@ + doc_bytes(self@),
    {
        let ghost before = out@;
        out.push(MAGIC);
        out.push(VERSION);
        put_le(out, self._time as u64, 8);
        put_le(out, self.fields.len() as u64, 2);
        encode_fields_to(&self.fields, out);
        proof {
            assert(out@ =~= before + doc_bytes(self@));
        }
    }

    /// The bytes of the document.
    pub fn encode(&self) -> (out: Vec<u8>)
        ensures
            out@ == doc_bytes(self@),
    {
        let mut out: Vec<u8> = Vec::with_capacity(512);
        self.encode_into(&mut out);
        proof {
            assert(Seq::<u8>::empty() + doc_bytes(self@) =~= doc_bytes(self@));
        }
        out
    }

    /// The bytes of the document, built in `buf`, which keeps its room from call to call.
    pub fn encode_buffered(&self, buf: &mut Vec<u8>) -> (out: Vec<u8>)
        ensures
            out@ == doc_bytes(self@),
            final(buf)@ == doc_bytes(self@),
    {
        buf.clear();
        self.encode_into(buf);
        proof {
            assert(Seq::<u8>::empty() + doc_bytes(self@) =~= doc_bytes(self@));
        }
        copy_bytes(buf.as_slice())
    }

    /// Appends the bytes of a value.
    pub fn encode_value_to(v: &Value, out: &mut Vec<u8>)
        ensures
            final(out)@ == old(out)@ + value_bytes(v@),
        decreases v, 1nat,
    {
        let ghost before = out@;
        proof {
            parts_view(*v);
        }
        match v {
            Value::Null => out.push(0xC0),
            Value::ServerTimestamp => out.push(0xC1),
            Value::Bool(b) => if *b {
                out.push(0xC2)
            } else {
                out.push(0xC3)
            },
            Value::Int(i) => {
                if 0 <= *i && *i <= 15 {
                    out.push(0x10 + (*i as u8));
                } else {
                    let mut body: Vec<u8> = Vec::new();
                    encode_varint(zigzag_encode(*i), &mut body);
                    put_tagged(out, 3, &body);
                }
            },
            Value::Float(bits) => {
                let mut body: Vec<u8> = Vec::new();
                put_le(&mut body, *bits, 8);
                put_tagged(out, 4, &body);
            },
            Value::String(s) => {
                let bytes = s.as_str().as_bytes();
                if bytes.len() <= 7 {
                    out.push(0x40 + (bytes.len() as u8));
                    out.extend_from_slice(bytes);
                } else {
                    put_tagged(out, 5, &copy_bytes(bytes));
                }
            },
            Value::Binary(b) => put_tagged(out, 6, b),
            Value::Timestamp(t) => {
                let mut body: Vec<u8> = Vec::new();
                encode_varint(zigzag_encode(*t), &mut body);
                put_tagged(out, 7, &body);
            },
            Value::Object(fields) => {
                let mut body: Vec<u8> = Vec::new();
                put_le(&mut body, fields.len() as u64, 2);
                encode_fields_to(fields, &mut body);
                put_tagged(out, 8, &body);
            },
            Value::Array(items) => {
                let mut body: Vec<u8> = Vec::new();
                put_le(&mut body, items.len() as u64, 4);
                encode_items_to(items, &mut body);
                put_tagged(out, 9, &body);
            },
            Value::Reference { collection, doc_id } => {
                let mut body: Vec<u8> = Vec::new();
                put_short_text(&mut body, collection.as_str());
                put_short_text(&mut body, doc_id.as_str());
                put_tagged(out, 10, &body);
            },
            Value::BlobLink { offset, len } => {
                let mut body: Vec<u8> = Vec::new();
                put_le(&mut body, *offset, 8);
                put_le(&mut body, *len as u64, 4);
                put_tagged(out, 11, &body);
            },
        }
        proof {
            let e = Seq::<u8>::empty();
            assert(out@ =~= before + value_bytes(v@));
        }
    }
}

/// Appends a tag, the length of a body, and the body.
fn put_tagged(out: &mut Vec<u8>, tag: u8, body: &Vec<u8>)
    ensures
        final(out)@ == old(out)@ + tagged(tag, body@),
{
    let ghost before = out@;
    out.push(tag);
    put_le(out, body.len() as u64, 4);
    out.extend_from_slice(body.as_slice());
    proof {
        assert(out@ =~= before + tagged(tag, body@));
    }
}

/// Appends a text behind the low byte of its length.
pub(crate) fn put_short_text(out: &mut Vec<u8>, s: &str)
    ensures
        final(out)@ == old(out)@ + short_text(s@),
{
    let ghost before = out@;
    let bytes = s.as_bytes();
    let low: u8 = (bytes.len() % 256) as u8;
    out.push(low);
    out.extend_from_slice(bytes);
    proof {
        assert(out@ =~= before + short_text(s@));
    }
}

/// Appends the bytes of fields.
fn encode_fields_to(fields: &Vec<(String, Value)>, out: &mut Vec<u8>)
    ensures
        final(out)@ == old(out)@ + fields_bytes(fields_view(fields@)),
    decreases fields, 0nat,
{
    let ghost before = out@;
    let ghost model = fields_view(fields@);
    let mut i: usize = 0;
    proof {
        assert(model.take(0) =~= Seq::empty());
        assert(before + fields_bytes(model.take(0)) =~= before);
    }
    while i < fields.len()
        invariant
            i <= fields@.len(),
            model == fields_view(fields@),
            out@ == before + fields_bytes(model.take(i as int)),
        decreases fields@.len() - i,
    {
        put_short_text(out, fields[i].0.as_str());
        FireLiteDoc::encode_value_to(&fields[i].1, out);
        proof {
            let t = model.take(i + 1);
            assert(t.drop_last() =~= model.take(i as int));
            assert(t.last() == model[i as int]);
            assert(out@ =~= before + fields_bytes(t));
        }
        i = i + 1;
    }
    proof {
        assert(model.take(model.len() as int) =~= model);
    }
}

/// Appends the bytes of values.
fn encode_items_to(items: &Vec<Value>, out: &mut Vec<u8>)
    ensures
        final(out)@ == old(out)@ + items_bytes(items_view(items@)),
    decreases items, 0nat,
{
    let ghost before = out@;
    let ghost model = items_view(items@);
    let mut i: usize = 0;
    proof {
        assert(model.take(0) =~= Seq::empty());
        assert(before + items_bytes(model.take(0)) =~= before);
    }
    while i < items.len()
        invariant
            i <= items@.len(),
            model == items_view(items@),
            out@ == before + items_bytes(model.take(i as int)),
        decreases items@.len() - i,
    {
        FireLiteDoc::encode_value_to(&items[i], out);
        proof {
            let t = model.take(i + 1);
            assert(t.drop_last() =~= model.take(i as int));
            assert(t.last() == model[i as int]);
            assert(out@ =~= before + items_bytes(t));
        }
        i = i + 1;
    }
    proof {
        assert(model.take(model.len() as int) =~= model);
    }
}

/// Whether an optional value stands for an optional model.
pub open spec fn stands_for(r: Option<Value>, m: Option<Val>) -> bool {
    match r {
        Some(v) => m == Some(v@),
        None => m is None,
    }
}

/// Moves `pos` from behind a tag to behind its value.
pub fn skip_value(tag: u8, bytes: &[u8], pos: &mut usize) -> (r: Option<()>)
    requires
        *old(pos) <= bytes@.len(),
    ensures
        match value_len(tag, bytes@.skip(*old(pos) as int)) {
            Some(n) => r is Some && *final(pos) == *old(pos) + n && *final(pos) <= bytes@.len(),
            None => r is None && *final(pos) == *old(pos),
        },
{
    let total: usize = bytes.len();
    let at: usize = *pos;
    if (0xC0 <= tag && tag <= 0xC3) || (0x10 <= tag && tag <= 0x1F) {
        return Some(());
    }
    if 0x40 <= tag && tag <= 0x47 {
        let n: usize = (tag - 0x40) as usize;
        if n > total - at {
            return None;
        }
        *pos = at + n;
        return Some(());
    }
    if 3 <= tag && tag <= 11 {
        if total - at < 4 {
            return None;
        }
        proof {
            pow256_values();
            assert(bytes@.subrange(at as int, at + 4) =~= bytes@.skip(at as int).take(4));
        }
        let n: u64 = read_le(bytes, at, 4);
        if n > (total - at - 4) as u64 {
            return None;
        }
        *pos = at + 4 + n as usize;
        return Some(());
    }
    None
}

/// A field as it stands in bytes: its key, and the tag and the data of its value.
fn read_field<'a>(bytes: &'a [u8], at: usize) -> (r: Option<(String, u8, &'a [u8], usize)>)
    requires
        at <= bytes@.len(),
    ensures
        match (r, parse_field(bytes@.skip(at as int))) {
            (Some((key, tag, data, end)), Some((k, t, d, n))) => {
                &&& key@ == k
                &&& tag == t
                &&& data@ == d
                &&& end == at + n
                &&& end <= bytes@.len()
            },
            (None, None) => true,
            _ => false,
        },
{
    let ghost s = bytes@.skip(at as int);
    match read_short_text(bytes, at) {
        None => None,
        Some((key, tag_at)) => {
            let ghost k = tag_at - at;
            if tag_at == bytes.len() {
                return None;
            }
            let tag: u8 = bytes[tag_at];
            let start: usize = tag_at + 1;
            let mut end: usize = start;
            proof {
                assert(s.skip(k + 1) =~= bytes@.skip(start as int));
            }
            match skip_value(tag, bytes, &mut end) {
                None => None,
                Some(_) => {
                    proof {
                        assert(s.subrange(k + 1, end - at) =~= bytes@.subrange(start as int, end as int));
                    }
                    Some((key, tag, vstd::slice::slice_subrange(bytes, start, end), end))
                },
            }
        },
    }
}

/// The text behind a byte that gives its length, and where it ends.
fn read_short_text(bytes: &[u8], at: usize) -> (r: Option<(String, usize)>)
    requires
        at <= bytes@.len(),
    ensures
        match (r, parse_short_text(bytes@.skip(at as int))) {
            (Some((text, end)), Some((t, n))) => text@ == t && end == at + n && end <= bytes@.len(),
            (None, None) => true,
            _ => false,
        },
{
    let ghost s = bytes@.skip(at as int);
    let total: usize = bytes.len();
    if at == total {
        return None;
    }
    let n: usize = bytes[at] as usize;
    if n > total - at - 1 {
        return None;
    }
    proof {
        assert(s.subrange(1, 1 + n) =~= bytes@.subrange(at + 1, at + 1 + n));
    }
    match text_of_utf8(vstd::slice::slice_subrange(bytes, at + 1, at + 1 + n)) {
        Some(text) => Some((text, at + 1 + n)),
        None => None,
    }
}

/// The value that a tag and its data hold.
pub fn decode_value(tag: u8, data: &[u8]) -> (r: Option<Value>)
    ensures
        stands_for(r, decode_val(tag, data@)),
    decreases data@.len(), 1nat,
{
    let total: usize = data.len();
    proof {
        pow256_values();
        assert(data@.skip(0) =~= data@);
        if total >= 4 {
            assert(data@.subrange(0, 4) =~= data@.take(4));
        }
    }
    if tag == 0xC0 {
        return Some(Value::Null);
    }
    if tag == 0xC1 {
        return Some(Value::ServerTimestamp);
    }
    if tag == 0xC2 {
        return Some(Value::Bool(true));
    }
    if tag == 0xC3 {
        return Some(Value::Bool(false));
    }
    if 0x10 <= tag && tag <= 0x1F {
        return Some(Value::Int((tag - 0x10) as i64));
    }
    if 0x40 <= tag && tag <= 0x47 {
        return read_text(data, 0, (tag - 0x40) as u64);
    }
    if tag == 3 || tag == 7 {
        if total < 4 {
            return None;
        }
        let mut p: usize = 4;
        return match decode_varint(data, &mut p) {
            None => None,
            Some(u) => Some(
                if tag == 3 {
                    Value::Int(zigzag_decode(u))
                } else {
                    Value::Timestamp(zigzag_decode(u))
                },
            ),
        };
    }
    if tag == 4 {
        if total < 12 {
            return None;
        }
        return Some(Value::Float(read_le(data, 4, 8)));
    }
    if tag == 5 {
        if total < 4 {
            return None;
        }
        return read_text(data, 4, read_le(data, 0, 4));
    }
    if tag == 6 {
        if total < 4 {
            return None;
        }
        let n: u64 = read_le(data, 0, 4);
        if n > (total - 4) as u64 {
            return None;
        }
        return Some(Value::Binary(copy_bytes(vstd::slice::slice_subrange(data, 4, 4 + n as usize))));
    }
    if tag == 8 {
        if total < 6 {
            return None;
        }
        let count: u64 = read_le(data, 4, 2);
        let rest = vstd::slice::slice_subrange(data, 6, total);
        proof {
            assert(rest@ =~= data@.skip(6));
        }
        return match decode_value_fields(rest, count) {
            None => None,
            Some(fields) => {
                let r = Value::Object(fields);
                proof {
                    parts_view(r);
                }
                Some(r)
            },
        };
    }
    if tag == 9 {
        if total < 8 {
            return None;
        }
        let count: u64 = read_le(data, 4, 4);
        let rest = vstd::slice::slice_subrange(data, 8, total);
        proof {
            assert(rest@ =~= data@.skip(8));
        }
        return match decode_value_items(rest, count) {
            None => None,
            Some(items) => {
                let r = Value::Array(items);
                proof {
                    parts_view(r);
                }
                Some(r)
            },
        };
    }
    if tag == 10 {
        if total < 4 {
            return None;
        }
        return match read_short_text(data, 4) {
            None => None,
            Some((collection, k)) => match read_short_text(data, k) {
                None => None,
                Some((doc_id, _)) => Some(Value::Reference { collection, doc_id }),
            },
        };
    }
    if tag == 11 {
        if total < 16 {
            return None;
        }
        return Some(Value::BlobLink { offset: read_le(data, 4, 8), len: read_le(data, 12, 4) as u32 });
    }
    Some(Value::Null)
}

/// The text in the `n` bytes from `at`.
fn read_text(data: &[u8], at: usize, n: u64) -> (r: Option<Value>)
    requires
        at <= data@.len(),
    ensures
        stands_for(r, decode_text(data@.skip(at as int), n as nat)),
{
    let total: usize = data.len();
    if n > (total - at) as u64 {
        return None;
    }
    proof {
        assert(data@.skip(at as int).take(n as int) =~= data@.subrange(at as int, at + n));
    }
    match text_of_utf8(vstd::slice::slice_subrange(data, at, at + n as usize)) {
        Some(s) => Some(Value::String(s)),
        None => None,
    }
}

/// The `count` fields at the start of `s`.
fn decode_value_fields(s: &[u8], count: u64) -> (r: Option<Vec<(String, Value)>>)
    ensures
        match (r, decode_fields(s@, count as nat)) {
            (Some(fields), Some(m)) => fields_view(fields@) == m,
            (None, None) => true,
            _ => false,
        },
    decreases s@.len(), 0nat,
{
    let mut fields: Vec<(String, Value)> = Vec::new();
    let mut at: usize = 0;
    let mut left: u64 = count;
    let total: usize = s.len();
    proof {
        assert(s@.skip(0) =~= s@);
        assert(fields_view(fields@) =~= Seq::empty());
        join_empty(decode_fields(s@, count as nat));
    }
    while left > 0
        invariant
            at <= total == s@.len(),
            left <= count,
            decode_fields(s@, count as nat) == join_fields(
                fields_view(fields@),
                decode_fields(s@.skip(at as int), left as nat),
            ),
        decreases left,
    {
        let ghost rest = s@.skip(at as int);
        proof {
            parse_field_bounds(rest);
        }
        match read_field(s, at) {
            None => {
                return None;
            },
            Some((key, tag, data, end)) => {
                match decode_value(tag, data) {
                    None => {
                        return None;
                    },
                    Some(v) => {
                        proof {
                            assert(rest.skip(end - at) =~= s@.skip(end as int));
                            join_step(fields_view(fields@), (key@, v@), decode_fields(s@.skip(end as int), (left - 1) as nat));
                            assert(fields_view(fields@.push((key, v))) =~= fields_view(fields@).push((key@, v@)));
                        }
                        fields.push((key, v));
                        at = end;
                        left = left - 1;
                    },
                }
            },
        }
    }
    proof {
        assert(fields_view(fields@) + Seq::<(Seq<char>, Val)>::empty() =~= fields_view(fields@));
    }
    Some(fields)
}

/// What was read so far, joined with what is still to be read.
spec fn join_fields(
    done: Seq<(Seq<char>, Val)>,
    rest: Option<Seq<(Seq<char>, Val)>>,
) -> Option<Seq<(Seq<char>, Val)>> {
    match rest {
        None => None,
        Some(fields) => Some(done + fields),
    }
}

proof fn join_empty(rest: Option<Seq<(Seq<char>, Val)>>)
    ensures
        join_fields(Seq::empty(), rest) == rest,
{
    match rest {
        None => {},
        Some(fields) => {
            assert(Seq::<(Seq<char>, Val)>::empty() + fields =~= fields);
        },
    }
}

proof fn join_step(done: Seq<(Seq<char>, Val)>, next: (Seq<char>, Val), rest: Option<Seq<(Seq<char>, Val)>>)
    ensures
        join_fields(done.push(next), rest) == (match rest {
            None => None,
            Some(fields) => join_fields(done, Some(seq![next] + fields)),
        }),
{
    match rest {
        None => {},
        Some(fields) => {
            assert(done.push(next) + fields =~= done + (seq![next] + fields));
        },
    }
}

/// The `count` values at the start of `s`.
fn decode_value_items(s: &[u8], count: u64) -> (r: Option<Vec<Value>>)
    ensures
        match (r, decode_items(s@, count as nat)) {
            (Some(items), Some(m)) => items_view(items@) == m,
            (None, None) => true,
            _ => false,
        },
    decreases s@.len(), 0nat,
{
    let mut items: Vec<Value> = Vec::new();
    let mut at: usize = 0;
    let mut left: u64 = count;
    let total: usize = s.len();
    proof {
        assert(s@.skip(0) =~= s@);
        assert(items_view(items@) =~= Seq::empty());
        match decode_items(s@, count as nat) {
            None => {},
            Some(m) => {
                assert(Seq::<Val>::empty() + m =~= m);
            },
        }
    }
    while left > 0
        invariant
            at <= total == s@.len(),
            left <= count,
            match decode_items(s@.skip(at as int), left as nat) {
                None => decode_items(s@, count as nat) is None,
                Some(m) => decode_items(s@, count as nat) == Some(items_view(items@) + m),
            },
        decreases left,
    {
        let ghost rest = s@.skip(at as int);
        if at == total {
            return None;
        }
        let tag: u8 = s[at];
        let start: usize = at + 1;
        let mut end: usize = start;
        proof {
            assert(rest.skip(1) =~= s@.skip(start as int));
        }
        match skip_value(tag, s, &mut end) {
            None => {
                return None;
            },
            Some(_) => {},
        }
        proof {
            assert(rest.subrange(1, end - at) =~= s@.subrange(start as int, end as int));
        }
        match decode_value(tag, vstd::slice::slice_subrange(s, start, end)) {
            None => {
                return None;
            },
            Some(v) => {
                proof {
                    assert(rest.skip(end - at) =~= s@.skip(end as int));
                    assert(items_view(items@.push(v)) =~= items_view(items@).push(v@));
                    match decode_items(s@.skip(end as int), (left - 1) as nat) {
                        None => {},
                        Some(m) => {
                            assert(items_view(items@) + (seq![v@] + m) =~= items_view(items@).push(v@) + m);
                        },
                    }
                }
                items.push(v);
                at = end;
                left = left - 1;
            },
        }
    }
    proof {
        assert(items_view(items@) + Seq::<Val>::empty() =~= items_view(items@));
    }
    Some(items)
}

/// A document as it stands in bytes.
pub struct FireLiteDocView<'a> {
    pub bytes: &'a [u8],
    pub fields_count: u16,
    pub _time: i64,
}

impl<'a> FireLiteDocView<'a> {
    /// The bytes behind the header.
    pub open spec fn rest(&self) -> Seq<u8> {
        self.bytes@.skip(12)
    }

    /// The number of fields that the header gives.
    pub open spec fn count(&self) -> nat {
        self.fields_count as nat
    }

    /// The time that the header gives.
    pub open spec fn time(&self) -> i64 {
        self._time
    }

    /// The bytes hold a header.
    pub open spec fn wf(&self) -> bool {
        self.bytes@.len() >= 12
    }

    /// The fields as a walk gives them.
    pub open spec fn items(&self) -> Seq<(Seq<char>, u8, Seq<u8>)> {
        walk(self.rest(), self.count())
    }

    /// Looks at bytes as a document. They must begin with the header of one.
    pub fn new(bytes: &'a [u8]) -> (r: Option<FireLiteDocView<'a>>)
        ensures
            r is Some <==> has_header(bytes@),
            r matches Some(v) ==> {
                &&& v.wf()
                &&& v._time == header_time(bytes@)
                &&& v.time() == header_time(bytes@)
                &&& v.count() == header_count(bytes@)
                &&& v.rest() == bytes@.skip(12)
            },
    {
        if bytes.len() < 12 || bytes[0] != MAGIC || bytes[1] != VERSION {
            return None;
        }
        proof {
            pow256_values();
        }
        let time: i64 = read_le(bytes, 2, 8) as i64;
        let count: u16 = read_le(bytes, 10, 2) as u16;
        Some(FireLiteDocView { bytes, fields_count: count, _time: time })
    }

    /// A walk over the fields.
    pub fn iter(&self) -> (it: FireLiteDocIter<'a>)
        requires
            self.wf(),
        ensures
            it.wf(),
            it.rest() == self.rest(),
            it.left() == self.count(),
            it.items() == self.items(),
    {
        FireLiteDocIter { bytes: self.bytes, pos: 12, remaining: self.fields_count }
    }
}

/// A view of the bytes of a document walks over exactly its fields in their order: of each
/// the key, and the tag and the data that are the bytes of its value.
pub proof fn view_walks_fields(d: Doc, v: FireLiteDocView)
    requires
        d.fields.len() < pow256(2),
        forall|i: int| 0 <= i < d.fields.len() ==> encode_utf8((#[trigger] d.fields[i]).0).len() < 256,
        forall|i: int| 0 <= i < d.fields.len() ==> value_bytes((#[trigger] d.fields[i]).1).len() < 5 + pow256(4),
        v.count() == header_count(doc_bytes(d)),
        v.rest() == doc_bytes(d).skip(12),
    ensures
        v.items() == walked(d.fields),
        forall|i: int| 0 <= i < d.fields.len() ==> ({
            let (key, tag, data) = #[trigger] v.items()[i];
            key == d.fields[i].0 && seq![tag] + data == value_bytes(d.fields[i].1)
        }),
{
    let s = doc_bytes(d);
    le_round_trip((d.time as u64) as nat, 8);
    le_round_trip(d.fields.len(), 2);
    assert(s.subrange(10, 12) =~= le_bytes(d.fields.len(), 2));
    assert(s.skip(12) =~= fields_bytes(d.fields));
    walk_gives_fields(d.fields);
    assert forall|i: int| 0 <= i < d.fields.len() implies ({
        let (key, tag, data) = #[trigger] v.items()[i];
        key == d.fields[i].0 && seq![tag] + data == value_bytes(d.fields[i].1)
    }) by {
        let b = value_bytes(d.fields[i].1);
        value_is_stepped_over(d.fields[i].1, Seq::empty());
        assert(seq![b[0]] + b.skip(1) =~= b);
    }
}

/// A walk over the fields of a document as they stand in bytes.
pub struct FireLiteDocIter<'a> {
    bytes: &'a [u8],
    pos: usize,
    remaining: u16,
}

impl<'a> FireLiteDocIter<'a> {
    /// The bytes that are still to be read.
    pub closed spec fn rest(&self) -> Seq<u8> {
        self.bytes@.skip(self.pos as int)
    }

    /// The number of fields that are still to be read.
    pub closed spec fn left(&self) -> nat {
        self.remaining as nat
    }

    /// The fields that are still to come.
    pub open spec fn items(&self) -> Seq<(Seq<char>, u8, Seq<u8>)> {
        walk(self.rest(), self.left())
    }

    /// The walk stands inside the bytes.
    pub closed spec fn wf(&self) -> bool {
        self.pos <= self.bytes@.len()
    }

    /// The next field: its key, and the tag and the data of its value. The walk ends
    /// with the last field, or at one that does not parse.
    pub fn next(&mut self) -> (r: Option<(String, u8, &'a [u8])>)
        requires
            old(self).wf(),
        ensures
            final(self).wf(),
            r is Some <==> old(self).left() > 0 && parse_field(old(self).rest()) is Some,
            match (r, parse_field(old(self).rest())) {
                (Some((key, tag, data)), Some((k, t, d, n))) => {
                    &&& key@ == k
                    &&& tag == t
                    &&& data@ == d
                    &&& final(self).left() + 1 == old(self).left()
                    &&& final(self).rest() == old(self).rest().skip(n as int)
                },
                _ => *final(self) == *old(self),
            },
            match r {
                Some((key, tag, data)) => old(self).items() == seq![(key@, tag, data@)] + final(self).items(),
                None => old(self).items().len() == 0,
            },
    {
        if self.remaining == 0 {
            return None;
        }
        let ghost before = self.rest();
        match read_field(self.bytes, self.pos) {
            None => None,
            Some((key, tag, data, end)) => {
                proof {
                    assert(before.skip(end - self.pos) =~= self.bytes@.skip(end as int));
                }
                self.pos = end;
                self.remaining = self.remaining - 1;
                Some((key, tag, data))
            },
        }
    }
}

impl FireLiteDoc {
    /// The document that bytes hold.
    pub fn decode(bytes: &[u8]) -> (r: Option<FireLiteDoc>)
        ensures
            match (r, decode_doc(bytes@)) {
                (Some(d), Some(m)) => d@ == m,
                (None, None) => true,
                _ => false,
            },
    {
        let all: Vec<String> = Vec::new();
        proof {
            assert(names_view(all@) =~= Seq::empty());
        }
        FireLiteDoc::decode_projected(bytes, &all)
    }

    /// The part of the document that bytes hold which a projection keeps. An empty
    /// projection keeps every field.
    pub fn decode_projected(bytes: &[u8], projection: &Vec<String>) -> (r: Option<FireLiteDoc>)
        ensures
            match (r, project_doc(bytes@, names_view(projection@))) {
                (Some(d), Some(m)) => d@ == m,
                (None, None) => true,
                _ => false,
            },
    {
        let view = match FireLiteDocView::new(bytes) {
            None => {
                return None;
            },
            Some(v) => v,
        };
        let ghost p = names_view(projection@);
        let mut fields: Vec<(String, Value)> = Vec::new();
        let mut it = view.iter();
        let ghost whole = decode_doc_fields(bytes@.skip(12), header_count(bytes@), p);
        let mut more: bool = true;
        proof {
            assert(fields_view(fields@) =~= Seq::empty());
            join_empty(whole);
        }
        while more
            invariant
                it.wf(),
                p == names_view(projection@),
                whole == decode_doc_fields(bytes@.skip(12), header_count(bytes@), p),
                has_header(bytes@),
                more ==> whole == join_fields(fields_view(fields@), decode_doc_fields(it.rest(), it.left(), p)),
                !more ==> whole == Some(fields_view(fields@)),
            decreases (if more { 1int } else { 0int }), it.left(),
        {
            let ghost rest = it.rest();
            let ghost left = it.left();
            match it.next() {
                None => {
                    proof {
                        assert(fields_view(fields@) + Seq::<(Seq<char>, Val)>::empty() =~= fields_view(fields@));
                    }
                    more = false;
                },
                Some((key, tag, data)) => {
                    if projection.len() == 0 || names_contain(projection, key.as_str()) {
                        match decode_value(tag, data) {
                            None => {
                                return None;
                            },
                            Some(v) => {
                                proof {
                                    join_step(
                                        fields_view(fields@),
                                        (key@, v@),
                                        decode_doc_fields(it.rest(), it.left(), p),
                                    );
                                    assert(fields_view(fields@.push((key, v))) =~= fields_view(fields@).push(
                                        (key@, v@),
                                    ));
                                }
                                fields.push((key, v));
                            },
                        }
                    }
                },
            }
        }
        Some(FireLiteDoc { fields, _time: view._time })
    }
}

/// The characters of each of some names.
pub open spec fn names_view(names: Seq<String>) -> Seq<Seq<char>> {
    Seq::new(names.len(), |i: int| names[i]@)
}

/// The same names.
pub fn names_copy(names: &Vec<String>) -> (r: Vec<String>)
    ensures
        names_view(r@) == names_view(names@),
{
    let mut r: Vec<String> = Vec::new();
    let mut i: usize = 0;
    while i < names.len()
        invariant
            i <= names@.len(),
            r@.len() == i,
            forall|k: int| 0 <= k < i ==> (#[trigger] r@[k])@ == names@[k]@,
        decreases names@.len() - i,
    {
        r.push(names[i].clone());
        i = i + 1;
    }
    proof {
        assert(names_view(r@) =~= names_view(names@));
    }
    r
}

/// Whether `name` is one of `names`.
pub fn names_contain(names: &Vec<String>, name: &str) -> (r: bool)
    ensures
        r == names_view(names@).contains(name@),
{
    let mut i: usize = 0;
    while i < names.len()
        invariant
            i <= names@.len(),
            forall|k: int| 0 <= k < i ==> names_view(names@)[k] != name@,
        decreases names@.len() - i,
    {
        if same_text(names[i].as_str(), name) {
            proof {
                assert(names_view(names@)[i as int] == name@);
            }
            return true;
        }
        i = i + 1;
    }
    false
}

/// A value as it stands in bytes.
pub struct BorrowedValue<'a> {
    pub tag: u8,
    pub data: &'a [u8],
}

impl<'a> BorrowedValue<'a> {
    /// The value itself.
    pub fn to_owned_value(&self) -> (r: Option<Value>)
        ensures
            stands_for(r, decode_val(self.tag, self.data@)),
    {
        decode_value(self.tag, self.data)
    }

    /// The bits of the number that the value is, if it is one.
    pub fn as_f64(&self) -> (r: Option<u64>)
        ensures
            r == borrowed_number(self.tag, self.data@),
    {
        if 0x10 <= self.tag && self.tag <= 0x1F {
            return Some(signed_to_bits((self.tag - 0x10) as i64));
        }
        if self.tag == 3 {
            if self.data.len() < 4 {
                return None;
            }
            let mut p: usize = 4;
            return match decode_varint(self.data, &mut p) {
                None => None,
                Some(u) => Some(signed_to_bits(zigzag_decode(u))),
            };
        }
        if self.tag == 4 && self.data.len() >= 12 {
            return Some(read_le(self.data, 4, 8));
        }
        None
    }
}

/// The bits of the number that a tag and its data hold, if they hold one.
pub open spec fn borrowed_number(tag: u8, data: Seq<u8>) -> Option<u64> {
    if tag == 3 || tag == 4 || 0x10 <= tag <= 0x1F {
        match decode_val(tag, data) {
            Some(Val::Int(i)) => Some(bits_of_int(i as int) as u64),
            Some(Val::Float(bits)) => Some(bits),
            _ => None,
        }
    } else {
        None
    }
}

} // verus!
