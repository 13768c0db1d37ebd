//! The records of the index log.
use vstd::prelude::*;
use vstd::utf8::encode_utf8;

use crate::util::fixed::{be_bytes, be_round_trip, be_value, pow256_values, put_be};

verus! {

/// The operation that puts an entry in.
pub const INSERT: u8 = 1;

/// The operation that takes an entry out.
pub const DELETE: u8 = 2;

/// A text or a key behind two bytes with its length.
pub open spec fn counted(s: Seq<u8>) -> Seq<u8> {
    be_bytes(s.len(), 2) + s
}

/// The bytes of a record.
pub open spec fn record_bytes(op: u8, index_id: u32, key: Seq<u8>, doc: Seq<u8>) -> Seq<u8> {
    seq![op] + be_bytes(index_id as nat, 4) + counted(key) + counted(doc)
}

/// A record: the operation, the number of the index, the key, and the bytes of the id.
pub struct Entry {
    pub op: u8,
    pub index_id: u32,
    pub key: Seq<u8>,
    pub doc: Seq<u8>,
}

/// The counted bytes at `at`, and where they end; nothing where they are cut short.
pub open spec fn counted_at(s: Seq<u8>, at: int) -> Option<(Seq<u8>, int)> {
    if s.len() < at + 2 {
        None
    } else {
        let n = be_value(s.subrange(at, at + 2)) as int;
        if s.len() < at + 2 + n {
            None
        } else {
            Some((s.subrange(at + 2, at + 2 + n), at + 2 + n))
        }
    }
}

/// The record at the start of `s`, and how many bytes it took; nothing where it is cut
/// short.
pub open spec fn parse_record(s: Seq<u8>) -> Option<(Entry, nat)> {
    if s.len() < 5 {
        None
    } else {
        match counted_at(s, 5) {
            None => None,
            Some((key, mid)) => match counted_at(s, mid) {
                None => None,
                Some((doc, end)) => Some(
                    (Entry { op: s[0], index_id: be_value(s.subrange(1, 5)) as u32, key, doc }, end as nat),
                ),
            },
        }
    }
}

proof fn counted_reads_back(head: Seq<u8>, body: Seq<u8>, tail: Seq<u8>)
    requires
        body.len() < 0x1_0000,
    ensures
        counted_at(head + counted(body) + tail, head.len() as int) == Some(
            (body, head.len() + counted(body).len() as int),
        ),
        counted(body).len() == 2 + body.len(),
{
    let s = head + counted(body) + tail;
    let at = head.len() as int;
    pow256_values();
    be_round_trip(body.len(), 2);
    assert(s.subrange(at, at + 2) =~= be_bytes(body.len(), 2));
    assert(s.subrange(at + 2, at + 2 + body.len() as int) =~= body);
}

/// A record is read back, whatever follows it, where the key and the id are shorter than
/// 65536 bytes.
pub proof fn record_reads_back(op: u8, index_id: u32, key: Seq<u8>, doc: Seq<u8>, tail: Seq<u8>)
    requires
        key.len() < 0x1_0000,
        doc.len() < 0x1_0000,
    ensures
        parse_record(record_bytes(op, index_id, key, doc) + tail) == Some(
            (Entry { op, index_id, key, doc }, record_bytes(op, index_id, key, doc).len()),
        ),
{
    let r = record_bytes(op, index_id, key, doc);
    let s = r + tail;
    let head = seq![op] + be_bytes(index_id as nat, 4);
    pow256_values();
    be_round_trip(index_id as nat, 4);
    assert(s.subrange(1, 5) =~= be_bytes(index_id as nat, 4));
    counted_reads_back(head, key, counted(doc) + tail);
    assert(s =~= head + counted(key) + (counted(doc) + tail));
    counted_reads_back(head + counted(key), doc, tail);
    assert(s =~= (head + counted(key)) + counted(doc) + tail);
    assert((head + counted(key)).len() == 5 + counted(key).len());
    assert(r.len() == 5 + counted(key).len() + counted(doc).len());
}

/// A record that was cut short does not parse.
pub proof fn torn_record(op: u8, index_id: u32, key: Seq<u8>, doc: Seq<u8>, n: int)
    requires
        key.len() < 0x1_0000,
        doc.len() < 0x1_0000,
        0 <= n < record_bytes(op, index_id, key, doc).len(),
    ensures
        parse_record(record_bytes(op, index_id, key, doc).take(n)) is None,
{
    let r = record_bytes(op, index_id, key, doc);
    let s = r.take(n);
    record_reads_back(op, index_id, key, doc, Seq::empty());
    assert(r + Seq::<u8>::empty() =~= r);
    if s.len() >= 5 {
        if s.len() >= 7 {
            assert(s.subrange(5, 7) =~= r.subrange(5, 7));
            match counted_at(s, 5) {
                None => {},
                Some((k, mid)) => {
                    assert(s.subrange(7, mid) =~= r.subrange(7, mid));
                    if s.len() >= mid + 2 {
                        assert(s.subrange(mid, mid + 2) =~= r.subrange(mid, mid + 2));
                    }
                },
            }
        }
    }
}

/// The bytes of a record.
pub fn encode_entry(op: u8, index_id: u32, key: &[u8], doc: &str) -> (out: Vec<u8>)
    ensures
        out@ == record_bytes(op, index_id, key@, encode_utf8(doc@)),
{
    let mut out: Vec<u8> = Vec::new();
    out.push(op);
    put_be(&mut out, index_id as u64, 4);
    put_counted(&mut out, key);
    put_counted(&mut out, doc.as_bytes());
    proof {
        assert(out@ =~= record_bytes(op, index_id, key@, encode_utf8(doc@)));
    }
    out
}

/// Appends bytes behind two bytes with their length.
pub fn put_counted(out: &mut Vec<u8>, s: &[u8])
    ensures
        final(out)@ == old(out)@ + counted(s@),
{
    let ghost before = out@;
    put_be(out, s.len() as u64, 2);
    out.extend_from_slice(s);
    proof {
        assert(out@ =~= before + counted(s@));
    }
}

} // verus!
