//! A log of records: each its length, a key and a document.
use vstd::prelude::*;
use vstd::utf8::{decode_utf8, encode_utf8, valid_utf8};

use crate::document::value::copy_bytes;
use crate::error::HakoError;
use crate::text::text_of_utf8;
use crate::util::fixed::{le_bytes, le_round_trip, le_value, pow256_values, put_le, read_le};

verus! {

/// A record: a key and the bytes of a document.
#[derive(Debug)]
pub struct Record {
    pub key: String,
    pub doc: Vec<u8>,
}

/// What a record stands for.
#[verifier::ext_equal]
pub struct Rec {
    pub key: Seq<char>,
    pub doc: Seq<u8>,
}

impl View for Record {
    type V = Rec;

    open spec fn view(&self) -> Rec {
        Rec { key: self.key@, doc: self.doc@ }
    }
}

/// The body of a record: the length of the key, the key, the length of the document, and
/// the document.
pub open spec fn record_body(r: Rec) -> Seq<u8> {
    le_bytes(encode_utf8(r.key).len(), 4) + encode_utf8(r.key) + le_bytes(r.doc.len(), 4) + r.doc
}

/// The length of a record without the four bytes before it.
pub open spec fn body_len(r: Rec) -> nat {
    8 + encode_utf8(r.key).len() + r.doc.len()
}

/// The bytes of a record.
pub open spec fn record_bytes(r: Rec) -> Seq<u8> {
    le_bytes(body_len(r), 4) + record_body(r)
}

/// The record that a body holds; nothing where it is cut short or the key is not UTF-8.
pub open spec fn parse_body(s: Seq<u8>) -> Option<Rec> {
    if s.len() < 4 {
        None
    } else {
        let k = le_value(s.take(4)) as int;
        if s.len() < 8 + k || !valid_utf8(s.subrange(4, 4 + k)) {
            None
        } else {
            let d = le_value(s.subrange(4 + k, 8 + k)) as int;
            if s.len() < 8 + k + d {
                None
            } else {
                Some(Rec { key: decode_utf8(s.subrange(4, 4 + k)), doc: s.subrange(8 + k, 8 + k + d) })
            }
        }
    }
}

/// The body of the record at `at`; nothing where the log ends before it does.
pub open spec fn body_at(s: Seq<u8>, at: int) -> Option<Seq<u8>> {
    if at < 0 || s.len() < at + 4 {
        None
    } else {
        let n = le_value(s.subrange(at, at + 4)) as int;
        if s.len() < at + 4 + n {
            None
        } else {
            Some(s.subrange(at + 4, at + 4 + n))
        }
    }
}

/// The keys of the records from `at` on, each with the place of its record. A record that
/// does not parse is passed over; one that is cut short ends the log.
pub open spec fn scan_from(s: Seq<u8>, at: int) -> Seq<(Seq<char>, int)>
    decreases s.len() - at,
{
    match body_at(s, at) {
        None => Seq::empty(),
        Some(body) => {
            let rest = scan_from(s, at + 4 + body.len());
            match parse_body(body) {
                Some(r) => seq![(r.key, at)] + rest,
                None => rest,
            }
        },
    }
}

/// The body of a record is read back, where its length fits in four bytes.
pub proof fn body_reads_back(r: Rec)
    requires
        body_len(r) < 0x1_0000_0000,
    ensures
        parse_body(record_body(r)) == Some(r),
        record_body(r).len() == body_len(r),
{
    let s = record_body(r);
    let u = encode_utf8(r.key);
    let k = u.len() as int;
    pow256_values();
    le_round_trip(u.len(), 4);
    le_round_trip(r.doc.len(), 4);
    vstd::utf8::encode_utf8_valid_utf8(r.key);
    vstd::utf8::encode_utf8_decode_utf8(r.key);
    assert(s.take(4) =~= le_bytes(u.len(), 4));
    assert(s.subrange(4, 4 + k) =~= u);
    assert(s.subrange(4 + k, 8 + k) =~= le_bytes(r.doc.len(), 4));
    assert(s.subrange(8 + k, 8 + k + r.doc.len()) =~= r.doc);
}

/// A record that was appended is read back at the end of the log before it.
pub proof fn appended_reads_back(log: Seq<u8>, r: Rec)
    requires
        body_len(r) < 0x1_0000_0000,
    ensures
        body_at(log + record_bytes(r), log.len() as int) == Some(record_body(r)),
        parse_body(record_body(r)) == Some(r),
{
    let s = log + record_bytes(r);
    let at = log.len() as int;
    body_reads_back(r);
    pow256_values();
    le_round_trip(body_len(r), 4);
    assert(s.subrange(at, at + 4) =~= le_bytes(body_len(r), 4));
    assert(s.subrange(at + 4, at + 4 + body_len(r)) =~= record_body(r));
}

/// A log of complete records ends where its last record does.
pub open spec fn complete(s: Seq<u8>, at: int) -> bool
    decreases s.len() - at,
{
    at == s.len() || match body_at(s, at) {
        None => false,
        Some(body) => complete(s, at + 4 + body.len()),
    }
}

/// A scan of a log of complete records lists a record that was appended, behind all others.
pub proof fn appended_is_scanned(log: Seq<u8>, r: Rec, at: int)
    requires
        body_len(r) < 0x1_0000_0000,
        0 <= at <= log.len(),
        complete(log, at),
    ensures
        scan_from(log + record_bytes(r), at) == scan_from(log, at).push((r.key, log.len() as int)),
        complete(log + record_bytes(r), at),
    decreases log.len() - at,
{
    let s = log + record_bytes(r);
    body_reads_back(r);
    pow256_values();
    le_round_trip(body_len(r), 4);
    if at == log.len() {
        appended_reads_back(log, r);
        let end = at + 4 + record_body(r).len() as int;
        assert(end == s.len());
        assert(body_at(s, end) is None);
        assert(scan_from(s, end) =~= Seq::empty());
        assert(body_at(log, at) is None);
        assert(scan_from(log, at) =~= Seq::empty());
        assert(scan_from(s, at) =~= seq![(r.key, at)]);
        assert(scan_from(log, at).push((r.key, at)) =~= seq![(r.key, at)]);
        assert(complete(s, end));
    } else {
        let body = body_at(log, at)->Some_0;
        assert(s.subrange(at, at + 4) =~= log.subrange(at, at + 4));
        assert(s.subrange(at + 4, at + 4 + body.len() as int) =~= body);
        appended_is_scanned(log, r, at + 4 + body.len() as int);
        assert(scan_from(s, at) =~= scan_from(log, at).push((r.key, log.len() as int)));
    }
}

/// The bytes of a record. Its length must fit in four bytes.
pub fn encode_record(record: &Record) -> (buf: Vec<u8>)
    requires
        body_len(record@) < 0x1_0000_0000,
    ensures
        buf@ == record_bytes(record@),
{
    let key = record.key.as_str().as_bytes();
    let key_len: u64 = key.len() as u64;
    let doc_len: u64 = record.doc.len() as u64;
    let mut buf: Vec<u8> = Vec::new();
    put_le(&mut buf, 8 + key_len + doc_len, 4);
    put_le(&mut buf, key_len, 4);
    buf.extend_from_slice(key);
    put_le(&mut buf, doc_len, 4);
    buf.extend_from_slice(record.doc.as_slice());
    proof {
        assert(buf@ =~= record_bytes(record@));
    }
    buf
}

/// The record that a body holds. An error where the body is cut short or the key is not
/// UTF-8.
pub fn decode_record(buf: &[u8]) -> (r: Result<Record, HakoError>)
    ensures
        match r {
            Ok(record) => parse_body(buf@) == Some(record@),
            Err(e) => parse_body(buf@) is None && (e matches HakoError::Corrupt(m) && m@ == "invalid record"@),
        },
{
    match parse(buf) {
        Some(record) => Ok(record),
        None => Err(HakoError::Corrupt("invalid record".to_owned())),
    }
}

fn parse(buf: &[u8]) -> (r: Option<Record>)
    ensures
        match (r, parse_body(buf@)) {
            (Some(record), Some(m)) => record@ == m,
            (None, None) => true,
            _ => false,
        },
{
    let total: usize = buf.len();
    if total < 4 {
        return None;
    }
    proof {
        pow256_values();
        assert(buf@.subrange(0, 4) =~= buf@.take(4));
    }
    let k: u64 = read_le(buf, 0, 4);
    if (total as u64) < 8 || k > (total - 8) as u64 {
        return None;
    }
    let k: usize = k as usize;
    let key = match text_of_utf8(vstd::slice::slice_subrange(buf, 4, 4 + k)) {
        Some(key) => key,
        None => {
            return None;
        },
    };
    let d: u64 = read_le(buf, 4 + k, 4);
    if d > (total - 8 - k) as u64 {
        return None;
    }
    let d: usize = d as usize;
    let doc = copy_bytes(vstd::slice::slice_subrange(buf, 8 + k, 8 + k + d));
    Some(Record { key, doc })
}

/// A log, by its bytes.
pub struct Log {
    pub bytes: Vec<u8>,
}

impl Log {
    /// The log that the given bytes are.
    pub fn open(bytes: Vec<u8>) -> (r: Log)
        ensures
            r.bytes@ == bytes@,
    {
        Log { bytes }
    }

    /// Appends a record, and hands back where it stands.
    pub fn append(&mut self, record: &Record) -> (at: u64)
        requires
            body_len(record@) < 0x1_0000_0000,
        ensures
            at == old(self).bytes@.len(),
            final(self).bytes@ == old(self).bytes@ + record_bytes(record@),
    {
        let at: u64 = self.bytes.len() as u64;
        let encoded = encode_record(record);
        self.bytes.extend_from_slice(encoded.as_slice());
        proof {
            assert(self.bytes@ =~= old(self).bytes@ + record_bytes(record@));
        }
        at
    }

    /// The body of the record at `at`.
    fn body(&self, at: usize) -> (r: Option<&[u8]>)
        ensures
            match (r, body_at(self.bytes@, at as int)) {
                (Some(b), Some(m)) => b@ == m,
                (None, None) => true,
                _ => false,
            },
    {
        let total: usize = self.bytes.len();
        if at > total || total - at < 4 {
            return None;
        }
        proof {
            pow256_values();
        }
        let n: u64 = read_le(self.bytes.as_slice(), at, 4);
        if n > (total - at - 4) as u64 {
            return None;
        }
        Some(vstd::slice::slice_subrange(self.bytes.as_slice(), at + 4, at + 4 + n as usize))
    }

    /// The record at `offset`. An error where the log ends before it does, or where it does
    /// not parse.
    pub fn read_at(&self, offset: u64) -> (r: Result<Record, HakoError>)
        ensures
            match r {
                Ok(record) => body_at(self.bytes@, offset as int) matches Some(b) && parse_body(b) == Some(record@),
                Err(e) => match body_at(self.bytes@, offset as int) {
                    Some(b) => parse_body(b) is None && (e matches HakoError::Corrupt(m) && m@ == "invalid record"@),
                    None => e matches HakoError::Io(m) && m@ == "failed to fill whole buffer"@,
                },
            },
    {
        let total: usize = self.bytes.len();
        if offset <= total as u64 {
            match self.body(offset as usize) {
                Some(b) => {
                    return decode_record(b);
                },
                None => {},
            }
        }
        Err(HakoError::Io("failed to fill whole buffer".to_owned()))
    }

    /// The keys of the records, each with the place of its record.
    pub fn scan(&self) -> (r: Vec<(String, u64)>)
        ensures
            r@.len() == scan_from(self.bytes@, 0).len(),
            forall|i: int|
                0 <= i < r@.len() ==> (#[trigger] r@[i]).0@ == scan_from(self.bytes@, 0)[i].0 && r@[i].1 == scan_from(
                    self.bytes@,
                    0,
                )[i].1,
    {
        let total: usize = self.bytes.len();
        let ghost want = scan_from(self.bytes@, 0);
        let mut r: Vec<(String, u64)> = Vec::new();
        let mut at: usize = 0;
        let mut more: bool = true;
        let ghost mut done: Seq<(Seq<char>, int)> = Seq::empty();
        proof {
            assert(done + want =~= want);
        }
        while more
            invariant
                at <= total == self.bytes@.len(),
                r@.len() == done.len(),
                forall|i: int| 0 <= i < r@.len() ==> (#[trigger] r@[i]).0@ == done[i].0 && r@[i].1 == done[i].1,
                more ==> want == done + scan_from(self.bytes@, at as int),
                !more ==> want == done,
            decreases (if more {
                1int
            } else {
                0int
            }), total - at,
        {
            match self.body(at) {
                None => {
                    proof {
                        assert(done + Seq::<(Seq<char>, int)>::empty() =~= done);
                    }
                    more = false;
                },
                Some(b) => {
                    let ghost rest = scan_from(self.bytes@, at + 4 + b@.len() as int);
                    match parse(b) {
                        Some(record) => {
                            proof {
                                assert(done + (seq![(record.key@, at as int)] + rest) =~= done.push(
                                    (record.key@, at as int),
                                ) + rest);
                                done = done.push((record.key@, at as int));
                            }
                            r.push((record.key, at as u64));
                        },
                        None => {},
                    }
                    at = at + 4 + b.len();
                },
            }
        }
        r
    }
}

} // verus!
