//! The operations that a collection logs and that replicas exchange.
use vstd::prelude::*;

use crate::document::firelite_doc::{doc_bytes, header_time, Doc};
use crate::document::value::copy_bytes;
use crate::util::fixed::{i64_bits, le_bytes, le_round_trip, pow256_values, read_le};

verus! {

/// One operation on a key.
#[derive(Debug)]
pub enum WalOp {
    /// A document by its bytes.
    PutInlined { key: String, value: Vec<u8> },
    /// A document whose bytes lie in a segment file.
    Put { key: String, segment_id: u64, segment_offset: u64, len: u32 },
    /// A document whose bytes lie in the blob file.
    PutBlob { key: String, offset: u64, len: u32 },
    /// The end of a document.
    Delete { key: String, timestamp: i64 },
}

/// What an operation says.
pub enum Change {
    Put { key: Seq<char>, value: Seq<u8> },
    Segment { key: Seq<char>, segment_id: u64, offset: u64, len: u32 },
    Blob { key: Seq<char>, offset: u64, len: u32 },
    Delete { key: Seq<char>, time: i64 },
}

impl View for WalOp {
    type V = Change;

    open spec fn view(&self) -> Change {
        match *self {
            WalOp::PutInlined { key, value } => Change::Put { key: key@, value: value@ },
            WalOp::Put { key, segment_id, segment_offset, len } => Change::Segment {
                key: key@,
                segment_id,
                offset: segment_offset,
                len,
            },
            WalOp::PutBlob { key, offset, len } => Change::Blob { key: key@, offset, len },
            WalOp::Delete { key, timestamp } => Change::Delete { key: key@, time: timestamp },
        }
    }
}

/// What operations say.
pub open spec fn ops_view(ops: Seq<WalOp>) -> Seq<Change> {
    Seq::new(ops.len(), |i: int| ops[i]@)
}

/// The key of an operation.
pub open spec fn change_key(c: Change) -> Seq<char> {
    match c {
        Change::Put { key, .. } => key,
        Change::Segment { key, .. } => key,
        Change::Blob { key, .. } => key,
        Change::Delete { key, .. } => key,
    }
}

/// The time in the header of a document; 0 where the bytes are too short for one.
pub open spec fn stamp_of(bytes: Seq<u8>) -> i64 {
    if bytes.len() < 10 {
        0
    } else {
        header_time(bytes)
    }
}

/// The time of an operation; 0 where it does not carry one.
pub open spec fn change_time(c: Change) -> i64 {
    match c {
        Change::Put { value, .. } => stamp_of(value),
        Change::Delete { time, .. } => time,
        _ => 0,
    }
}

/// The header of a document carries its time.
pub proof fn stamp_of_document(d: Doc)
    ensures
        stamp_of(doc_bytes(d)) == d.time,
{
    let s = doc_bytes(d);
    le_round_trip((d.time as u64) as nat, 8);
    pow256_values();
    i64_bits(d.time, 0);
    assert(s.subrange(2, 10) =~= le_bytes((d.time as u64) as nat, 8));
}

/// Reads the time in the header of a document; 0 where the bytes are too short for one.
pub fn stamp(bytes: &[u8]) -> (t: i64)
    ensures
        t == stamp_of(bytes@),
{
    if bytes.len() < 10 {
        return 0;
    }
    read_le(bytes, 2, 8) as i64
}

impl WalOp {
    /// The key of the operation.
    pub fn get_key(&self) -> (k: &String)
        ensures
            k@ == change_key(self@),
    {
        match self {
            WalOp::PutInlined { key, .. } => key,
            WalOp::Put { key, .. } => key,
            WalOp::PutBlob { key, .. } => key,
            WalOp::Delete { key, .. } => key,
        }
    }

    /// The time of the operation; 0 where it does not carry one.
    pub fn time(&self) -> (t: i64)
        ensures
            t == change_time(self@),
    {
        match self {
            WalOp::PutInlined { value, .. } => stamp(value.as_slice()),
            WalOp::Delete { timestamp, .. } => *timestamp,
            _ => 0,
        }
    }
}

impl Clone for WalOp {
    fn clone(&self) -> (r: WalOp)
        ensures
            r@ == self@,
    {
        match self {
            WalOp::PutInlined { key, value } => WalOp::PutInlined { key: key.clone(), value: copy_bytes(value.as_slice()) },
            WalOp::Put { key, segment_id, segment_offset, len } => WalOp::Put {
                key: key.clone(),
                segment_id: *segment_id,
                segment_offset: *segment_offset,
                len: *len,
            },
            WalOp::PutBlob { key, offset, len } => WalOp::PutBlob { key: key.clone(), offset: *offset, len: *len },
            WalOp::Delete { key, timestamp } => WalOp::Delete { key: key.clone(), timestamp: *timestamp },
        }
    }
}

/// A change is about its own key, and has the time of its document or of the deletion.
pub proof fn change_tells(key: Seq<char>, d: Doc, time: i64)
    ensures
        change_key(Change::Put { key, value: doc_bytes(d) }) == key,
        change_time(Change::Put { key, value: doc_bytes(d) }) == d.time,
        change_key(Change::Delete { key, time }) == key,
        change_time(Change::Delete { key, time }) == time,
{
    stamp_of_document(d);
}

} // verus!
