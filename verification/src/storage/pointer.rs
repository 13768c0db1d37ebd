//! Where the document of a key lies.
use vstd::prelude::*;

use crate::document::firelite_doc::{doc_bytes, Doc, FireLiteDoc};
use crate::document::value::copy_bytes;
use crate::storage::wal::{stamp, stamp_of, stamp_of_document};

verus! {

/// Where the document of a key lies.
#[derive(Debug)]
pub enum Pointer {
    /// In memory, by its bytes.
    Inlined(Vec<u8>),
    /// In memory, until its values that are kept aside are on disk.
    BlobPending(FireLiteDoc),
    /// In memory, with the data that is to be kept aside.
    BlobPendingData { data: Vec<u8>, skeleton: Vec<u8> },
    /// Nowhere: the document was deleted.
    Deleted { timestamp: i64 },
    /// In a segment file.
    Segment { segment_id: u64, offset: u64, len: u32 },
    /// In the blob file.
    Blob { offset: u64, len: u32 },
}

/// What a pointer stands for.
pub enum Place {
    Inlined(Seq<u8>),
    BlobPending(Doc),
    BlobPendingData { data: Seq<u8>, skeleton: Seq<u8> },
    Deleted { time: i64 },
    Segment { segment_id: u64, offset: u64, len: u32 },
    Blob { offset: u64, len: u32 },
}

impl View for Pointer {
    type V = Place;

    open spec fn view(&self) -> Place {
        match *self {
            Pointer::Inlined(b) => Place::Inlined(b@),
            Pointer::BlobPending(d) => Place::BlobPending(d@),
            Pointer::BlobPendingData { data, skeleton } => Place::BlobPendingData { data: data@, skeleton: skeleton@ },
            Pointer::Deleted { timestamp } => Place::Deleted { time: timestamp },
            Pointer::Segment { segment_id, offset, len } => Place::Segment { segment_id, offset, len },
            Pointer::Blob { offset, len } => Place::Blob { offset, len },
        }
    }
}

/// The time of a document or of its end; 0 where memory does not tell.
pub open spec fn place_time(p: Place) -> i64 {
    match p {
        Place::Inlined(b) => stamp_of(b),
        Place::BlobPending(d) => d.time,
        Place::Deleted { time } => time,
        _ => 0,
    }
}

/// As `place_time`, and the time of a document whose data is still to be kept aside.
pub open spec fn place_time_pending(p: Place) -> i64 {
    match p {
        Place::BlobPendingData { skeleton, .. } => stamp_of(skeleton),
        _ => place_time(p),
    }
}

/// The bytes of the document at a place, where `read` is what the file holds there.
pub open spec fn place_bytes(p: Place, read: Option<Seq<u8>>) -> Option<Seq<u8>> {
    match p {
        Place::Inlined(b) => Some(b),
        Place::BlobPending(d) => Some(doc_bytes(d)),
        Place::BlobPendingData { skeleton, .. } => Some(skeleton),
        Place::Deleted { .. } => None,
        _ => read,
    }
}

impl Pointer {
    /// The time of the document or of its end; 0 where memory does not tell.
    pub fn time(&self) -> (t: i64)
        ensures
            t == place_time(self@),
    {
        match self {
            Pointer::Inlined(b) => stamp(b.as_slice()),
            Pointer::BlobPending(d) => d.get_logical_time(),
            Pointer::Deleted { timestamp } => *timestamp,
            _ => 0,
        }
    }

    /// As `time`, and the time of a document whose data is still to be kept aside.
    pub fn time_pending(&self) -> (t: i64)
        ensures
            t == place_time_pending(self@),
    {
        match self {
            Pointer::BlobPendingData { skeleton, .. } => stamp(skeleton.as_slice()),
            _ => self.time(),
        }
    }

    /// The bytes of the document, where `read` is what the file holds at the pointer.
    pub fn bytes(&self, read: Option<&Vec<u8>>) -> (r: Option<Vec<u8>>)
        ensures
            match (r, place_bytes(self@, match read {
                Some(b) => Some(b@),
                None => None,
            })) {
                (Some(b), Some(m)) => b@ == m,
                (None, None) => true,
                _ => false,
            },
    {
        match self {
            Pointer::Inlined(b) => Some(copy_bytes(b.as_slice())),
            Pointer::BlobPending(d) => Some(d.encode()),
            Pointer::BlobPendingData { skeleton, .. } => Some(copy_bytes(skeleton.as_slice())),
            Pointer::Deleted { .. } => None,
            _ => match read {
                Some(b) => Some(copy_bytes(b.as_slice())),
                None => None,
            },
        }
    }
}

/// A document that lies in memory, or waits for its values to be written, has its own bytes and
/// its own time; one that was deleted has no bytes and the time of its end; the bytes of any other
/// are those that were read.
pub proof fn place_tells(d: Doc, time: i64, read: Option<Seq<u8>>, p: Place)
    ensures
        place_bytes(Place::Inlined(doc_bytes(d)), read) == Some(doc_bytes(d)),
        place_time(Place::Inlined(doc_bytes(d))) == d.time,
        place_bytes(Place::BlobPending(d), read) == Some(doc_bytes(d)),
        place_time(Place::BlobPending(d)) == d.time,
        place_bytes(Place::Deleted { time }, read) is None,
        place_time(Place::Deleted { time }) == time,
        place_time_pending(Place::Deleted { time }) == time,
        place_time_pending(Place::Inlined(doc_bytes(d))) == d.time,
        p is Segment || p is Blob ==> place_bytes(p, read) == read,
        p matches Place::BlobPendingData { skeleton, .. } ==> place_bytes(p, read) == Some(skeleton) && (skeleton
            == doc_bytes(d) ==> place_time_pending(p) == d.time),
{
    stamp_of_document(d);
}

} // verus!
