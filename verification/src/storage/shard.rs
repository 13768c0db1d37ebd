//! A collection: where the document of each key lies, and what is still to be written.
use vstd::prelude::*;

use crate::sorted_map::{ascending_entry, SortedMap};
use crate::storage::blob::{works_view, BlobWork, Work};
use crate::storage::pointer::{place_bytes, place_time, Place, Pointer};
use crate::storage::wal::{change_key, ops_view, Change, WalOp};
use crate::document::value::copy_bytes;

verus! {

/// The most values that are written into the blob file at a time.
pub const BLOB_BATCH: usize = 128;

/// A collection.
pub struct Shard {
    pub index: SortedMap<String, Pointer>,
    /// The number of the next batch in the log.
    pub next_tx_id: u64,
    /// The values that are still to be written into the blob file.
    pub blob_flush_queue: Vec<BlobWork>,
    pub pending_blob_bytes: usize,
    /// The end of the blob file, where there is one.
    pub blob_end: Option<u64>,
}

/// Where the documents of keys lie.
pub open spec fn places(m: Map<Seq<char>, Pointer>) -> Map<Seq<char>, Place> {
    Map::new(|k: Seq<char>| m.contains_key(k), |k: Seq<char>| m[k]@)
}

/// The places after an operation.
pub open spec fn applied_one(m: Map<Seq<char>, Place>, c: Change) -> Map<Seq<char>, Place> {
    match c {
        Change::Put { key, value } => m.insert(key, Place::Inlined(value)),
        Change::Delete { key, time } => m.insert(key, Place::Deleted { time }),
        _ => m,
    }
}

/// The places after operations in their order.
pub open spec fn applied(m: Map<Seq<char>, Place>, ops: Seq<Change>) -> Map<Seq<char>, Place>
    decreases ops.len(),
{
    if ops.len() == 0 {
        m
    } else {
        applied_one(applied(m, ops.drop_last()), ops.last())
    }
}

/// The operations that put documents.
pub open spec fn puts_of(ops: Seq<Change>) -> Seq<Change>
    decreases ops.len(),
{
    if ops.len() == 0 {
        ops
    } else if ops.last() is Put {
        puts_of(ops.drop_last()).push(ops.last())
    } else {
        puts_of(ops.drop_last())
    }
}

/// The operations that delete documents.
pub open spec fn deletes_of(ops: Seq<Change>) -> Seq<Change>
    decreases ops.len(),
{
    if ops.len() == 0 {
        ops
    } else if ops.last() is Delete {
        deletes_of(ops.drop_last()).push(ops.last())
    } else {
        deletes_of(ops.drop_last())
    }
}

/// The places after a local batch: its puts first, then its deletes.
pub open spec fn committed(m: Map<Seq<char>, Place>, ops: Seq<Change>) -> Map<Seq<char>, Place> {
    applied(applied(m, puts_of(ops)), deletes_of(ops))
}

/// The number of bytes that wait, after more values have come to wait.
pub open spec fn pending_after(pending: usize, works: Seq<Work>) -> usize
    decreases works.len(),
{
    if works.len() == 0 {
        pending
    } else {
        vstd::wrapping::usize_specs::wrapping_add(pending_after(pending, works.drop_last()), works.last().len as usize)
    }
}

/// The number of bytes that wait, after values were written.
pub open spec fn pending_without(pending: usize, works: Seq<Work>) -> usize
    decreases works.len(),
{
    if works.len() == 0 {
        pending
    } else {
        vstd::wrapping::usize_specs::wrapping_sub(
            pending_without(pending, works.drop_last()),
            works.last().len as usize,
        )
    }
}

/// The places after a value of a document was written: the document that waited for it
/// lies in memory by its bytes, unless it has changed since.
pub open spec fn settled_one(m: Map<Seq<char>, Place>, w: Work) -> Map<Seq<char>, Place> {
    if m.contains_key(w.key) {
        match m[w.key] {
            Place::BlobPending(d) => if d.time == w.time {
                m.insert(w.key, Place::Inlined(w.skeleton))
            } else {
                m
            },
            _ => m,
        }
    } else {
        m
    }
}

/// The places after values were written.
pub open spec fn settled(m: Map<Seq<char>, Place>, works: Seq<Work>) -> Map<Seq<char>, Place>
    decreases works.len(),
{
    if works.len() == 0 {
        m
    } else {
        settled_one(settled(m, works.drop_last()), works.last())
    }
}

/// The latest time in a collection: 0 where it has no keys.
pub open spec fn is_version(m: Map<Seq<char>, Place>, t: i64) -> bool {
    if m.dom() =~= Set::<Seq<char>>::empty() {
        t == 0
    } else {
        &&& exists|k: Seq<char>| #[trigger] m.contains_key(k) && place_time(m[k]) == t
        &&& forall|k: Seq<char>| #[trigger] m.contains_key(k) ==> place_time(m[k]) <= t
    }
}

/// The places without those of deleted documents.
pub open spec fn vacuumed(m: Map<Seq<char>, Place>) -> Map<Seq<char>, Place> {
    m.restrict(Set::new(|k: Seq<char>| m.contains_key(k) && !(m[k] is Deleted)))
}

/// The keys of entries whose documents were not deleted.
pub open spec fn live_keys(entries: Seq<(Seq<char>, Pointer)>) -> Seq<Seq<char>>
    decreases entries.len(),
{
    if entries.len() == 0 {
        Seq::empty()
    } else if entries.last().1 is Deleted {
        live_keys(entries.drop_last())
    } else {
        live_keys(entries.drop_last()).push(entries.last().0)
    }
}

/// Putting an entry into the index puts its place among the places.
pub proof fn places_insert(m: Map<Seq<char>, Pointer>, k: Seq<char>, p: Pointer)
    ensures
        places(m.insert(k, p)) == places(m).insert(k, p@),
{
    assert(places(m.insert(k, p)) =~= places(m).insert(k, p@));
}

/// Operations that leave a key alone leave its place alone.
pub proof fn applied_elsewhere(m: Map<Seq<char>, Place>, ops: Seq<Change>, k: Seq<char>)
    requires
        forall|i: int| 0 <= i < ops.len() ==> change_key(#[trigger] ops[i]) != k,
    ensures
        applied(m, ops).contains_key(k) == m.contains_key(k),
        m.contains_key(k) ==> applied(m, ops)[k] == m[k],
    decreases ops.len(),
{
    if ops.len() > 0 {
        assert(change_key(ops[ops.len() - 1]) != k);
        assert forall|i: int| 0 <= i < ops.drop_last().len() implies change_key(#[trigger] ops.drop_last()[i]) != k by {
            assert(ops.drop_last()[i] == ops[i]);
        }
        applied_elsewhere(m, ops.drop_last(), k);
    }
}

impl Shard {
    /// Where the documents lie.
    pub open spec fn places(&self) -> Map<Seq<char>, Place> {
        places(self.index@)
    }

    pub open spec fn wf(&self) -> bool {
        self.index.wf()
    }

    /// An empty collection. `blob_end` is the end of its blob file, where it has one.
    pub fn new(blob_end: Option<u64>) -> (s: Shard)
        ensures
            s.wf(),
            s.places() == Map::<Seq<char>, Place>::empty(),
            s.next_tx_id == 0,
            s.blob_flush_queue@.len() == 0,
            s.pending_blob_bytes == 0,
            s.blob_end == blob_end,
    {
        let s = Shard {
            index: SortedMap::new(),
            next_tx_id: 0,
            blob_flush_queue: Vec::new(),
            pending_blob_bytes: 0,
            blob_end,
        };
        proof {
            assert(s.places() =~= Map::<Seq<char>, Place>::empty());
        }
        s
    }

    /// Sets where the document of a key lies.
    pub fn update_index_entry(&mut self, key: String, pointer: Pointer)
        requires
            old(self).wf(),
        ensures
            final(self).wf(),
            final(self).places() == old(self).places().insert(key@, pointer@),
            final(self).next_tx_id == old(self).next_tx_id,
            final(self).blob_flush_queue == old(self).blob_flush_queue,
            final(self).pending_blob_bytes == old(self).pending_blob_bytes,
            final(self).blob_end == old(self).blob_end,
    {
        proof {
            places_insert(self.index@, key@, pointer);
        }
        let before = self.index.insert(key, pointer);
    }

    /// The bytes of the document of a key. `read` is what the file holds where the
    /// pointer of the key leads to one.
    pub fn get(&self, key: &String, read: Option<&Vec<u8>>) -> (r: Option<Vec<u8>>)
        requires
            self.wf(),
        ensures
            match (r, document_bytes(self.places(), key@, match read {
                Some(b) => Some(b@),
                None => None,
            })) {
                (Some(b), Some(m)) => b@ == m,
                (None, None) => true,
                _ => false,
            },
    {
        match self.index.get(key) {
            Some(p) => p.bytes(read),
            None => None,
        }
    }

    /// Applies the operations of a local batch: its puts first, then its deletes.
    pub fn commit(&mut self, ops: &Vec<WalOp>)
        requires
            old(self).wf(),
        ensures
            final(self).wf(),
            final(self).places() == committed(old(self).places(), ops_view(ops@)),
            final(self).next_tx_id == old(self).next_tx_id,
            final(self).blob_flush_queue == old(self).blob_flush_queue,
            final(self).pending_blob_bytes == old(self).pending_blob_bytes,
            final(self).blob_end == old(self).blob_end,
    {
        let ghost m = self.places();
        let ghost c = ops_view(ops@);
        let mut i: usize = 0;
        proof {
            assert(c.take(0) =~= Seq::<Change>::empty());
        }
        while i < ops.len()
            invariant
                self.wf(),
                m == old(self).places(),
                c == ops_view(ops@),
                i <= ops@.len(),
                self.places() == applied(m, puts_of(c.take(i as int))),
                self.next_tx_id == old(self).next_tx_id,
                self.blob_flush_queue == old(self).blob_flush_queue,
                self.pending_blob_bytes == old(self).pending_blob_bytes,
                self.blob_end == old(self).blob_end,
            decreases ops@.len() - i,
        {
            proof {
                assert(c.take(i + 1).drop_last() =~= c.take(i as int));
                assert(c.take(i + 1).last() == ops@[i as int]@);
                let p = puts_of(c.take(i as int));
                assert(p.push(c[i as int]).drop_last() =~= p);
            }
            if let WalOp::PutInlined { key, value } = &ops[i] {
                self.update_index_entry(key.clone(), Pointer::Inlined(copy_bytes(value.as_slice())));
            }
            i = i + 1;
        }
        let ghost n = self.places();
        let mut j: usize = 0;
        proof {
            assert(c.take(i as int) =~= c);
            assert(c.take(0) =~= Seq::<Change>::empty());
        }
        while j < ops.len()
            invariant
                self.wf(),
                n == applied(m, puts_of(c)),
                c == ops_view(ops@),
                j <= ops@.len(),
                self.places() == applied(n, deletes_of(c.take(j as int))),
                self.next_tx_id == old(self).next_tx_id,
                self.blob_flush_queue == old(self).blob_flush_queue,
                self.pending_blob_bytes == old(self).pending_blob_bytes,
                self.blob_end == old(self).blob_end,
            decreases ops@.len() - j,
        {
            proof {
                assert(c.take(j + 1).drop_last() =~= c.take(j as int));
                assert(c.take(j + 1).last() == ops@[j as int]@);
                let p = deletes_of(c.take(j as int));
                assert(p.push(c[j as int]).drop_last() =~= p);
            }
            if let WalOp::Delete { key, timestamp } = &ops[j] {
                self.update_index_entry(key.clone(), Pointer::Deleted { timestamp: *timestamp });
            }
            j = j + 1;
        }
        proof {
            assert(c.take(j as int) =~= c);
        }
    }

    /// Applies operations in their order.
    pub fn apply(&mut self, ops: &Vec<WalOp>)
        requires
            old(self).wf(),
        ensures
            final(self).wf(),
            final(self).places() == applied(old(self).places(), ops_view(ops@)),
            final(self).next_tx_id == old(self).next_tx_id,
            final(self).blob_flush_queue == old(self).blob_flush_queue,
            final(self).pending_blob_bytes == old(self).pending_blob_bytes,
            final(self).blob_end == old(self).blob_end,
    {
        let ghost m = self.places();
        let ghost c = ops_view(ops@);
        let mut i: usize = 0;
        proof {
            assert(c.take(0) =~= Seq::<Change>::empty());
        }
        while i < ops.len()
            invariant
                self.wf(),
                m == old(self).places(),
                c == ops_view(ops@),
                i <= ops@.len(),
                self.places() == applied(m, c.take(i as int)),
                self.next_tx_id == old(self).next_tx_id,
                self.blob_flush_queue == old(self).blob_flush_queue,
                self.pending_blob_bytes == old(self).pending_blob_bytes,
                self.blob_end == old(self).blob_end,
            decreases ops@.len() - i,
        {
            proof {
                assert(c.take(i + 1).drop_last() =~= c.take(i as int));
                assert(c.take(i + 1).last() == ops@[i as int]@);
            }
            match &ops[i] {
                WalOp::PutInlined { key, value } => {
                    self.update_index_entry(key.clone(), Pointer::Inlined(copy_bytes(value.as_slice())));
                },
                WalOp::Delete { key, timestamp } => {
                    self.update_index_entry(key.clone(), Pointer::Deleted { timestamp: *timestamp });
                },
                _ => {},
            }
            i = i + 1;
        }
        proof {
            assert(c.take(i as int) =~= c);
        }
    }

    /// Lets values wait to be written into the blob file.
    pub fn queue_blobs(&mut self, works: Vec<BlobWork>)
        ensures
            final(self).index == old(self).index,
            final(self).next_tx_id == old(self).next_tx_id,
            final(self).blob_end == old(self).blob_end,
            works_view(final(self).blob_flush_queue@) == works_view(old(self).blob_flush_queue@) + works_view(works@),
            final(self).pending_blob_bytes == pending_after(old(self).pending_blob_bytes, works_view(works@)),
    {
        let ghost w = works_view(works@);
        let mut pending: usize = self.pending_blob_bytes;
        let mut i: usize = 0;
        proof {
            assert(w.take(0) =~= Seq::<Work>::empty());
        }
        while i < works.len()
            invariant
                i <= works@.len(),
                w == works_view(works@),
                pending == pending_after(self.pending_blob_bytes, w.take(i as int)),
            decreases works@.len() - i,
        {
            proof {
                assert(w.take(i + 1).drop_last() =~= w.take(i as int));
                assert(w.take(i + 1).last() == works@[i as int]@);
            }
            pending = pending.wrapping_add(works[i].len as usize);
            i = i + 1;
        }
        proof {
            assert(w.take(i as int) =~= w);
        }
        let ghost before = self.blob_flush_queue@;
        let mut more = works;
        self.blob_flush_queue.append(&mut more);
        self.pending_blob_bytes = pending;
        proof {
            assert(works_view(self.blob_flush_queue@) =~= works_view(before) + w);
        }
    }

    /// Takes the values that are to be written next.
    pub fn take_blob_batch(&mut self) -> (batch: Vec<BlobWork>)
        ensures
            final(self).index == old(self).index,
            final(self).next_tx_id == old(self).next_tx_id,
            final(self).blob_end == old(self).blob_end,
            final(self).pending_blob_bytes == old(self).pending_blob_bytes,
            batch@ + final(self).blob_flush_queue@ == old(self).blob_flush_queue@,
            batch@.len() == if old(self).blob_flush_queue@.len() < BLOB_BATCH {
                old(self).blob_flush_queue@.len()
            } else {
                BLOB_BATCH as nat
            },
    {
        let n: usize = if self.blob_flush_queue.len() < BLOB_BATCH {
            self.blob_flush_queue.len()
        } else {
            BLOB_BATCH
        };
        let rest = self.blob_flush_queue.split_off(n);
        let mut batch = rest;
        std::mem::swap(&mut self.blob_flush_queue, &mut batch);
        proof {
            assert(batch@ + self.blob_flush_queue@ =~= old(self).blob_flush_queue@);
        }
        batch
    }

    /// Takes note of values that were written into the blob file.
    pub fn complete_blobs(&mut self, done: &Vec<BlobWork>)
        requires
            old(self).wf(),
        ensures
            final(self).wf(),
            final(self).places() == settled(old(self).places(), works_view(done@)),
            final(self).pending_blob_bytes == pending_without(old(self).pending_blob_bytes, works_view(done@)),
            final(self).next_tx_id == old(self).next_tx_id,
            final(self).blob_end == old(self).blob_end,
            final(self).blob_flush_queue == old(self).blob_flush_queue,
    {
        let ghost m = self.places();
        let ghost w = works_view(done@);
        let mut i: usize = 0;
        proof {
            assert(w.take(0) =~= Seq::<Work>::empty());
        }
        while i < done.len()
            invariant
                self.wf(),
                m == old(self).places(),
                w == works_view(done@),
                i <= done@.len(),
                self.places() == settled(m, w.take(i as int)),
                self.pending_blob_bytes == pending_without(old(self).pending_blob_bytes, w.take(i as int)),
                self.next_tx_id == old(self).next_tx_id,
                self.blob_end == old(self).blob_end,
                self.blob_flush_queue == old(self).blob_flush_queue,
            decreases done@.len() - i,
        {
            proof {
                assert(w.take(i + 1).drop_last() =~= w.take(i as int));
                assert(w.take(i + 1).last() == done@[i as int]@);
            }
            let work = &done[i];
            self.pending_blob_bytes = self.pending_blob_bytes.wrapping_sub(work.len as usize);
            let waits: bool = match self.index.get(&work.key) {
                Some(Pointer::BlobPending(d)) => d.get_logical_time() == work.timestamp,
                _ => false,
            };
            if waits {
                self.update_index_entry(work.key.clone(), Pointer::Inlined(copy_bytes(work.skeleton.as_slice())));
            }
            i = i + 1;
        }
        proof {
            assert(w.take(i as int) =~= w);
        }
    }

    /// The latest time of a document or of its end; 0 where there is no key.
    pub fn version(&self) -> (t: i64)
        requires
            self.wf(),
        ensures
            is_version(self.places(), t),
    {
        let ghost s = self.index.seq();
        let ghost m = self.places();
        if self.index.len() == 0 {
            proof {
                assert(m.dom() =~= Set::<Seq<char>>::empty());
            }
            return 0;
        }
        let mut t: i64 = self.index.entry(0).1.time();
        let mut i: usize = 1;
        proof {
            ascending_entry::<String, Pointer>(s, 0);
            assert(m.contains_key(s[0].0));
        }
        while i < self.index.len()
            invariant
                self.wf(),
                s == self.index.seq(),
                m == self.places(),
                1 <= i <= s.len(),
                exists|k: Seq<char>| #[trigger] m.contains_key(k) && place_time(m[k]) == t,
                forall|j: int| 0 <= j < i ==> place_time((#[trigger] s[j]).1@) <= t,
            decreases s.len() - i,
        {
            let u: i64 = self.index.entry(i).1.time();
            proof {
                ascending_entry::<String, Pointer>(s, i as int);
                assert(m.contains_key(s[i as int].0));
                assert(m[s[i as int].0] == s[i as int].1@);
            }
            if u > t {
                t = u;
            }
            i = i + 1;
        }
        proof {
            assert forall|k: Seq<char>| #[trigger] m.contains_key(k) implies place_time(m[k]) <= t by {
                let j = choose|j: int| 0 <= j < s.len() && #[trigger] s[j].0 == k;
                ascending_entry::<String, Pointer>(s, j);
            }
            let k = choose|k: Seq<char>| #[trigger] m.contains_key(k) && place_time(m[k]) == t;
            assert(m.dom().contains(k));
        }
        t
    }

    /// The keys of the documents that were not deleted, in order.
    pub fn live_keys(&self) -> (r: Vec<String>)
        ensures
            crate::document::firelite_doc::names_view(r@) == live_keys(self.index.seq()),
    {
        let ghost s = self.index.seq();
        let mut r: Vec<String> = Vec::new();
        let mut i: usize = 0;
        proof {
            assert(s.take(0) =~= Seq::<(Seq<char>, Pointer)>::empty());
            assert(crate::document::firelite_doc::names_view(r@) =~= Seq::<Seq<char>>::empty());
        }
        while i < self.index.len()
            invariant
                s == self.index.seq(),
                i <= s.len(),
                crate::document::firelite_doc::names_view(r@) == live_keys(s.take(i as int)),
            decreases s.len() - i,
        {
            proof {
                assert(s.take(i + 1).drop_last() =~= s.take(i as int));
                assert(s.take(i + 1).last() == s[i as int]);
            }
            let (k, p) = self.index.entry(i);
            let ghost before = r@;
            match p {
                Pointer::Deleted { .. } => {},
                _ => {
                    r.push(k.clone());
                    proof {
                        assert(crate::document::firelite_doc::names_view(r@)
                            =~= crate::document::firelite_doc::names_view(before).push(s[i as int].0));
                    }
                },
            }
            i = i + 1;
        }
        proof {
            assert(s.take(i as int) =~= s);
        }
        r
    }

    /// Forgets the deleted documents. Hands back how many there were.
    pub fn purge_tombstones(&mut self) -> (n: usize)
        requires
            old(self).wf(),
        ensures
            final(self).wf(),
            final(self).places() == vacuumed(old(self).places()),
            n == old(self).index.seq().len() - final(self).index.seq().len(),
            final(self).next_tx_id == old(self).next_tx_id,
            final(self).blob_flush_queue == old(self).blob_flush_queue,
            final(self).pending_blob_bytes == old(self).pending_blob_bytes,
            final(self).blob_end == old(self).blob_end,
    {
        let ghost m = self.places();
        let mut n: usize = 0;
        let mut i: usize = 0;
        let total: usize = self.index.len();
        while i < self.index.len()
            invariant
                self.wf(),
                i <= self.index.seq().len(),
                n + self.index.seq().len() == total,
                total == old(self).index.seq().len(),
                m == old(self).places(),
                forall|k: Seq<char>| #[trigger] self.places().contains_key(k) ==> m.contains_key(k) && self.places()[k] == m[k],
                forall|k: Seq<char>| #[trigger] m.contains_key(k) && !(m[k] is Deleted) ==> self.places().contains_key(k),
                forall|j: int| 0 <= j < i ==> !((#[trigger] self.index.seq()[j]).1 is Deleted),
                self.next_tx_id == old(self).next_tx_id,
                self.blob_flush_queue == old(self).blob_flush_queue,
                self.pending_blob_bytes == old(self).pending_blob_bytes,
                self.blob_end == old(self).blob_end,
            decreases self.index.seq().len() - i,
        {
            let ghost s = self.index.seq();
            let ghost before = self.places();
            proof {
                ascending_entry::<String, Pointer>(s, i as int);
            }
            let dead: bool = match self.index.entry(i).1 {
                Pointer::Deleted { .. } => true,
                _ => false,
            };
            if dead {
                let gone = self.index.remove_at(i);
                n = n + 1;
                proof {
                    assert(before.contains_key(s[i as int].0));
                    assert(self.places() =~= before.remove(s[i as int].0));
                    assert forall|j: int| 0 <= j < i implies !((#[trigger] self.index.seq()[j]).1 is Deleted) by {
                        assert(self.index.seq()[j] == s[j]);
                    }
                }
            } else {
                i = i + 1;
            }
        }
        proof {
            let s = self.index.seq();
            assert forall|k: Seq<char>| #[trigger] self.places().contains_key(k) implies !(m[k] is Deleted) by {
                let j = choose|j: int| 0 <= j < s.len() && #[trigger] s[j].0 == k;
                ascending_entry::<String, Pointer>(s, j);
                assert(!(s[j].1 is Deleted));
            }
            assert(self.places() =~= vacuumed(m));
        }
        n
    }
}

/// The bytes of the document of a key, where `read` is what the file holds at its place.
pub open spec fn document_bytes(m: Map<Seq<char>, Place>, key: Seq<char>, read: Option<Seq<u8>>) -> Option<Seq<u8>> {
    if m.contains_key(key) {
        place_bytes(m[key], read)
    } else {
        None
    }
}

/// A vacuumed collection has no more deleted documents, and every other document is
/// where it was.
pub proof fn vacuum_keeps_documents(m: Map<Seq<char>, Place>, key: Seq<char>, read: Option<Seq<u8>>)
    ensures
        document_bytes(vacuumed(m), key, read) == document_bytes(m, key, read),
        vacuumed(m).contains_key(key) ==> !(vacuumed(m)[key] is Deleted),
{
}

/// Once a value was written, the document that waited for it lies in memory by its bytes; a
/// document that has changed since, one that does not wait, and every other stays as it is.
pub proof fn written_value_settles(m: Map<Seq<char>, Place>, works: Seq<Work>, w: Work, other: Seq<char>)
    requires
        other != w.key,
    ensures
        settled(m, Seq::empty()) == m,
        ({
            let (p, q) = (settled(m, works), settled(m, works.push(w)));
            &&& q.contains_key(w.key) == p.contains_key(w.key)
            &&& p.contains_key(w.key) ==> (if p[w.key] is BlobPending && p[w.key]->BlobPending_0.time == w.time {
                q[w.key] == Place::Inlined(w.skeleton)
            } else {
                q[w.key] == p[w.key]
            })
            &&& q.contains_key(other) == p.contains_key(other)
            &&& p.contains_key(other) ==> q[other] == p[other]
        }),
{
    assert(works.push(w).drop_last() =~= works);
}

} // verus!
