//! Changes that come from another node: the newest of each key stays.
use vstd::prelude::*;
use vstd::string::*;

use crate::cloud_sync::ingest::EchoCache;
use crate::document::firelite_doc::{decode_doc, doc_bytes, Doc, FireLiteDoc};
use crate::engine::engine::{is_shard, op_keys, same_setup, speaks_of, Hako};
use crate::engine::files::{read_doc, FileReads};
use crate::engine::remote::{put_docs, remote_time};
use crate::engine::versions::bumped;
use crate::engine::write::{shards_wf, Applied};
use crate::index::composite::composite_index::docs_view;
use crate::storage::blob::{
    doc_end, doc_works, extract_blobs, skeleton_doc, skeleton_is_read, works_view, BlobWork, Work,
};
use crate::storage::pointer::{place_bytes, Place, Pointer};
use crate::storage::shard::{pending_after, puts_of, Shard};
use crate::storage::wal::{change_key, change_time, ops_view, stamp, stamp_of, stamp_of_document, Change, WalOp};
use crate::text::{chars_of, same_text, text_of};

verus! {

/// The time of what lies at a place: that of the document there, 0 where it cannot be read.
pub open spec fn local_time(p: Place, read: Option<Seq<u8>>) -> i64 {
    match p {
        Place::Deleted { time } => time,
        Place::Inlined(b) => stamp_of(b),
        _ => match place_bytes(p, read) {
            Some(b) => match decode_doc(b) {
                Some(d) => d.time,
                None => 0,
            },
            None => 0,
        },
    }
}

/// The time of what lies at a place.
fn time_here(p: &Pointer, read: Option<&Vec<u8>>) -> (t: i64)
    ensures
        t == local_time(p@, match read {
            Some(b) => Some(b@),
            None => None,
        }),
{
    match p {
        Pointer::Deleted { timestamp } => *timestamp,
        Pointer::Inlined(b) => stamp(b.as_slice()),
        _ => match p.bytes(read) {
            Some(b) => match FireLiteDoc::decode(b.as_slice()) {
                Some(d) => d.get_logical_time(),
                None => 0,
            },
            None => 0,
        },
    }
}

/// What is taken of a batch: the operations as they go into the log, the documents that come
/// or end, the values that are kept aside, and the end of the blob file behind them.
#[verifier::ext_equal]
pub struct Taken {
    pub ops: Seq<Change>,
    pub docs: Seq<(Seq<char>, Option<Doc>)>,
    pub works: Seq<Work>,
    pub end: Option<u64>,
}

/// Whether an operation is newer than what lies here.
pub open spec fn beats(m: Map<Seq<char>, Place>, reads: FileReads, op: Change) -> bool {
    !m.contains_key(change_key(op)) || remote_time(op) > local_time(
        m[change_key(op)],
        read_doc(reads, change_key(op)),
    )
}

/// One more operation of a batch: it is taken if it is newer than what lay here before the
/// batch. Large values of a document are kept aside.
pub open spec fn take_step(t: Taken, op: Change, m: Map<Seq<char>, Place>, reads: FileReads, threshold: nat) -> Taken {
    match op {
        Change::Put { key, value } => match decode_doc(value) {
            None => t,
            Some(d) => if !beats(m, reads, op) {
                t
            } else {
                let lean = skeleton_doc(d, threshold, t.end);
                Taken {
                    ops: t.ops.push(Change::Put { key, value: doc_bytes(lean) }),
                    docs: t.docs.push((key, Some(lean))),
                    works: t.works + doc_works(key, d, threshold, t.end),
                    end: doc_end(d, threshold, t.end),
                }
            },
        },
        Change::Delete { key, .. } => if !beats(m, reads, op) {
            t
        } else {
            Taken { ops: t.ops.push(op), docs: t.docs.push((key, None)), works: t.works, end: t.end }
        },
        _ => t,
    }
}

/// What is taken of a batch.
pub open spec fn taken(
    ops: Seq<Change>,
    m: Map<Seq<char>, Place>,
    end: Option<u64>,
    reads: FileReads,
    threshold: nat,
) -> Taken
    decreases ops.len(),
{
    if ops.len() == 0 {
        Taken { ops: Seq::empty(), docs: Seq::empty(), works: Seq::empty(), end }
    } else {
        take_step(taken(ops.drop_last(), m, end, reads, threshold), ops.last(), m, reads, threshold)
    }
}

/// Whether a value of a document is kept aside.
pub open spec fn has_work(works: Seq<Work>, key: Seq<char>) -> bool {
    exists|i: int| 0 <= i < works.len() && (#[trigger] works[i]).key == key
}

/// The time of the first deletion of a key in a batch.
pub open spec fn first_delete(ops: Seq<Change>, key: Seq<char>) -> i64
    decreases ops.len(),
{
    if ops.len() == 0 {
        0
    } else {
        match ops[0] {
            Change::Delete { key: k, time } => if k == key {
                time
            } else {
                first_delete(ops.drop_first(), key)
            },
            _ => first_delete(ops.drop_first(), key),
        }
    }
}

/// Where the documents of a batch lie: by their bytes, or, while values of them wait to be
/// written into the blob file, as they are.
pub open spec fn placed(
    m: Map<Seq<char>, Place>,
    docs: Seq<(Seq<char>, Option<Doc>)>,
    works: Seq<Work>,
    ops: Seq<Change>,
) -> Map<Seq<char>, Place>
    decreases docs.len(),
{
    if docs.len() == 0 {
        m
    } else {
        let before = placed(m, docs.drop_last(), works, ops);
        let (key, doc) = docs.last();
        match doc {
            Some(d) => before.insert(key, if has_work(works, key) {
                Place::BlobPending(d)
            } else {
                Place::Inlined(doc_bytes(d))
            }),
            None => before.insert(key, Place::Deleted { time: first_delete(ops, key) }),
        }
    }
}

/// What is remembered of operations that were taken.
pub open spec fn noted(m: Map<Seq<char>, i64>, ops: Seq<Change>) -> Map<Seq<char>, i64>
    decreases ops.len(),
{
    if ops.len() == 0 {
        m
    } else {
        noted(m, ops.drop_last()).insert(change_key(ops.last()), change_time(ops.last()))
    }
}

/// A batch as taken.
struct Intake {
    ops: Vec<WalOp>,
    docs: Vec<(String, Option<FireLiteDoc>)>,
    works: Vec<BlobWork>,
    end: Option<u64>,
}

/// The documents of a batch that come or end.
pub open spec fn opt_docs(s: Seq<(String, Option<FireLiteDoc>)>) -> Seq<(Seq<char>, Option<Doc>)> {
    Seq::new(
        s.len(),
        |i: int|
            (s[i].0@, match s[i].1 {
                Some(d) => Some(d@),
                None => None,
            }),
    )
}

impl Intake {
    spec fn model(&self) -> Taken {
        Taken {
            ops: ops_view(self.ops@),
            docs: opt_docs(self.docs@),
            works: works_view(self.works@),
            end: self.end,
        }
    }
}

/// Whether an operation is newer than what lies here.
fn newer_than_here(shard: &Shard, reads: &FileReads, key: &String, t: i64) -> (r: bool)
    requires
        shard.wf(),
        reads.wf(),
    ensures
        r == (!shard.places().contains_key(key@) || t > local_time(
            shard.places()[key@],
            read_doc(*reads, key@),
        )),
{
    match shard.index.get(key) {
        Some(p) => t > time_here(p, reads.documents.get(key)),
        None => true,
    }
}

/// Takes one more operation of a batch.
fn take_op(t: &mut Intake, op: &WalOp, shard: &Shard, reads: &FileReads, threshold: usize)
    requires
        shard.wf(),
        reads.wf(),
    ensures
        final(t).model() == take_step(old(t).model(), op@, shard.places(), *reads, threshold as nat),
{
    let ghost before = t.model();
    let ghost ops0 = t.ops@;
    let ghost docs0 = t.docs@;
    let ghost works0 = t.works@;
    match op {
        WalOp::PutInlined { key, value } => {
            if let Some(d) = FireLiteDoc::decode(value.as_slice()) {
                if newer_than_here(shard, reads, key, d.get_logical_time()) {
                    let ghost whole = d@;
                    let ghost end0 = t.end;
                    let mut doc = d;
                    match t.end {
                        Some(e) => {
                            let mut end: u64 = e;
                            let mut works = extract_blobs(key.as_str(), &mut doc, threshold, &mut end);
                            let ghost more = works@;
                            t.works.append(&mut works);
                            t.end = Some(end);
                            proof {
                                assert(works_view(t.works@) =~= works_view(works0) + works_view(more));
                            }
                        },
                        None => {
                            proof {
                                assert(doc_works(key@, whole, threshold as nat, None) =~= Seq::<Work>::empty());
                                assert(works_view(t.works@) =~= works_view(works0) + Seq::<Work>::empty());
                            }
                        },
                    }
                    proof {
                        assert(doc@ == skeleton_doc(whole, threshold as nat, end0));
                    }
                    let entry = WalOp::PutInlined { key: key.clone(), value: doc.encode() };
                    let ghost o = entry@;
                    let ghost lean = doc@;
                    t.ops.push(entry);
                    t.docs.push((key.clone(), Some(doc)));
                    proof {
                        assert(ops_view(t.ops@) =~= ops_view(ops0).push(o));
                        assert(opt_docs(t.docs@) =~= opt_docs(docs0).push((key@, Some(lean))));
                    }
                }
            }
        },
        WalOp::Delete { key, timestamp } => {
            if newer_than_here(shard, reads, key, *timestamp) {
                let entry = op.clone();
                let ghost o = entry@;
                t.ops.push(entry);
                t.docs.push((key.clone(), None));
                proof {
                    assert(ops_view(t.ops@) =~= ops_view(ops0).push(o));
                    assert(opt_docs(t.docs@) =~= opt_docs(docs0).push((key@, None)));
                }
            }
        },
        _ => {},
    }
}

/// Takes a batch.
fn take_batch(ops: &Vec<WalOp>, shard: &Shard, reads: &FileReads, threshold: usize) -> (t: Intake)
    requires
        shard.wf(),
        reads.wf(),
    ensures
        t.model() == taken(ops_view(ops@), shard.places(), shard.blob_end, *reads, threshold as nat),
{
    let ghost s = ops_view(ops@);
    let mut t = Intake { ops: Vec::new(), docs: Vec::new(), works: Vec::new(), end: shard.blob_end };
    let mut i: usize = 0;
    proof {
        assert(s.take(0) =~= Seq::<Change>::empty());
        assert(t.model() =~= taken(s.take(0), shard.places(), shard.blob_end, *reads, threshold as nat));
    }
    while i < ops.len()
        invariant
            shard.wf(),
            reads.wf(),
            s == ops_view(ops@),
            i <= ops@.len(),
            t.model() == taken(s.take(i as int), shard.places(), shard.blob_end, *reads, threshold as nat),
        decreases ops@.len() - i,
    {
        proof {
            assert(s.take(i + 1).drop_last() =~= s.take(i as int));
            assert(s.take(i + 1).last() == ops@[i as int]@);
        }
        take_op(&mut t, &ops[i], shard, reads, threshold);
        i = i + 1;
    }
    proof {
        assert(s.take(i as int) =~= s);
    }
    t
}

/// Whether a value of a document is kept aside.
fn has_blob_work(works: &Vec<BlobWork>, key: &String) -> (r: bool)
    ensures
        r == has_work(works_view(works@), key@),
{
    let ghost w = works_view(works@);
    let mut i: usize = 0;
    while i < works.len()
        invariant
            w == works_view(works@),
            i <= works@.len(),
            forall|k: int| 0 <= k < i ==> (#[trigger] w[k]).key != key@,
        decreases works@.len() - i,
    {
        if same_text(works[i].key.as_str(), key.as_str()) {
            proof {
                assert(w[i as int].key == key@);
            }
            return true;
        }
        i = i + 1;
    }
    false
}

/// The time of the first deletion of a key in a batch.
fn first_delete_time(ops: &Vec<WalOp>, key: &String) -> (t: i64)
    ensures
        t == first_delete(ops_view(ops@), key@),
{
    let ghost s = ops_view(ops@);
    let mut i: usize = 0;
    proof {
        assert(s.skip(0) =~= s);
    }
    while i < ops.len()
        invariant
            s == ops_view(ops@),
            i <= ops@.len(),
            first_delete(s, key@) == first_delete(s.skip(i as int), key@),
        decreases ops@.len() - i,
    {
        proof {
            assert(s.skip(i as int)[0] == ops@[i as int]@);
            assert(s.skip(i as int).drop_first() =~= s.skip(i + 1));
        }
        if let WalOp::Delete { key: k, timestamp } = &ops[i] {
            if same_text(k.as_str(), key.as_str()) {
                return *timestamp;
            }
        }
        i = i + 1;
    }
    0
}

/// Puts the documents of a batch where they lie.
fn place_docs(shard: &mut Shard, t: &Intake)
    requires
        old(shard).wf(),
    ensures
        final(shard).wf(),
        final(shard).places() == placed(old(shard).places(), t.model().docs, t.model().works, t.model().ops),
        final(shard).next_tx_id == old(shard).next_tx_id,
        final(shard).blob_flush_queue == old(shard).blob_flush_queue,
        final(shard).pending_blob_bytes == old(shard).pending_blob_bytes,
        final(shard).blob_end == old(shard).blob_end,
{
    let ghost m = shard.places();
    let ghost d = t.model().docs;
    let ghost w = t.model().works;
    let ghost o = t.model().ops;
    let mut i: usize = 0;
    proof {
        assert(d.take(0) =~= Seq::<(Seq<char>, Option<Doc>)>::empty());
    }
    while i < t.docs.len()
        invariant
            shard.wf(),
            d == opt_docs(t.docs@),
            w == works_view(t.works@),
            o == ops_view(t.ops@),
            i <= t.docs@.len(),
            shard.places() == placed(m, d.take(i as int), w, o),
            shard.next_tx_id == old(shard).next_tx_id,
            shard.blob_flush_queue == old(shard).blob_flush_queue,
            shard.pending_blob_bytes == old(shard).pending_blob_bytes,
            shard.blob_end == old(shard).blob_end,
        decreases t.docs@.len() - i,
    {
        proof {
            assert(d.take(i + 1).drop_last() =~= d.take(i as int));
            assert(d.take(i + 1).last() == d[i as int]);
        }
        let key = &t.docs[i].0;
        match &t.docs[i].1 {
            Some(doc) => {
                if has_blob_work(&t.works, key) {
                    shard.update_index_entry(key.clone(), Pointer::BlobPending(doc.clone()));
                } else {
                    shard.update_index_entry(key.clone(), Pointer::Inlined(doc.encode()));
                }
            },
            None => {
                let time = first_delete_time(&t.ops, key);
                shard.update_index_entry(key.clone(), Pointer::Deleted { timestamp: time });
            },
        }
        i = i + 1;
    }
    proof {
        assert(d.take(i as int) =~= d);
    }
}

/// Remembers operations that were taken.
fn note_all(echo: &mut EchoCache, ops: &Vec<WalOp>)
    requires
        old(echo).wf(),
    ensures
        final(echo).wf(),
        final(echo)@ == noted(old(echo)@, ops_view(ops@)),
{
    let ghost s = ops_view(ops@);
    let ghost m = echo@;
    let mut i: usize = 0;
    proof {
        assert(s.take(0) =~= Seq::<Change>::empty());
    }
    while i < ops.len()
        invariant
            echo.wf(),
            s == ops_view(ops@),
            i <= ops@.len(),
            echo@ == noted(m, s.take(i as int)),
        decreases ops@.len() - i,
    {
        proof {
            assert(s.take(i + 1).drop_last() =~= s.take(i as int));
            assert(s.take(i + 1).last() == ops@[i as int]@);
        }
        let had = echo.insert(ops[i].get_key().clone(), ops[i].time());
        i = i + 1;
    }
    proof {
        assert(s.take(i as int) =~= s);
    }
}

/// The id in a key: what stands behind its first colon, and all of it where it has none.
pub open spec fn bare_id(key: Seq<char>) -> Seq<char> {
    match behind_colon(key) {
        Some(rest) => rest,
        None => key,
    }
}

/// What stands behind the first colon.
pub open spec fn behind_colon(s: Seq<char>) -> Option<Seq<char>>
    decreases s.len(),
{
    if s.len() == 0 {
        None
    } else if s[0] == ':' {
        Some(s.drop_first())
    } else {
        behind_colon(s.drop_first())
    }
}

/// The id in a key.
pub fn id_of_key(key: &str) -> (s: String)
    ensures
        s@ == bare_id(key@),
{
    let v = chars_of(key);
    let end: usize = v.len();
    let mut i: usize = 0;
    proof {
        assert(v@.skip(0) =~= v@);
    }
    while i < end
        invariant
            end == v@.len(),
            v@ == key@,
            i <= end,
            behind_colon(v@) == behind_colon(v@.skip(i as int)),
        decreases end - i,
    {
        proof {
            assert(v@.skip(i as int).drop_first() =~= v@.skip(i + 1));
        }
        if v[i] == ':' {
            proof {
                assert(v@.skip(i + 1) =~= v@.subrange(i + 1, end as int));
            }
            return text_of(&v, i + 1, end);
        }
        i = i + 1;
    }
    key.to_owned()
}

/// The documents that operations put, by their ids.
pub open spec fn put_docs_by_id(ops: Seq<Change>) -> Seq<(Seq<char>, Doc)> {
    let d = put_docs(ops);
    Seq::new(d.len(), |i: int| (bare_id(d[i].0), d[i].1))
}

/// The documents that operations put, by their ids.
fn docs_by_id(ops: &Vec<WalOp>) -> (r: Vec<(String, FireLiteDoc)>)
    ensures
        docs_view(r@) == put_docs_by_id(ops_view(ops@)),
{
    let ghost c = ops_view(ops@);
    let mut r: Vec<(String, FireLiteDoc)> = Vec::new();
    let mut i: usize = 0;
    proof {
        assert(c.take(0) =~= Seq::<Change>::empty());
        assert(docs_view(r@) =~= put_docs_by_id(c.take(0)));
    }
    while i < ops.len()
        invariant
            c == ops_view(ops@),
            i <= ops@.len(),
            docs_view(r@) == put_docs_by_id(c.take(i as int)),
        decreases ops@.len() - i,
    {
        proof {
            assert(c.take(i + 1).drop_last() =~= c.take(i as int));
            assert(c.take(i + 1).last() == ops@[i as int]@);
        }
        let ghost before = r@;
        if let WalOp::PutInlined { key, value } = &ops[i] {
            if let Some(d) = FireLiteDoc::decode(value.as_slice()) {
                let ghost dd = d@;
                r.push((id_of_key(key.as_str()), d));
                proof {
                    assert(docs_view(r@) =~= docs_view(before).push((bare_id(key@), dd)));
                }
            }
        }
        proof {
            assert(docs_view(r@) =~= put_docs_by_id(c.take(i + 1)));
        }
        i = i + 1;
    }
    proof {
        assert(c.take(i as int) =~= c);
    }
    r
}

/// `b` is the collection `a` after a batch was taken.
pub open spec fn intake_after(a: Shard, b: Shard, t: Taken) -> bool {
    &&& b.places() == placed(a.places(), t.docs, t.works, t.ops)
    &&& b.next_tx_id == vstd::wrapping::u64_specs::wrapping_add(a.next_tx_id, 1)
    &&& works_view(b.blob_flush_queue@) == works_view(a.blob_flush_queue@) + t.works
    &&& b.pending_blob_bytes == pending_after(a.pending_blob_bytes, t.works)
    &&& b.blob_end == t.end
}

/// What a batch from another node does: nothing where the collection stays on this device or
/// nothing of it is newer; else what is taken goes into the collection and its log, is
/// remembered, and the indexes follow.
pub open spec fn intake_done(
    a: Hako,
    e0: Map<Seq<char>, i64>,
    b: Hako,
    e1: Map<Seq<char>, i64>,
    c: Seq<char>,
    ops: Seq<Change>,
    reads: FileReads,
    r: Option<Applied>,
) -> bool {
    if a.marks@.collections.contains(c) {
        b == a && e1 == e0 && r is None
    } else {
        exists|s: Shard| #[trigger] is_shard(a.shards@, c, s) && intake_into(a, e0, b, e1, c, s, ops, reads, r)
    }
}

/// What a batch does to a collection.
pub open spec fn intake_into(
    a: Hako,
    e0: Map<Seq<char>, i64>,
    b: Hako,
    e1: Map<Seq<char>, i64>,
    c: Seq<char>,
    s: Shard,
    ops: Seq<Change>,
    reads: FileReads,
    r: Option<Applied>,
) -> bool {
    let t = taken(ops, s.places(), s.blob_end, reads, a.config.value_blob_threshold_bytes as nat);
    &&& same_setup(a, b)
    &&& forall|n: Seq<char>| #[trigger]
        b.doc_cache@.contains_key(n) <==> a.doc_cache@.contains_key(n) && !speaks_of(c, t.ops, n)
    &&& forall|n: Seq<char>| #[trigger] b.doc_cache@.contains_key(n) ==> b.doc_cache@[n] == a.doc_cache@[n]
    &&& b.audit_data == a.audit_data
    &&& b.id_sequence == a.id_sequence
    &&& b.shards@.contains_key(c)
    &&& b.shards@ == a.shards@.insert(c, b.shards@[c])
    &&& e1 == noted(e0, t.ops)
    &&& b.versions@ == bumped(a.versions@, op_keys(puts_of(t.ops)))
    &&& if t.ops.len() == 0 {
        b.shards@[c] == s && r is None
    } else {
        &&& intake_after(s, b.shards@[c], t)
        &&& r matches Some(x)
        &&& x.collection@ == c
        &&& x.tx_id == s.next_tx_id
        &&& ops_view(x.ops@) == t.ops
        &&& docs_view(x.puts@) == put_docs_by_id(t.ops)
        &&& x.deletes@.len() == 0
    }
}

/// The operations that put documents.
fn put_ops(ops: &Vec<WalOp>) -> (r: Vec<WalOp>)
    ensures
        ops_view(r@) == puts_of(ops_view(ops@)),
{
    let ghost s = ops_view(ops@);
    let mut r: Vec<WalOp> = Vec::new();
    let mut i: usize = 0;
    proof {
        assert(s.take(0) =~= Seq::<Change>::empty());
        assert(ops_view(r@) =~= Seq::<Change>::empty());
    }
    while i < ops.len()
        invariant
            s == ops_view(ops@),
            i <= ops@.len(),
            ops_view(r@) == puts_of(s.take(i as int)),
        decreases ops@.len() - i,
    {
        proof {
            assert(s.take(i + 1).drop_last() =~= s.take(i as int));
            assert(s.take(i + 1).last() == ops@[i as int]@);
        }
        if let WalOp::PutInlined { .. } = &ops[i] {
            let ghost before = r@;
            r.push(ops[i].clone());
            proof {
                assert(ops_view(r@) =~= ops_view(before).push(ops@[i as int]@));
            }
        }
        i = i + 1;
    }
    proof {
        assert(s.take(i as int) =~= s);
    }
    r
}

/// Applies a batch of changes from another node. The documents that are put get new versions.
/// No document of which a change is taken is held ready from then on.
pub fn apply_replication_batch(
    db: &mut Hako,
    echo: &mut EchoCache,
    collection: &str,
    ops: &Vec<WalOp>,
    reads: &FileReads,
) -> (r: Option<Applied>)
    requires
        old(db).wf(),
        old(echo).wf(),
        reads.wf(),
    ensures
        final(db).wf(),
        final(echo).wf(),
        intake_done(
            *old(db),
            old(echo)@,
            *final(db),
            final(echo)@,
            collection@,
            ops_view(ops@),
            *reads,
            r,
        ),
{
    let ghost a = *db;
    let ghost e0 = echo@;
    let ghost c = collection@;
    if db.marks.is_collection_local(collection) {
        return None;
    }
    let threshold: usize = db.config.value_blob_threshold_bytes;
    let at = db.get_shard(collection);
    let ghost mid = *db;
    proof {
        db.shards.place_facts();
        assert(db.shards@.contains_key(c));
        assert(db.shards@[c] == db.shards.rows()[at as int].1);
    }
    let ghost s0 = db.shards@[c];
    let t = take_batch(ops, db.shards.thing(at), reads, threshold);
    let ghost tm = t.model();
    proof {
        assert(is_shard(a.shards@, c, s0));
    }
    if t.ops.len() == 0 {
        proof {
            assert(tm.ops =~= Seq::<Change>::empty());
            assert(op_keys(puts_of(tm.ops)) =~= Seq::<Seq<char>>::empty());
            assert(db.shards@ =~= a.shards@.insert(c, db.shards@[c]));
            assert(intake_into(a, e0, *db, echo@, c, s0, ops_view(ops@), *reads, None));
        }
        return None;
    }
    note_all(echo, &t.ops);
    let mut shard = db.shards.swap(at, Shard::new(None));
    let tx_id: u64 = shard.next_tx_id;
    shard.next_tx_id = tx_id.wrapping_add(1);
    place_docs(&mut shard, &t);
    shard.blob_end = t.end;
    shard.queue_blobs(t.works);
    let ghost s1 = shard;
    let gone = db.shards.swap(at, shard);
    proof {
        assert(db.shards@ =~= mid.shards@.insert(c, s1));
        assert(db.shards@ =~= a.shards@.insert(c, s1));
        assert(shards_wf(db.shards));
    }
    db.forget(&collection.to_owned(), &t.ops);
    db.bump_versions_by_keys(&put_ops(&t.ops));
    let puts = docs_by_id(&t.ops);
    let r = Some(Applied { collection: collection.to_owned(), tx_id, ops: t.ops, puts, deletes: Vec::new() });
    proof {
        assert(intake_after(s0, db.shards@[c], tm));
        assert(intake_into(a, e0, *db, echo@, c, s0, ops_view(ops@), *reads, r));
    }
    r
}

/// An operation that is not newer than what lies here is passed over.
pub proof fn stale_is_passed_over(t: Taken, op: Change, m: Map<Seq<char>, Place>, reads: FileReads, threshold: nat)
    requires
        m.contains_key(change_key(op)),
        remote_time(op) <= local_time(m[change_key(op)], read_doc(reads, change_key(op))),
    ensures
        take_step(t, op, m, reads, threshold) == t,
{
}

/// Whether an operation counts: a deletion, or a document that can be read.
pub open spec fn counts(op: Change) -> bool {
    match op {
        Change::Put { value, .. } => decode_doc(value) is Some,
        Change::Delete { .. } => true,
        _ => false,
    }
}

/// The documents of a collection where they lie, the values that wait to be written into its
/// blob file, and where that file ends.
#[verifier::ext_equal]
pub struct Held {
    pub places: Map<Seq<char>, Place>,
    pub queue: Seq<Work>,
    pub end: Option<u64>,
}

/// A collection after a batch of one operation.
pub open spec fn after_one(h: Held, op: Change, reads: FileReads, threshold: nat) -> Held {
    let t = taken(seq![op], h.places, h.end, reads, threshold);
    Held { places: placed(h.places, t.docs, t.works, t.ops), queue: h.queue + t.works, end: t.end }
}

/// What an operation puts under its key, where the blob file ends at `end`.
pub open spec fn put_place(op: Change, end: Option<u64>, threshold: nat) -> Place {
    match op {
        Change::Put { key, value } => {
            let d = decode_doc(value)->Some_0;
            let lean = skeleton_doc(d, threshold, end);
            if doc_works(key, d, threshold, end).len() > 0 {
                Place::BlobPending(lean)
            } else {
                Place::Inlined(doc_bytes(lean))
            }
        },
        _ => Place::Deleted { time: remote_time(op) },
    }
}

/// Two places are one, or hold what one change of the key has put there, its large values
/// wherever the blob file had room for them.
pub open spec fn same_change(k: Seq<char>, p: Place, q: Place, threshold: nat) -> bool {
    ||| p == q
    ||| exists|op: Change, e: Option<u64>, f: Option<u64>|
        counts(op) && change_key(op) == k && p == #[trigger] put_place(op, e, threshold) && q == #[trigger] put_place(
            op,
            f,
            threshold,
        )
}

/// What an operation puts under its key has the time of the operation.
proof fn put_place_time(op: Change, end: Option<u64>, threshold: nat, read: Option<Seq<u8>>)
    requires
        counts(op),
    ensures
        local_time(put_place(op, end, threshold), read) == remote_time(op),
{
    if let Change::Put { value, .. } = op {
        let d = decode_doc(value)->Some_0;
        stamp_of_document(skeleton_doc(d, threshold, end));
        skeleton_is_read(value, d, threshold, end);
    }
}

/// A batch of one operation puts what it carries under its key if it is newer, and its time
/// is then that of the key.
proof fn after_one_is(h: Held, op: Change, reads: FileReads, threshold: nat)
    requires
        counts(op),
    ensures
        beats(h.places, reads, op) ==> after_one(h, op, reads, threshold).places == h.places.insert(
            change_key(op),
            put_place(op, h.end, threshold),
        ),
        !beats(h.places, reads, op) ==> after_one(h, op, reads, threshold) == h,
        local_time(put_place(op, h.end, threshold), read_doc(reads, change_key(op))) == remote_time(op),
{
    let m = h.places;
    let end = h.end;
    let one = seq![op];
    assert(one.drop_last() =~= Seq::<Change>::empty());
    let none = taken(one.drop_last(), m, end, reads, threshold);
    let t = taken(one, m, end, reads, threshold);
    assert(t == take_step(none, op, m, reads, threshold));
    put_place_time(op, end, threshold, read_doc(reads, change_key(op)));
    reveal_with_fuel(placed, 2);
    if !beats(m, reads, op) {
        assert(t == none);
        assert(h.queue + t.works =~= h.queue);
    } else {
        match op {
            Change::Put { key, value } => {
                let d = decode_doc(value)->Some_0;
                let lean = skeleton_doc(d, threshold, end);
                let w = doc_works(key, d, threshold, end);
                assert(t.works =~= w);
                assert(t.docs =~= seq![(key, Some(lean))]);
                assert(t.docs.drop_last() =~= Seq::<(Seq<char>, Option<Doc>)>::empty());
                if w.len() > 0 {
                    assert(w[0].key == key);
                }
                assert(has_work(w, key) == (w.len() > 0));
            },
            Change::Delete { key, time } => {
                assert(t.docs =~= seq![(key, None::<Doc>)]);
                assert(t.docs.drop_last() =~= Seq::<(Seq<char>, Option<Doc>)>::empty());
                assert(t.ops =~= seq![op]);
                assert(first_delete(t.ops, key) == time);
            },
            _ => {},
        }
    }
}

/// Two changes of different keys or different times lead to the same whichever comes first:
/// nodes that have heard of the same changes hold the same change under each key, with the
/// same time.
pub proof fn order_does_not_matter(h: Held, a: Change, b: Change, reads: FileReads, threshold: nat)
    requires
        counts(a),
        counts(b),
        change_key(a) != change_key(b) || remote_time(a) != remote_time(b),
    ensures
        ({
            let ab = after_one(after_one(h, a, reads, threshold), b, reads, threshold).places;
            let ba = after_one(after_one(h, b, reads, threshold), a, reads, threshold).places;
            &&& ab.dom() == ba.dom()
            &&& forall|k: Seq<char>| #[trigger]
                ab.contains_key(k) ==> same_change(k, ab[k], ba[k], threshold) && local_time(ab[k], read_doc(reads, k))
                    == local_time(ba[k], read_doc(reads, k))
        }),
{
    let ha = after_one(h, a, reads, threshold);
    let hb = after_one(h, b, reads, threshold);
    after_one_is(h, a, reads, threshold);
    after_one_is(h, b, reads, threshold);
    after_one_is(ha, b, reads, threshold);
    after_one_is(hb, a, reads, threshold);
    let ab = after_one(ha, b, reads, threshold).places;
    let ba = after_one(hb, a, reads, threshold).places;
    assert(ab.dom() =~= ba.dom());
    assert forall|k: Seq<char>| #[trigger] ab.contains_key(k) implies same_change(k, ab[k], ba[k], threshold)
        && local_time(ab[k], read_doc(reads, k)) == local_time(ba[k], read_doc(reads, k)) by {
        let pa = put_place(a, h.end, threshold);
        let pa2 = put_place(a, hb.end, threshold);
        let pb = put_place(b, ha.end, threshold);
        let pb2 = put_place(b, h.end, threshold);
        if ab[k] == pa && ba[k] == pa2 && k == change_key(a) {
        } else if ab[k] == pb && ba[k] == pb2 && k == change_key(b) {
        } else {
            assert(ab[k] == ba[k]);
        }
    }
}

/// A change that comes again changes nothing.
pub proof fn again_is_nothing(h: Held, op: Change, reads: FileReads, threshold: nat)
    requires
        counts(op),
    ensures
        after_one(after_one(h, op, reads, threshold), op, reads, threshold) == after_one(h, op, reads, threshold),
{
    after_one_is(h, op, reads, threshold);
    after_one_is(after_one(h, op, reads, threshold), op, reads, threshold);
}

} // verus!
