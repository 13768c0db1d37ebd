//! What a batch of changes does to each collection.
use vstd::prelude::*;
use vstd::wrapping::u16_specs::wrapping_add;

use crate::directory::NameTable;
use crate::document::firelite_doc::{decode_doc, doc_bytes, names_view, with_fields, Doc, FireLiteDoc};
use crate::document::value::{fields_view, Value};
use crate::engine::files::{file_doc, files_wf, find_read, FileReads};
use crate::engine::ids::{generate_sortable_id, sortable_id};
use crate::engine::types::{wish_collection, wish_id, wishes, BatchMutation, ChangeEvent, ChangeKind, IndexOp, Wish};
use crate::index::composite::composite_index::docs_view;
use crate::storage::blob::{doc_end, doc_works, extract_blobs, skeleton_doc, works_view, BlobWork, Work};
use crate::storage::pointer::Place;
use crate::storage::shard::{committed, document_bytes, pending_after, Shard};
use crate::storage::wal::{change_key, ops_view, Change, WalOp};

verus! {

/// What a batch does to one collection.
pub struct ShardWork {
    pub ops: Vec<WalOp>,
    pub index_puts: Vec<(String, FireLiteDoc)>,
    pub blobs: Vec<BlobWork>,
    /// The end of the blob file after the values that the batch keeps aside.
    pub blob_end: Option<u64>,
}

/// What a batch does to one collection: its operations, the documents that come into the
/// indexes, and the values that are kept aside.
#[verifier::ext_equal]
pub struct Plan {
    pub ops: Seq<Change>,
    pub puts: Seq<(Seq<char>, Doc)>,
    pub works: Seq<Work>,
    pub end: Option<u64>,
}

impl View for ShardWork {
    type V = Plan;

    open spec fn view(&self) -> Plan {
        Plan {
            ops: ops_view(self.ops@),
            puts: docs_view(self.index_puts@),
            works: works_view(self.blobs@),
            end: self.blob_end,
        }
    }
}

/// What a batch is planned against.
pub struct Env {
    pub shards: Map<Seq<char>, Shard>,
    pub files: Map<Seq<char>, FileReads>,
    pub threshold: nat,
    pub nanos: i64,
    pub seq: u16,
}

/// A batch as planned: the ids of its documents, the number of the next made id, the
/// collections in the order in which they came, and what happens to each.
pub struct Staging {
    pub ids: Seq<Seq<char>>,
    pub seq: u16,
    pub order: Seq<Seq<char>>,
    pub plans: Map<Seq<char>, Plan>,
}

/// A document without fields.
pub open spec fn empty_doc() -> Doc {
    Doc { fields: Seq::empty(), time: 0 }
}

/// Where the documents of a collection lie; a collection that is not there is empty.
pub open spec fn shard_places(shards: Map<Seq<char>, Shard>, c: Seq<char>) -> Map<Seq<char>, Place> {
    if shards.contains_key(c) {
        shards[c].places()
    } else {
        Map::empty()
    }
}

/// The end of the blob file of a collection; that of a new one is empty.
pub open spec fn shard_end(shards: Map<Seq<char>, Shard>, c: Seq<char>) -> Option<u64> {
    if shards.contains_key(c) {
        shards[c].blob_end
    } else {
        Some(0)
    }
}

/// The document of a key as stored, or one without fields.
pub open spec fn base_doc(env: Env, c: Seq<char>, id: Seq<char>) -> Doc {
    match document_bytes(shard_places(env.shards, c), id, file_doc(env.files, c, id)) {
        Some(b) => match decode_doc(b) {
            Some(d) => d,
            None => empty_doc(),
        },
        None => empty_doc(),
    }
}

/// The document that a change puts; none where it deletes. A patch goes by the document
/// as it was before the batch.
pub open spec fn wish_doc(env: Env, w: Wish) -> Option<Doc> {
    match w {
        Wish::Put { doc, .. } => Some(doc),
        Wish::Delete { .. } => None,
        Wish::Patch { collection, id, updates } => Some(with_fields(base_doc(env, collection, id), updates)),
    }
}

/// The plan for a collection so far.
pub open spec fn plan_of(env: Env, st: Staging, c: Seq<char>) -> Plan {
    if st.plans.contains_key(c) {
        st.plans[c]
    } else {
        Plan { ops: Seq::empty(), puts: Seq::empty(), works: Seq::empty(), end: shard_end(env.shards, c) }
    }
}

/// A plan with one more document put or deleted.
pub open spec fn plan_step(env: Env, p: Plan, id: Seq<char>, doc: Option<Doc>) -> Plan {
    let micros = (env.nanos as int / 1000) as i64;
    match doc {
        None => Plan { ops: p.ops.push(Change::Delete { key: id, time: micros }), ..p },
        Some(d) => {
            let stamped = Doc { fields: d.fields, time: micros };
            let lean = skeleton_doc(stamped, env.threshold, p.end);
            Plan {
                ops: p.ops.push(Change::Put { key: id, value: doc_bytes(lean) }),
                puts: p.puts.push((id, lean)),
                works: p.works + doc_works(id, stamped, env.threshold, p.end),
                end: doc_end(stamped, env.threshold, p.end),
            }
        },
    }
}

/// A planned batch with one more change.
pub open spec fn stage_one(env: Env, st: Staging, w: Wish) -> Staging {
    let c = wish_collection(w);
    let made = wish_id(w).len() == 0;
    let id = if made {
        sortable_id(env.nanos, st.seq)
    } else {
        wish_id(w)
    };
    Staging {
        ids: st.ids.push(id),
        seq: if made {
            wrapping_add(st.seq, 1)
        } else {
            st.seq
        },
        order: if st.plans.contains_key(c) {
            st.order
        } else {
            st.order.push(c)
        },
        plans: st.plans.insert(c, plan_step(env, plan_of(env, st, c), id, wish_doc(env, w))),
    }
}

/// A batch as planned.
pub open spec fn staged(env: Env, w: Seq<Wish>) -> Staging
    decreases w.len(),
{
    if w.len() == 0 {
        Staging { ids: Seq::empty(), seq: env.seq, order: Seq::empty(), plans: Map::empty() }
    } else {
        stage_one(env, staged(env, w.drop_last()), w.last())
    }
}

/// What works in a table do to their collections.
pub open spec fn plans_of(t: NameTable<ShardWork>) -> Map<Seq<char>, Plan> {
    Map::new(|c: Seq<char>| t@.contains_key(c), |c: Seq<char>| t@[c]@)
}

/// The collections of a table in order.
pub open spec fn table_names<T>(t: NameTable<T>) -> Seq<Seq<char>> {
    Seq::new(t.rows().len(), |i: int| t.rows()[i].0)
}

/// Every collection is in order.
pub open spec fn shards_wf(t: NameTable<Shard>) -> bool {
    t.wf() && forall|c: Seq<char>| #[trigger] t@.contains_key(c) ==> t@[c].wf()
}

/// A batch as planned.
pub struct Staged {
    pub ids: Vec<String>,
    pub seq: u16,
    pub works: NameTable<ShardWork>,
}

/// The document of a key as stored, or one without fields.
fn stored_or_empty(
    shards: &NameTable<Shard>,
    files: &NameTable<FileReads>,
    collection: &String,
    id: &String,
    Ghost(env): Ghost<Env>,
) -> (d: FireLiteDoc)
    requires
        shards_wf(*shards),
        files_wf(*files),
        env.shards == shards@,
        env.files == files@,
    ensures
        d@ == base_doc(env, collection@, id@),
{
    let read = find_read(files, collection.as_str(), id);
    proof {
        shards.place_facts();
    }
    let found = match shards.find(collection.as_str()) {
        Some(i) => {
            proof {
                assert(shards@.contains_key(collection@));
            }
            shards.thing(i).get(id, read)
        },
        None => None,
    };
    match found {
        Some(b) => match FireLiteDoc::decode(b.as_slice()) {
            Some(d) => d,
            None => FireLiteDoc::default(),
        },
        None => FireLiteDoc::default(),
    }
}

/// Puts values under keys of a document, one after the other.
pub fn patch_doc(doc: &mut FireLiteDoc, updates: &Vec<(String, Value)>)
    ensures
        final(doc)@ == with_fields(old(doc)@, fields_view(updates@)),
{
    let ghost u = fields_view(updates@);
    let ghost d = doc@;
    let mut i: usize = 0;
    proof {
        assert(u.take(0) =~= Seq::empty());
    }
    while i < updates.len()
        invariant
            u == fields_view(updates@),
            i <= updates@.len(),
            doc@ == with_fields(d, u.take(i as int)),
        decreases updates@.len() - i,
    {
        proof {
            assert(u.take(i + 1).drop_last() =~= u.take(i as int));
            assert(u.take(i + 1).last() == u[i as int]);
        }
        doc.insert(updates[i].0.clone(), updates[i].1.clone());
        i = i + 1;
    }
    proof {
        assert(u.take(i as int) =~= u);
    }
}

/// Adds a document that is put or deleted to what a batch does to a collection.
fn add_step(work: &mut ShardWork, id: &String, doc: Option<FireLiteDoc>, threshold: usize, micros: i64, Ghost(env): Ghost<Env>)
    requires
        env.threshold == threshold,
        micros as int == env.nanos as int / 1000,
    ensures
        final(work)@ == plan_step(env, old(work)@, id@, match doc {
            Some(d) => Some(d@),
            None => None,
        }),
{
    let ghost before = work@;
    match doc {
        None => {
            work.ops.push(WalOp::Delete { key: id.clone(), timestamp: micros });
            proof {
                assert(ops_view(work.ops@) =~= before.ops.push(Change::Delete { key: id@, time: micros }));
            }
        },
        Some(d) => {
            let mut doc = d;
            let ghost was = doc@;
            doc._time = micros;
            let ghost stamped = Doc { fields: was.fields, time: micros };
            proof {
                assert(doc@ == stamped);
            }
            let mut more: Vec<BlobWork> = match work.blob_end {
                Some(e) => {
                    let mut end: u64 = e;
                    let w = extract_blobs(id.as_str(), &mut doc, threshold, &mut end);
                    work.blob_end = Some(end);
                    w
                },
                None => Vec::new(),
            };
            proof {
                assert(works_view(more@) =~= doc_works(id@, stamped, threshold as nat, before.end));
                assert(doc@ == skeleton_doc(stamped, threshold as nat, before.end));
            }
            let ghost more_view = works_view(more@);
            let ghost blobs = work.blobs@;
            work.blobs.append(&mut more);
            proof {
                assert(works_view(work.blobs@) =~= works_view(blobs) + more_view);
            }
            let bytes = doc.encode();
            let ghost lean = doc@;
            work.ops.push(WalOp::PutInlined { key: id.clone(), value: bytes });
            work.index_puts.push((id.clone(), doc));
            proof {
                assert(ops_view(work.ops@) =~= before.ops.push(Change::Put { key: id@, value: doc_bytes(lean) }));
                assert(docs_view(work.index_puts@) =~= before.puts.push((id@, lean)));
            }
        },
    }
}

/// Plans a batch: the ids of its documents, and what it does to each collection.
pub fn stage(
    shards: &NameTable<Shard>,
    files: &NameTable<FileReads>,
    threshold: usize,
    now_nanos: i64,
    seq: u16,
    mutations: &Vec<BatchMutation>,
) -> (r: Staged)
    requires
        shards_wf(*shards),
        files_wf(*files),
        now_nanos >= 0,
    ensures
        ({
            let env = Env { shards: shards@, files: files@, threshold: threshold as nat, nanos: now_nanos, seq };
            let st = staged(env, wishes(mutations@));
            &&& names_view(r.ids@) == st.ids
            &&& r.seq == st.seq
            &&& table_names(r.works) == st.order
            &&& plans_of(r.works) == st.plans
        }),
        r.works.wf(),
{
    let ghost env = Env { shards: shards@, files: files@, threshold: threshold as nat, nanos: now_nanos, seq };
    let ghost w = wishes(mutations@);
    let micros: i64 = now_nanos / 1000;
    let mut ids: Vec<String> = Vec::new();
    let mut next: u16 = seq;
    let mut works: NameTable<ShardWork> = NameTable::new();
    let mut i: usize = 0;
    proof {
        assert(w.take(0) =~= Seq::<Wish>::empty());
        assert(names_view(ids@) =~= Seq::<Seq<char>>::empty());
        assert(table_names(works) =~= Seq::<Seq<char>>::empty());
        assert(plans_of(works) =~= Map::<Seq<char>, Plan>::empty());
    }
    while i < mutations.len()
        invariant
            shards_wf(*shards),
            files_wf(*files),
            now_nanos >= 0,
            w == wishes(mutations@),
            env == (Env { shards: shards@, files: files@, threshold: threshold as nat, nanos: now_nanos, seq }),
            micros as int == now_nanos as int / 1000,
            i <= mutations@.len(),
            names_view(ids@) == staged(env, w.take(i as int)).ids,
            next == staged(env, w.take(i as int)).seq,
            table_names(works) == staged(env, w.take(i as int)).order,
            plans_of(works) == staged(env, w.take(i as int)).plans,
            works.wf(),
        decreases mutations@.len() - i,
    {
        let ghost st = staged(env, w.take(i as int));
        proof {
            assert(w.take(i + 1).drop_last() =~= w.take(i as int));
            assert(w.take(i + 1).last() == mutations@[i as int]@);
            assert(w[i as int] == mutations@[i as int]@);
        }
        let m = &mutations[i];
        let col = m.get_col();
        let ghost c = col@;
        let doc: Option<FireLiteDoc> = match m {
            BatchMutation::Put { doc, .. } => Some(doc.clone()),
            BatchMutation::Delete { .. } => None,
            BatchMutation::Patch { collection, doc_id, updates } => {
                let mut d = stored_or_empty(shards, files, collection, doc_id, Ghost(env));
                patch_doc(&mut d, updates);
                Some(d)
            },
        };
        let given = m.id();
        let empty: bool = crate::text::same_text(given.as_str(), "");
        proof {
            reveal_strlit("");
            assert(empty == (given@.len() == 0)) by {
                if given@.len() == 0 {
                    assert(given@ =~= ""@);
                }
            }
        }
        let id: String = if empty {
            let s = generate_sortable_id(now_nanos, next);
            next = next.wrapping_add(1);
            s
        } else {
            given.clone()
        };
        let ghost before = works;
        let ghost old_ids = ids@;
        ids.push(id.clone());
        proof {
            assert(names_view(ids@) =~= names_view(old_ids).push(id@));
            works.place_facts();
            assert(works@.contains_key(c) == works.has(c));
            assert(st.plans.contains_key(c) == works@.contains_key(c));
        }
        let end: Option<u64> = match shards.find(col.as_str()) {
            Some(k) => shards.thing(k).blob_end,
            None => Some(0),
        };
        proof {
            shards.place_facts();
            assert(end == shard_end(shards@, c));
        }
        match works.find(col.as_str()) {
            Some(at) => {
                let blank = ShardWork { ops: Vec::new(), index_puts: Vec::new(), blobs: Vec::new(), blob_end: None };
                let mut work = works.swap(at, blank);
                proof {
                    assert(work@ == plan_of(env, st, c));
                    assert(before@.contains_key(c));
                }
                add_step(&mut work, &id, doc, threshold, micros, Ghost(env));
                let ghost done = work@;
                let gone = works.swap(at, work);
                proof {
                    assert(plans_of(works) =~= st.plans.insert(c, done));
                    assert(table_names(works) =~= table_names(before));
                }
            },
            None => {
                let mut work = ShardWork { ops: Vec::new(), index_puts: Vec::new(), blobs: Vec::new(), blob_end: end };
                proof {
                    assert(work@.ops =~= Seq::<Change>::empty());
                    assert(work@.puts =~= Seq::<(Seq<char>, Doc)>::empty());
                    assert(work@.works =~= Seq::<Work>::empty());
                }
                add_step(&mut work, &id, doc, threshold, micros, Ghost(env));
                let ghost done = work@;
                works.push(col.clone(), work);
                proof {
                    assert(plans_of(works) =~= st.plans.insert(c, done));
                    assert(table_names(works) =~= table_names(before).push(c));
                }
            },
        }
        i = i + 1;
    }
    proof {
        assert(w.take(i as int) =~= w);
    }
    Staged { ids, seq: next, works }
}

/// The documents that operations delete, as they were before.
pub open spec fn dropped_docs(
    m: Map<Seq<char>, Place>,
    files: Map<Seq<char>, FileReads>,
    c: Seq<char>,
    ops: Seq<Change>,
) -> Seq<(Seq<char>, Doc)>
    decreases ops.len(),
{
    if ops.len() == 0 {
        Seq::empty()
    } else {
        let before = dropped_docs(m, files, c, ops.drop_last());
        match ops.last() {
            Change::Delete { key, .. } => match document_bytes(m, key, file_doc(files, c, key)) {
                Some(b) => match decode_doc(b) {
                    Some(d) => before.push((key, d)),
                    None => before,
                },
                None => before,
            },
            _ => before,
        }
    }
}

/// `b` is the collection `a` after a batch.
pub open spec fn shard_after(a: Shard, b: Shard, p: Plan) -> bool {
    &&& b.places() == committed(a.places(), p.ops)
    &&& b.next_tx_id == vstd::wrapping::u64_specs::wrapping_add(a.next_tx_id, 1)
    &&& works_view(b.blob_flush_queue@) == works_view(a.blob_flush_queue@) + p.works
    &&& b.pending_blob_bytes == pending_after(a.pending_blob_bytes, p.works)
    &&& b.blob_end == p.end
}

/// What a batch did to a collection: the number and the operations that go into its log,
/// and what its indexes are to follow.
pub struct Applied {
    pub collection: String,
    pub tx_id: u64,
    pub ops: Vec<WalOp>,
    pub puts: Vec<(String, FireLiteDoc)>,
    pub deletes: Vec<(String, FireLiteDoc)>,
}

/// Looks for the documents that operations delete.
pub fn find_dropped(shard: &Shard, files: &NameTable<FileReads>, collection: &str, ops: &Vec<WalOp>) -> (r: Vec<(String, FireLiteDoc)>)
    requires
        shard.wf(),
        files_wf(*files),
    ensures
        docs_view(r@) == dropped_docs(shard.places(), files@, collection@, ops_view(ops@)),
{
    let ghost m = shard.places();
    let ghost c = ops_view(ops@);
    let mut r: Vec<(String, FireLiteDoc)> = Vec::new();
    let mut i: usize = 0;
    proof {
        assert(c.take(0) =~= Seq::<Change>::empty());
        assert(docs_view(r@) =~= Seq::<(Seq<char>, Doc)>::empty());
    }
    while i < ops.len()
        invariant
            shard.wf(),
            files_wf(*files),
            m == shard.places(),
            c == ops_view(ops@),
            i <= ops@.len(),
            docs_view(r@) == dropped_docs(m, files@, collection@, c.take(i as int)),
        decreases ops@.len() - i,
    {
        proof {
            assert(c.take(i + 1).drop_last() =~= c.take(i as int));
            assert(c.take(i + 1).last() == ops@[i as int]@);
        }
        let ghost before = r@;
        if let WalOp::Delete { key, .. } = &ops[i] {
            if let Some(b) = shard.get(key, find_read(files, collection, key)) {
                if let Some(d) = FireLiteDoc::decode(b.as_slice()) {
                    let ghost dd = d@;
                    r.push((key.clone(), d));
                    proof {
                        assert(docs_view(r@) =~= docs_view(before).push((key@, dd)));
                    }
                }
            }
        }
        i = i + 1;
    }
    proof {
        assert(c.take(i as int) =~= c);
    }
    r
}

/// Applies what a batch does to a collection.
pub fn apply_work(shard: &mut Shard, files: &NameTable<FileReads>, collection: &String, work: ShardWork) -> (r: Applied)
    requires
        old(shard).wf(),
        files_wf(*files),
    ensures
        final(shard).wf(),
        shard_after(*old(shard), *final(shard), work@),
        applied_is(r, *old(shard), files@, collection@, work@),
{
    let deletes = find_dropped(shard, files, collection.as_str(), &work.ops);
    let tx_id: u64 = shard.next_tx_id;
    shard.next_tx_id = tx_id.wrapping_add(1);
    shard.commit(&work.ops);
    shard.queue_blobs(work.blobs);
    shard.blob_end = work.blob_end;
    Applied { collection: collection.clone(), tx_id, ops: work.ops, puts: work.index_puts, deletes }
}

/// What a batch did to a collection is what was planned.
pub open spec fn applied_is(
    r: Applied,
    before: Shard,
    files: Map<Seq<char>, FileReads>,
    c: Seq<char>,
    p: Plan,
) -> bool {
    &&& r.collection@ == c
    &&& r.tx_id == before.next_tx_id
    &&& ops_view(r.ops@) == p.ops
    &&& docs_view(r.puts@) == p.puts
    &&& docs_view(r.deletes@) == dropped_docs(before.places(), files, c, p.ops)
}

/// The news of an operation, if it is one.
pub open spec fn news(c: Change) -> Option<(Seq<char>, ChangeKind)> {
    match c {
        Change::Put { key, .. } => Some((key, ChangeKind::Put)),
        Change::Delete { key, .. } => Some((key, ChangeKind::Delete)),
        _ => None,
    }
}

/// The news of operations in their order.
pub open spec fn all_news(ops: Seq<Change>) -> Seq<(Seq<char>, ChangeKind)>
    decreases ops.len(),
{
    if ops.len() == 0 {
        Seq::empty()
    } else {
        match news(ops.last()) {
            Some(n) => all_news(ops.drop_last()).push(n),
            None => all_news(ops.drop_last()),
        }
    }
}

/// What events tell.
pub open spec fn events_view(s: Seq<ChangeEvent>) -> Seq<(Seq<char>, ChangeKind)> {
    Seq::new(s.len(), |i: int| (s[i].path@, s[i].kind))
}

/// The news of operations, for those who watch.
pub fn events_of(ops: &Vec<WalOp>) -> (r: Vec<ChangeEvent>)
    ensures
        events_view(r@) == all_news(ops_view(ops@)),
{
    let ghost c = ops_view(ops@);
    let mut r: Vec<ChangeEvent> = Vec::new();
    let mut i: usize = 0;
    proof {
        assert(c.take(0) =~= Seq::<Change>::empty());
        assert(events_view(r@) =~= Seq::<(Seq<char>, ChangeKind)>::empty());
    }
    while i < ops.len()
        invariant
            c == ops_view(ops@),
            i <= ops@.len(),
            events_view(r@) == all_news(c.take(i as int)),
        decreases ops@.len() - i,
    {
        proof {
            assert(c.take(i + 1).drop_last() =~= c.take(i as int));
            assert(c.take(i + 1).last() == ops@[i as int]@);
        }
        let ghost before = r@;
        let kind: Option<ChangeKind> = match &ops[i] {
            WalOp::PutInlined { .. } => Some(ChangeKind::Put),
            WalOp::Delete { .. } => Some(ChangeKind::Delete),
            _ => None,
        };
        if let Some(k) = kind {
            r.push(ChangeEvent { path: ops[i].get_key().clone(), kind: k });
            proof {
                assert(events_view(r@) =~= events_view(before).push((change_key(ops@[i as int]@), k)));
            }
        }
        i = i + 1;
    }
    proof {
        assert(c.take(i as int) =~= c);
    }
    r
}

impl Applied {
    /// The news of the batch, for those who watch the collection.
    pub fn events(&self) -> (r: Vec<ChangeEvent>)
        ensures
            events_view(r@) == all_news(ops_view(self.ops@)),
    {
        events_of(&self.ops)
    }

    /// What the indexes are to follow; nothing where no document came or went.
    pub fn index_update(self) -> (r: Option<IndexOp>)
        ensures
            match r {
                Some(u) => u.collection == self.collection && u.puts == self.puts && u.deletes == self.deletes && (
                self.puts@.len() > 0 || self.deletes@.len() > 0),
                None => self.puts@.len() == 0 && self.deletes@.len() == 0,
            },
    {
        if self.puts.len() == 0 && self.deletes.len() == 0 {
            None
        } else {
            Some(IndexOp { collection: self.collection, puts: self.puts, deletes: self.deletes })
        }
    }
}

} // verus!
