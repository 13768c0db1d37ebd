//! What a store has again once it is opened, what a patch and a look at a document give, and what
//! its errors say.
use vstd::prelude::*;
use vstd::string::*;

use crate::config::{default_settings, HakoConfig};
use crate::directory::NameTable;
use crate::document::firelite_doc::{doc_bytes, document_round_trip, Doc, FireLiteDoc};
use crate::document::value::Val;
use crate::engine::access::permitted;
use crate::engine::batches::{batch_puts, patch_lies};
use crate::engine::collections::opened_places;
use crate::engine::engine::{Hako, Outcome};
use crate::engine::files::FileReads;
use crate::engine::marks::{kept_marks_come_back, marks_doc, Marks};
use crate::engine::recovery::{
    adopted, definition_of, entry_docs, first_found, found_docs, indexes_filled, indexes_recovered, kept_defs, kept_index, named_direction,
    names_field, opened_with, rebuild_steps, rebuilt, restored, restored_defs, restored_last, state_of, FoundShard,
    PersistedCompositeIndex, PersistedIndexState,
};
use crate::engine::rules::allowed_batch_succeeds;
use crate::engine::scope::{entries_with, tree_entries, viewed};
use crate::engine::store::{marks_written, patched, patches, written};
use crate::engine::types::{AccessOp, Wish};
use crate::engine::write::shard_places;
use crate::error::{error_kind, error_message, HakoError};
use crate::index::composite::composite_index::{column_value, CompositeIndex};
use crate::index::composite::definition::{Definition, SortDirection};
use crate::index::index_key::scalar_key;
use crate::index::manager::{indexed, merged, secondary_step, under, IndexManager};
use crate::index::saved_state::{bytes_state, state_taken, taken_over, State};
use crate::index::storage::index_recovery::{log_entries, replay, replayed};
use crate::memory::memory_engine::page_key;
use crate::query::Query;
use crate::storage::blob::{skeleton_doc, Work};
use crate::storage::pointer::{Place, Pointer};
use crate::storage::shard::{pending_after, pending_without, Shard};

verus! {

/// A patch that the rules forbid changes no document and is answered with an error. One that they
/// allow leaves, where the document lay in memory or there was none, a document with the values of
/// the patch under their keys and with what it had under the others.
pub proof fn patch_is_kept(
    a: Hako,
    b: Hako,
    files: Map<Seq<char>, FileReads>,
    nanos: i64,
    c: Seq<char>,
    id: Seq<char>,
    updates: Seq<(Seq<char>, Val)>,
    r: Result<Outcome, HakoError>,
    had: Option<Doc>,
    x: Seq<char>,
)
    requires
        patched(a, b, files, nanos, c, id, updates, r),
        id.len() > 0,
        match had {
            Some(d) => shard_places(a.shards@, c).contains_key(id) && shard_places(a.shards@, c)[id] == Place::Inlined(
                doc_bytes(d),
            ) && d.fits() && d.wf(),
            None => !shard_places(a.shards@, c).contains_key(id) || shard_places(a.shards@, c)[id] is Deleted,
        },
    ensures
        !permitted(a.security_rules@, c, AccessOp::Put) || !permitted(a.security_rules@, c, AccessOp::Batch) ==> r is Err
            && b.shards == a.shards && b.versions == a.versions,
        permitted(a.security_rules@, c, AccessOp::Put) && permitted(a.security_rules@, c, AccessOp::Batch) ==> r is Ok
            && exists|e: Doc, end: Option<u64>|
            {
                &&& b.shards@[c].places().contains_key(id)
                &&& b.shards@[c].places()[id] == Place::Inlined(
                    doc_bytes(#[trigger] skeleton_doc(e, a.config.value_blob_threshold_bytes as nat, end)),
                )
                &&& e.wf()
                &&& e.time == (nanos as int / 1000) as i64
                &&& forall|i: int|
                    0 <= i < updates.len() && (#[trigger] updates[i]).0 == x && (forall|j: int|
                        i < j < updates.len() ==> (#[trigger] updates[j]).0 != x) ==> e.map().contains_key(x) && e.map()[x]
                        == updates[i].1
                &&& (forall|i: int| 0 <= i < updates.len() ==> (#[trigger] updates[i]).0 != x) ==> match had {
                    Some(d) => e.map().contains_key(x) == d.map().contains_key(x) && (d.map().contains_key(x)
                        ==> e.map()[x] == d.map()[x]),
                    None => !e.map().contains_key(x),
                }
            },
{
    let w = patches(c, seq![id], updates);
    assert(w[0] == (Wish::Patch { collection: c, id, updates }));
    assert(w =~= seq![Wish::Patch { collection: c, id, updates }]);
    if permitted(a.security_rules@, c, AccessOp::Put) {
        let mid = choose|mid: Hako|
            #![trigger written(a, mid, files, nanos, patches(c, seq![id], updates), r)]
            written(a, mid, files, nanos, patches(c, seq![id], updates), r) && crate::engine::store::only_audit(mid, b);
        assert(written(a, mid, files, nanos, w, r));
        if permitted(a.security_rules@, c, AccessOp::Batch) {
            assert forall|i: int| 0 <= i < w.len() implies permitted(
                a.security_rules@,
                crate::engine::types::wish_collection(#[trigger] w[i]),
                AccessOp::Batch,
            ) by {}
            assert(crate::engine::store::batch_permitted(a, w));
            let e = patch_lies(a, mid, files, nanos, c, id, updates, had, x);
        } else {
            assert(!permitted(a.security_rules@, crate::engine::types::wish_collection(w[0]), AccessOp::Batch));
        }
    }
}

/// A look at a document gives its bytes as they are stored, where the rules allow it, and changes
/// no document.
pub proof fn look_gives_bytes(
    a: Hako,
    b: Hako,
    reads: FileReads,
    c: Seq<char>,
    id: Seq<char>,
    r: Result<Option<Vec<u8>>, HakoError>,
    d: Doc,
    x: Seq<char>,
)
    requires
        viewed(a, b, reads, c, id, r),
    ensures
        !permitted(a.security_rules@, c, AccessOp::Get) ==> r is Err,
        shard_places(b.shards@, x) == shard_places(a.shards@, x),
        b.versions == a.versions,
        permitted(a.security_rules@, c, AccessOp::Get) && shard_places(a.shards@, c).contains_key(id) && shard_places(
            a.shards@,
            c,
        )[id] == Place::Inlined(doc_bytes(d)) ==> (r matches Ok(Some(v)) && v@ == doc_bytes(d)),
        permitted(a.security_rules@, c, AccessOp::Get) && (!shard_places(a.shards@, c).contains_key(id) || shard_places(
            a.shards@,
            c,
        )[id] is Deleted) ==> r matches Ok(None),
{
    if b.shards != a.shards {
        opened_places(a.shards@, b.shards@, c, x);
    }
    crate::util::fixed::le_round_trip((d.time as u64) as nat, 8);
    crate::util::fixed::le_round_trip(d.fields.len(), 2);
    assert(crate::document::firelite_doc::has_header(doc_bytes(d)));
}

/// The entries of the indexes that hold a field are listed index by index, in their order.
pub proof fn entries_are_listed(a: Seq<CompositeIndex>, b: Seq<CompositeIndex>, x: CompositeIndex, f: Seq<char>, i: int)
    ensures
        entries_with(a + b, f) == entries_with(a, f) + entries_with(b, f),
        (exists|k: int| 0 <= k < x.definition.fields@.len() && (#[trigger] x.definition.fields@[k]).field@ == f)
            ==> entries_with(seq![x], f).len() == x.tree.seq().len() && (0 <= i < x.tree.seq().len() ==> entries_with(
            seq![x],
            f,
        )[i].0 == x.tree.seq()[i].0 && entries_with(seq![x], f)[i].1 == x.tree.seq()[i].1@),
        (forall|k: int| 0 <= k < x.definition.fields@.len() ==> (#[trigger] x.definition.fields@[k]).field@ != f)
            ==> entries_with(seq![x], f).len() == 0,
    decreases b.len(),
{
    assert(seq![x].drop_last() =~= Seq::<CompositeIndex>::empty());
    assert(entries_with(Seq::empty(), f) =~= Seq::<(Seq<u8>, Seq<char>)>::empty());
    assert(Seq::<(Seq<u8>, Seq<char>)>::empty() + tree_entries(x) =~= tree_entries(x));
    if b.len() == 0 {
        assert(a + b =~= a);
        assert(entries_with(a, f) + entries_with(b, f) =~= entries_with(a, f));
    } else {
        entries_are_listed(a, b.drop_last(), x, f, i);
        assert((a + b).drop_last() =~= a + b.drop_last());
        assert((a + b).last() == b.last());
        assert(entries_with(a + b, f) =~= entries_with(a, f) + entries_with(b, f));
    }
}

/// The documents of a collection that was found are those that its entries lead to, in order.
pub proof fn entries_lead_to_documents(
    a: Seq<(Seq<char>, Pointer)>,
    b: Seq<(Seq<char>, Pointer)>,
    e: (Seq<char>, Pointer),
    d: Doc,
    files: Map<Seq<char>, FileReads>,
    c: Seq<char>,
)
    ensures
        entry_docs(a + b, files, c) == entry_docs(a, files, c) + entry_docs(b, files, c),
        e.1@ == Place::Inlined(doc_bytes(d)) && d.fits() ==> entry_docs(seq![e], files, c) == seq![(c, e.0, d)],
        e.1@ is Deleted ==> entry_docs(seq![e], files, c).len() == 0,
    decreases b.len(),
{
    assert(seq![e].drop_last() =~= Seq::<(Seq<char>, Pointer)>::empty());
    let none = Seq::<(Seq<char>, Seq<char>, Doc)>::empty();
    assert(entry_docs(Seq::empty(), files, c) =~= none);
    assert(none.push((c, e.0, d)) =~= seq![(c, e.0, d)]);
    if d.fits() {
        document_round_trip(d);
    }
    if b.len() == 0 {
        assert(a + b =~= a);
        assert(entry_docs(a, files, c) + entry_docs(b, files, c) =~= entry_docs(a, files, c));
    } else {
        entries_lead_to_documents(a, b.drop_last(), e, d, files, c);
        assert((a + b).drop_last() =~= a + b.drop_last());
        assert((a + b).last() == b.last());
        assert(entry_docs(a + b, files, c) =~= entry_docs(a, files, c) + entry_docs(b, files, c));
    }
}

/// The documents of all collections that were found are those of each, one after the other.
pub proof fn all_found_documents(a: Seq<FoundShard>, b: Seq<FoundShard>, x: FoundShard, files: Map<Seq<char>, FileReads>)
    ensures
        found_docs(a + b, files) == found_docs(a, files) + found_docs(b, files),
        found_docs(seq![x], files) == entry_docs(x.shard.index.seq(), files, x.name@),
        found_docs(Seq::empty(), files).len() == 0,
    decreases b.len(),
{
    assert(seq![x].drop_last() =~= Seq::<FoundShard>::empty());
    let none = Seq::<(Seq<char>, Seq<char>, Doc)>::empty();
    assert(found_docs(Seq::empty(), files) =~= none);
    let own = entry_docs(x.shard.index.seq(), files, x.name@);
    assert(none + own =~= own);
    if b.len() == 0 {
        assert(a + b =~= a);
        assert(found_docs(a, files) + found_docs(b, files) =~= found_docs(a, files));
    } else {
        all_found_documents(a, b.drop_last(), x, files);
        assert((a + b).drop_last() =~= a + b.drop_last());
        assert((a + b).last() == b.last());
        assert(found_docs(a + b, files) =~= found_docs(a, files) + found_docs(b, files));
    }
}

/// Every document that indexes are rebuilt from is found in them by the value of each indexed
/// field, and no index comes or goes.
pub proof fn rebuilt_finds_documents(
    a: IndexManager,
    b: IndexManager,
    docs: Seq<(Seq<char>, Seq<char>, Doc)>,
    i: int,
    f: Seq<char>,
)
    requires
        rebuilt(a, b, docs),
        0 <= i < docs.len(),
    ensures
        b.secondary_at(docs[i].0, f) is Some == a.secondary_at(docs[i].0, f) is Some,
        a.secondary_at(docs[i].0, f) is Some ==> (column_value(f, docs[i].1, docs[i].2) matches Some(v) ==> b.secondary_at(
            docs[i].0,
            f,
        )->Some_0.posting(scalar_key(v)).contains(docs[i].1)),
        b.composite.indexes().len() == a.composite.indexes().len(),
{
    let steps = choose|steps: Seq<IndexManager>| #[trigger]
        rebuild_steps(steps, docs) && steps[0] == a && steps[docs.len() as int] == b;
    rebuilt_so_far(steps, docs, docs.len() as int, i, f);
}

proof fn rebuilt_so_far(steps: Seq<IndexManager>, docs: Seq<(Seq<char>, Seq<char>, Doc)>, n: int, i: int, f: Seq<char>)
    requires
        rebuild_steps(steps, docs),
        0 <= i < docs.len(),
        0 <= n <= docs.len(),
    ensures
        steps[n].secondary_at(docs[i].0, f) is Some == steps[0].secondary_at(docs[i].0, f) is Some,
        i < n && steps[0].secondary_at(docs[i].0, f) is Some ==> (column_value(f, docs[i].1, docs[i].2) matches Some(v)
            ==> steps[n].secondary_at(docs[i].0, f)->Some_0.posting(scalar_key(v)).contains(docs[i].1)),
        steps[n].composite.indexes().len() == steps[0].composite.indexes().len(),
    decreases n,
{
    if n > 0 {
        rebuilt_so_far(steps, docs, n - 1, i, f);
        let d = docs[n - 1];
        let (x, y) = (steps[n - 1], steps[n]);
        assert(indexed(steps[n - 1], steps[n - 1 + 1], true, d.0, d.1, d.2));
        let (p, q) = (x.secondary_at(docs[i].0, f), y.secondary_at(docs[i].0, f));
        assert(p is Some == q is Some);
        if p is Some && d.0 == docs[i].0 {
            assert(secondary_step(true, d.1, d.2, f, p->Some_0, q->Some_0));
        }
    }
}

/// Indexes come back from a snapshot where it holds a state, and else from the documents.
pub proof fn snapshot_or_documents(
    a: IndexManager,
    m: IndexManager,
    snapshot: Option<Seq<u8>>,
    docs: Seq<(Seq<char>, Seq<char>, Doc)>,
)
    requires
        indexes_filled(a, m, snapshot, docs),
    ensures
        snapshot is None ==> rebuilt(a, m, docs),
        snapshot matches Some(b) ==> match bytes_state(b) {
            Some(s) => state_taken(a, m, s),
            None => rebuilt(a, m, docs),
        },
{
}

/// A collection that is there stays; one that was found is taken over as it was found, the first
/// of its name.
pub proof fn found_is_taken_over(a: Map<Seq<char>, Shard>, b: Map<Seq<char>, Shard>, found: Seq<FoundShard>, i: int)
    requires
        adopted(a, b, found),
        0 <= i < found.len(),
        forall|k: int| 0 <= k < i ==> (#[trigger] found[k]).name@ != found[i].name@,
    ensures
        b.contains_key(found[i].name@),
        a.contains_key(found[i].name@) ==> b[found[i].name@] == a[found[i].name@],
        !a.contains_key(found[i].name@) ==> b[found[i].name@] == found[i].shard,
        forall|c: Seq<char>| #[trigger]
            b.contains_key(c) && !a.contains_key(c) ==> exists|k: int|
                0 <= k < found.len() && (#[trigger] found[k]).name@ == c && b[c] == found[k].shard,
{
    first_is_found(found, i);
    assert(b.contains_key(found[i].name@));
    assert forall|c: Seq<char>| #[trigger] b.contains_key(c) && !a.contains_key(c) implies exists|k: int|
        0 <= k < found.len() && (#[trigger] found[k]).name@ == c && b[c] == found[k].shard by {
        found_somewhere(found, c);
    }
}

proof fn first_is_found(found: Seq<FoundShard>, i: int)
    requires
        0 <= i < found.len(),
        forall|k: int| 0 <= k < i ==> (#[trigger] found[k]).name@ != found[i].name@,
    ensures
        first_found(found, found[i].name@) == Some(found[i].shard),
    decreases found.len(),
{
    let pre = found.drop_last();
    let c = found[i].name@;
    if i < pre.len() {
        assert(pre[i] == found[i]);
        assert forall|k: int| 0 <= k < i implies (#[trigger] pre[k]).name@ != pre[i].name@ by {
            assert(pre[k] == found[k]);
        }
        first_is_found(pre, i);
    } else {
        if first_found(pre, c) is Some {
            found_somewhere(pre, c);
            let k = choose|k: int| 0 <= k < pre.len() && (#[trigger] pre[k]).name@ == c && first_found(pre, c) == Some(
                pre[k].shard,
            );
            assert(found[k] == pre[k]);
        }
    }
}

proof fn found_somewhere(found: Seq<FoundShard>, c: Seq<char>)
    requires
        first_found(found, c) is Some,
    ensures
        exists|k: int|
            0 <= k < found.len() && (#[trigger] found[k]).name@ == c && first_found(found, c) == Some(found[k].shard),
    decreases found.len(),
{
    if found.len() > 0 {
        let pre = found.drop_last();
        if first_found(pre, c) is Some {
            found_somewhere(pre, c);
            let k = choose|k: int| 0 <= k < pre.len() && (#[trigger] pre[k]).name@ == c && first_found(pre, c) == Some(
                pre[k].shard,
            );
            assert(found[k] == pre[k]);
        } else {
            assert(found[found.len() - 1].name@ == c);
        }
    }
}

/// Indexes of fields that were kept are there again, and empty; the others stay.
pub proof fn kept_fields_are_there(
    a: IndexManager,
    b: IndexManager,
    state: PersistedIndexState,
    i: int,
    k: int,
    c: Seq<char>,
    f: Seq<char>,
)
    requires
        restored(a, b, state),
    ensures
        0 <= i < state.secondary@.len() && 0 <= k < state.secondary@[i].1@.len() ==> (b.secondary_at(
            state.secondary@[i].0@,
            state.secondary@[i].1@[k]@,
        ) matches Some(x) && forall|key: Seq<u8>, id: Seq<char>| !(#[trigger] x.posting(key).contains(id))),
        0 <= i < state.fts@.len() && 0 <= k < state.fts@[i].1@.len() ==> (b.fts_at(
            state.fts@[i].0@,
            state.fts@[i].1@[k]@,
        ) matches Some(x) && forall|w: Seq<char>, id: Seq<char>| !(#[trigger] x.posting(w).contains(id))),
        (forall|j: int| 0 <= j < state.secondary@.len() ==> (#[trigger] state.secondary@[j]).0@ != c) ==> b.secondary_at(c, f)
            == a.secondary_at(c, f),
        (forall|j: int| 0 <= j < state.fts@.len() ==> (#[trigger] state.fts@[j]).0@ != c) ==> b.fts_at(c, f) == a.fts_at(
            c,
            f,
        ),
{
    if 0 <= i < state.secondary@.len() && 0 <= k < state.secondary@[i].1@.len() {
        let n = crate::document::firelite_doc::names_view(state.secondary@[i].1@);
        assert(n[k] == state.secondary@[i].1@[k]@);
        assert(names_field(state.secondary@, state.secondary@[i].0@, state.secondary@[i].1@[k]@));
    }
    if 0 <= i < state.fts@.len() && 0 <= k < state.fts@[i].1@.len() {
        let n = crate::document::firelite_doc::names_view(state.fts@[i].1@);
        assert(n[k] == state.fts@[i].1@[k]@);
        assert(names_field(state.fts@, state.fts@[i].0@, state.fts@[i].1@[k]@));
    }
}

/// The next composite index gets a number above those of all that came back.
pub proof fn numbers_go_on(have: Seq<Definition>, last: u32, add: Seq<Definition>, i: int)
    requires
        forall|k: int| 0 <= k < have.len() ==> (#[trigger] have[k]).id <= last,
        0 <= i < restored_defs(have, add).len(),
    ensures
        restored_defs(have, add)[i].id <= restored_last(have, last, add),
        last <= restored_last(have, last, add),
    decreases add.len(),
{
    if add.len() > 0 {
        let pre = add.drop_last();
        let d = restored_defs(have, pre);
        if i < d.len() {
            numbers_go_on(have, last, pre, i);
        } else if d.len() > 0 {
            numbers_go_on(have, last, pre, 0);
        } else {
            never_below(have, last, pre);
        }
    }
}

proof fn never_below(have: Seq<Definition>, last: u32, add: Seq<Definition>)
    ensures
        last <= restored_last(have, last, add),
    decreases add.len(),
{
    if add.len() > 0 {
        never_below(have, last, add.drop_last());
    }
}

/// Each composite index is kept in order, with its number, its collection and its columns.
pub proof fn composites_are_kept(mgr: IndexManager, r: PersistedIndexState, i: int)
    requires
        state_of(mgr, r),
        0 <= i < mgr.composite.indexes().len(),
    ensures
        r.composite@.len() == mgr.composite.indexes().len(),
        definition_of(r.composite@[i]@) == mgr.composite.indexes()[i].definition@,
{
    let d = mgr.composite.indexes()[i].definition@;
    assert(r.composite@[i]@ == kept_index(d));
    crate::engine::recovery::kept_index_comes_back(d);
}

/// A store that is opened has the settings that it was given, no documents yet, no rules and no
/// lines in its audit, and the marks that were kept.
pub proof fn opened_store_is_empty(
    db: Hako,
    config: HakoConfig,
    defs: Option<&PersistedIndexState>,
    marks: Option<&FireLiteDoc>,
    c: Seq<char>,
    f: Seq<char>,
)
    requires
        opened_with(db, config, defs, marks),
    ensures
        db.config == config,
        shard_places(db.shards@, c) == Map::<Seq<char>, Place>::empty(),
        permitted(db.security_rules@, c, AccessOp::Get),
        db.audit_data@.len() == 0,
        marks is None ==> !db.marks@.collections.contains(c) && !db.marks@.documents.contains(c),
        defs is None ==> db.indexes.secondary_at(c, f) is None && db.indexes.fts_at(c, f) is None,
        !db.indexes_ready,
{
    assert(shard_places(db.shards@, c) =~= Map::<Seq<char>, Place>::empty());
}

/// What came to wait and was then written no longer waits: the count is what it was.
pub proof fn waiting_is_undone(p: usize, works: Seq<Work>, w: Work)
    ensures
        pending_after(p, Seq::empty()) == p,
        pending_without(p, Seq::empty()) == p,
        pending_after(p, works) + w.len <= usize::MAX ==> pending_after(p, works.push(w)) == pending_after(p, works) + w.len,
        pending_without(p, works) >= w.len ==> pending_without(p, works.push(w)) == pending_without(p, works) - w.len,
{
    assert(works.push(w).drop_last() =~= works);
}

/// Pages are cached by where they begin, so that different pages have different keys.
pub proof fn pages_have_own_keys(i: int, j: int, size: int)
    requires
        0 <= i < j,
        size > 0,
        j * size <= u64::MAX,
    ensures
        page_key(i, size) != page_key(j, size),
        page_key(j, size).offset == j * size,
{
    assert(0 <= i * size < j * size) by (nonlinear_arith)
        requires
            0 <= i < j,
            size > 0,
    ;
}

/// The settings of a store that was given none: a map of 256 MiB in pages of 4 KiB, values above
/// 16 KiB kept aside, four workers, nothing encrypted, compressed or audited, and everything
/// replicated.
pub proof fn settings_by_default(c: HakoConfig)
    requires
        default_settings(c),
    ensures
        c.mmap_size == 256 * 1024 * 1024,
        c.page_size == 4 * 1024,
        c.value_blob_threshold_bytes == 16 * 1024,
        c.auto_compaction_threshold_bytes == 8 * 1024 * 1024,
        c.max_inlined_memory_bytes == 64 * 1024 * 1024,
        c.wal_reserve_bytes == 4 * 1024 * 1024,
        c.page_cache_capacity == 8 * 1024,
        c.query_workers == 4,
        c.group_commit_max_ops == 128,
        c.encryption_key is None && c.encrypted_cols is None,
        !c.enable_audit_log && c.audit_log_path is None,
        !c.use_compression && c.compression_level == 3,
        c.sync_excluded@.len() == 0 && c.replication_collections is None,
        c.background_maintenance,
{
}

/// An error in words says what kind it is and then its message.
pub proof fn errors_in_words(m: String)
    ensures
        error_message(HakoError::Io(m)) == m@ && error_kind(HakoError::Io(m)) == "io error: "@,
        error_message(HakoError::LockPoisoned(m)) == m@ && error_kind(HakoError::LockPoisoned(m)) == "lock poisoned: "@,
        error_message(HakoError::StorageError(m)) == m@ && error_kind(HakoError::StorageError(m)) == "storage error: "@,
        error_message(HakoError::QueryError(m)) == m@ && error_kind(HakoError::QueryError(m)) == "query error: "@,
        error_message(HakoError::IndexError(m)) == m@ && error_kind(HakoError::IndexError(m)) == "index error: "@,
        error_message(HakoError::Corrupt(m)) == m@ && error_kind(HakoError::Corrupt(m)) == "corrupt data: "@,
        error_message(HakoError::InvalidInput(m)) == m@ && error_kind(HakoError::InvalidInput(m)) == "invalid input: "@,
{
}

/// A query with any condition, choice, order or end is not one for everything, and one without is.
pub proof fn conditions_are_not_plain(q: Query)
    ensures
        q.filters@.len() > 0 || q.or_groups@.len() > 0 || q.order_by@.len() > 0 ==> !q.plain(),
        q.start_at is Some || q.start_after is Some || q.end_at is Some || q.end_before is Some ==> !q.plain(),
        !q.plain() ==> q.filters@.len() > 0 || q.or_groups@.len() > 0 || q.order_by@.len() > 0 || q.start_at is Some
            || q.start_after is Some || q.end_at is Some || q.end_before is Some,
{
}

/// The marks that a store is opened with are those that were kept.
pub proof fn marks_are_there_again(db: Hako, config: HakoConfig, m: Marks, doc: &FireLiteDoc, c: Seq<char>)
    requires
        m.wf(),
        opened_with(db, config, None, Some(doc)),
        doc@ == crate::engine::marks::marks_doc(m.col_list(), m.key_list()),
    ensures
        db.marks@.collections.contains(c) == m@.collections.contains(c),
        db.marks@.documents.contains(c) == m@.documents.contains(c),
{
    kept_marks_come_back(m);
}

/// A direction that is kept by its name is the one that was meant, in small letters or capitals.
pub proof fn directions_are_named(s: Seq<char>)
    ensures
        named_direction("desc"@) == SortDirection::Desc,
        named_direction("DESC"@) == SortDirection::Desc,
        named_direction("asc"@) == SortDirection::Asc,
        s.len() != 4 ==> named_direction(s) == SortDirection::Asc,
{
    reveal_strlit("desc");
    reveal_strlit("DESC");
    reveal_strlit("asc");
}

/// What was saved takes the place of what stands under the same names, and everything else stays.
pub proof fn saved_takes_its_place<T>(
    a: NameTable<NameTable<T>>,
    saved: NameTable<NameTable<T>>,
    b: NameTable<NameTable<T>>,
    c: Seq<char>,
    f: Seq<char>,
)
    requires
        merged(a, saved, b),
    ensures
        under(a, c, f) is None ==> under(b, c, f) is None,
        under(a, c, f) is Some && under(saved, c, f) is Some ==> under(b, c, f) == under(saved, c, f),
        under(a, c, f) is Some && under(saved, c, f) is None ==> under(b, c, f) == under(a, c, f),
{
}

/// Without a snapshot the indexes that come back find every document that was found, and a
/// composite index holds besides what its log tells.
pub proof fn recovered_indexes_find_documents(
    a: IndexManager,
    b: IndexManager,
    docs: Seq<(Seq<char>, Seq<char>, Doc)>,
    log: Seq<u8>,
    i: int,
    f: Seq<char>,
)
    requires
        indexes_recovered(a, b, None, docs, log),
        0 <= i < docs.len(),
    ensures
        b.secondary_at(docs[i].0, f) is Some == a.secondary_at(docs[i].0, f) is Some,
        a.secondary_at(docs[i].0, f) is Some ==> (column_value(f, docs[i].1, docs[i].2) matches Some(v) ==> b.secondary_at(
            docs[i].0,
            f,
        )->Some_0.posting(scalar_key(v)).contains(docs[i].1)),
        b.composite.indexes().len() == a.composite.indexes().len(),
{
    let m = choose|m: IndexManager| #[trigger]
        indexes_filled(a, m, None, docs) && b.secondary == m.secondary && b.fts == m.fts && replayed(
            m.composite.indexes(),
            b.composite.indexes(),
            log_entries(log),
        ) && b.composite.last_id() == m.composite.last_id();
    rebuilt_finds_documents(a, m, docs, i, f);
}

/// With a snapshot the indexes of single fields and of words are those of the snapshot, and each
/// composite index is the one that was there with what its log tells.
pub proof fn snapshot_comes_back(
    a: IndexManager,
    b: IndexManager,
    bytes: Seq<u8>,
    s: State,
    docs: Seq<(Seq<char>, Seq<char>, Doc)>,
    log: Seq<u8>,
    i: int,
)
    requires
        indexes_recovered(a, b, Some(bytes), docs, log),
        bytes_state(bytes) == Some(s),
    ensures
        taken_over(a.secondary, b.secondary, s.secondary),
        taken_over(a.fts, b.fts, s.fts),
        b.composite.indexes().len() == a.composite.indexes().len(),
        0 <= i < a.composite.indexes().len() ==> b.composite.indexes()[i].entries() == replay(
            a.composite.indexes()[i].entries(),
            a.composite.indexes()[i].definition.id,
            log_entries(log),
        ),
{
}

/// Marks that are written lie in memory as one document of the system: the collections and the
/// documents that stay on this device.
pub proof fn marks_are_written_down(a: Hako, b: Hako, nanos: i64, r: Result<Outcome, HakoError>)
    requires
        marks_written(a, b, nanos, r),
        permitted(a.security_rules@, "__hako_system"@, AccessOp::Batch),
    ensures
        r is Ok,
        b.shards@.contains_key("__hako_system"@),
        b.shards@["__hako_system"@].places().contains_key("local_only"@),
        exists|end: Option<u64>|
            b.shards@["__hako_system"@].places()["local_only"@] == Place::Inlined(
                doc_bytes(
                    #[trigger] skeleton_doc(
                        Doc {
                            fields: marks_doc(a.marks.col_list(), a.marks.key_list()).fields,
                            time: (nanos as int / 1000) as i64,
                        },
                        a.config.value_blob_threshold_bytes as nat,
                        end,
                    ),
                ),
            ),
{
    reveal_strlit("local_only");
    let w = seq![
        Wish::Put {
            collection: "__hako_system"@,
            id: "local_only"@,
            doc: marks_doc(a.marks.col_list(), a.marks.key_list()),
        },
    ];
    let files = Map::<Seq<char>, FileReads>::empty();
    allowed_batch_succeeds(a, b, files, nanos, w, r);
    batch_puts(a, b, files, nanos, w, 0);
}

/// The composite indexes that are kept come back one by one, in order.
pub proof fn kept_composites_are_read(
    a: Seq<PersistedCompositeIndex>,
    b: Seq<PersistedCompositeIndex>,
    x: PersistedCompositeIndex,
)
    ensures
        kept_defs(a + b) == kept_defs(a) + kept_defs(b),
        kept_defs(seq![x]) == seq![definition_of(x@)],
{
    assert(kept_defs(a + b) =~= kept_defs(a) + kept_defs(b));
    assert(kept_defs(seq![x]) =~= seq![definition_of(x@)]);
}

} // verus!
