//! What the rules of a store, its list of collections and its figures say, and what a refused
//! request leaves alone.
use vstd::prelude::*;
use vstd::string::*;

use crate::config::HakoConfig;
use crate::document::firelite_doc::{doc_bytes, document_round_trip, names_view, Doc, FireLiteDoc};
use crate::document::value::Val;
use crate::engine::access::{encrypted, permitted, withheld};
use crate::engine::batches::batch_deletes;
use crate::engine::collections::{
    opened_places, stats_of, syncs, version_map, visible_of, waiting_bytes, waiting_items,
};
use crate::engine::engine::{
    audit_view, batch_done, env_of, outcome_is, read_result, ready_doc, shard_planned, was_applied, AuditLine, Hako,
    Outcome,
};
use crate::engine::files::FileReads;
use crate::engine::marks::{slot, stays};
use crate::engine::scope::{answered, deleted_here, figured, row_ids};
use crate::engine::store::{deletions, got, marks_written, patches, queried, stored_at, tombstones_gone, written};
use crate::engine::types::{
    quiescent, wishes, AccessOp, BatchMutation, QuiescenceStatus, SecurityRule, Wish,
};
use crate::engine::versions::version_of;
use crate::engine::write::{shard_places, staged};
use crate::error::{error_message, HakoError};
use crate::index::composite::composite_index::docs_view;
use crate::storage::blob::unresolved;
use crate::storage::pointer::{place_time, Place, Pointer};
use crate::storage::shard::{is_version, live_keys, Shard};

verus! {

/// Whether a name is a prefix and something behind it.
pub open spec fn continues(name: Seq<char>, prefix: Seq<char>) -> bool {
    exists|rest: Seq<char>| name == #[trigger] (prefix + rest)
}

proof fn begins_continues(name: Seq<char>, prefix: Seq<char>)
    ensures
        crate::engine::access::begins(name, prefix) == continues(name, prefix),
{
    if crate::engine::access::begins(name, prefix) {
        assert(name =~= prefix + name.skip(prefix.len() as int));
    }
    if continues(name, prefix) {
        let rest = choose|rest: Seq<char>| name == #[trigger] (prefix + rest);
        assert(name.take(prefix.len() as int) =~= prefix);
    }
}

/// The last rule for an operation whose prefix a collection continues decides it, and where
/// there is none the operation is allowed.
pub proof fn rules_decide(rules: Seq<SecurityRule>, c: Seq<char>, op: AccessOp)
    ensures
        forall|i: int|
            0 <= i < rules.len() && (#[trigger] rules[i]).op == op && continues(c, rules[i].collection_prefix@) && (forall|
                j: int,
            |
                i < j < rules.len() ==> (#[trigger] rules[j]).op != op || !continues(c, rules[j].collection_prefix@))
                ==> permitted(rules, c, op) == rules[i].allow,
        (forall|i: int|
            0 <= i < rules.len() ==> (#[trigger] rules[i]).op != op || !continues(c, rules[i].collection_prefix@))
            ==> permitted(rules, c, op),
    decreases rules.len(),
{
    if rules.len() > 0 {
        let pre = rules.drop_last();
        let n = rules.len() - 1;
        rules_decide(pre, c, op);
        begins_continues(c, rules[n].collection_prefix@);
        assert forall|i: int|
            0 <= i < rules.len() && (#[trigger] rules[i]).op == op && continues(c, rules[i].collection_prefix@) && (forall|
                j: int,
            |
                i < j < rules.len() ==> (#[trigger] rules[j]).op != op || !continues(c, rules[j].collection_prefix@))
            implies permitted(rules, c, op) == rules[i].allow by {
            if i < n {
                assert(rules[n].op != op || !continues(c, rules[n].collection_prefix@));
                assert(pre[i] == rules[i]);
                assert forall|j: int| i < j < pre.len() implies (#[trigger] pre[j]).op != op || !continues(
                    c,
                    pre[j].collection_prefix@,
                ) by {
                    assert(pre[j] == rules[j]);
                }
            }
        }
        if forall|i: int|
            0 <= i < rules.len() ==> (#[trigger] rules[i]).op != op || !continues(c, rules[i].collection_prefix@) {
            assert(rules[n].op != op || !continues(c, rules[n].collection_prefix@));
            assert forall|j: int| 0 <= j < pre.len() implies (#[trigger] pre[j]).op != op || !continues(
                c,
                pre[j].collection_prefix@,
            ) by {
                assert(pre[j] == rules[j]);
            }
        }
    }
}

/// A read that the rules forbid is answered with an error, tells nothing and changes no
/// document; one that they allow leaves every document where it was.
pub proof fn reads_go_by_rules(
    a: Hako,
    b: Hako,
    reads: FileReads,
    c: Seq<char>,
    id: Seq<char>,
    r: Result<Option<FireLiteDoc>, HakoError>,
    x: Seq<char>,
)
    requires
        got(a, b, reads, c, id, r),
    ensures
        !permitted(a.security_rules@, c, AccessOp::Get) ==> r is Err,
        shard_places(b.shards@, x) == shard_places(a.shards@, x),
        b.versions@ == a.versions@,
        b.security_rules == a.security_rules,
        b.marks == a.marks,
        b.config == a.config,
        !a.config.enable_audit_log ==> audit_view(b.audit_data@) == audit_view(a.audit_data@),
        a.config.enable_audit_log && !permitted(a.security_rules@, c, AccessOp::Get) ==> audit_view(b.audit_data@)
            == audit_view(a.audit_data@).push(AuditLine { op: AccessOp::Get, collection: c, id: Some(id), ok: false }),
{
    if b.shards != a.shards {
        opened_places(a.shards@, b.shards@, c, x);
    }
}

/// A query that the rules forbid is answered with an error; one that they allow is answered
/// with what was found. Neither changes a document, and the audit, where it is kept, gets a
/// line that tells which of the two it was.
pub proof fn queries_go_by_rules<T>(
    a: Hako,
    b: Hako,
    c: Seq<char>,
    found: Result<T, HakoError>,
    r: Result<T, HakoError>,
    x: Seq<char>,
)
    requires
        answered(a, b, c, found, r) || figured(a, b, c, found, r),
    ensures
        !permitted(a.security_rules@, c, AccessOp::Query) ==> r is Err,
        permitted(a.security_rules@, c, AccessOp::Query) ==> r == found,
        shard_places(b.shards@, x) == shard_places(a.shards@, x),
        b.versions@ == a.versions@,
        b.security_rules == a.security_rules,
        b.marks == a.marks,
        !a.config.enable_audit_log ==> audit_view(b.audit_data@) == audit_view(a.audit_data@),
        a.config.enable_audit_log && (found is Ok || !permitted(a.security_rules@, c, AccessOp::Query)) ==> audit_view(
            b.audit_data@,
        ) == audit_view(a.audit_data@).push(
            AuditLine {
                op: AccessOp::Query,
                collection: c,
                id: None,
                ok: permitted(a.security_rules@, c, AccessOp::Query),
            },
        ),
{
    if b.shards != a.shards {
        opened_places(a.shards@, b.shards@, c, x);
    }
}

/// A batch with a change that the rules forbid is refused whole: it is answered with an error,
/// and every document, version and document held ready is as it was.
pub proof fn forbidden_batch_does_nothing(
    a: Hako,
    b: Hako,
    files: Map<Seq<char>, FileReads>,
    nanos: i64,
    w: Seq<Wish>,
    r: Result<Outcome, HakoError>,
    i: int,
)
    requires
        written(a, b, files, nanos, w, r),
        0 <= i < w.len(),
        match w[i] {
            Wish::Put { collection, .. } => !permitted(a.security_rules@, collection, AccessOp::Batch),
            Wish::Delete { collection, .. } => !permitted(a.security_rules@, collection, AccessOp::Batch),
            Wish::Patch { collection, .. } => !permitted(a.security_rules@, collection, AccessOp::Batch),
        },
    ensures
        r is Err,
        b.shards == a.shards,
        b.versions == a.versions,
        b.doc_cache == a.doc_cache,
        b.id_sequence == a.id_sequence,
        b.config == a.config,
        b.security_rules == a.security_rules,
        b.marks == a.marks,
        b.indexes == a.indexes,
{
    assert(!permitted(a.security_rules@, crate::engine::types::wish_collection(w[i]), AccessOp::Batch));
}

/// A batch whose changes the rules all allow succeeds and hands back one id for each change.
pub proof fn allowed_batch_succeeds(
    a: Hako,
    b: Hako,
    files: Map<Seq<char>, FileReads>,
    nanos: i64,
    w: Seq<Wish>,
    r: Result<Outcome, HakoError>,
)
    requires
        written(a, b, files, nanos, w, r),
        forall|i: int|
            0 <= i < w.len() ==> match #[trigger] w[i] {
                Wish::Put { collection, .. } => permitted(a.security_rules@, collection, AccessOp::Batch),
                Wish::Delete { collection, .. } => permitted(a.security_rules@, collection, AccessOp::Batch),
                Wish::Patch { collection, .. } => permitted(a.security_rules@, collection, AccessOp::Batch),
            },
    ensures
        r matches Ok(o) && o.ids@.len() == w.len() && forall|i: int|
            #![trigger w[i]]
            0 <= i < w.len() ==> match w[i] {
                Wish::Put { id, .. } => id.len() > 0 ==> o.ids@[i]@ == id,
                Wish::Delete { id, .. } => id.len() > 0 ==> o.ids@[i]@ == id,
                Wish::Patch { id, .. } => id.len() > 0 ==> o.ids@[i]@ == id,
            },
{
    let env = crate::engine::engine::env_of(a, files, nanos);
    let st = crate::engine::write::staged(env, w);
    assert(crate::engine::store::batch_permitted(a, w));
    let o = r->Ok_0;
    assert(names_view(o.ids@) == st.ids);
    crate::engine::batches::ids_count(env, w);
    assert forall|i: int| #![trigger w[i]] 0 <= i < w.len() implies match w[i] {
        Wish::Put { id, .. } => id.len() > 0 ==> o.ids@[i]@ == id,
        Wish::Delete { id, .. } => id.len() > 0 ==> o.ids@[i]@ == id,
        Wish::Patch { id, .. } => id.len() > 0 ==> o.ids@[i]@ == id,
    } by {
        crate::engine::batches::ids_of_batch(env, w, i);
        assert(names_view(o.ids@)[i] == o.ids@[i]@);
    }
}

/// A deletion of documents of a collection deletes each of them.
pub proof fn deletions_delete(
    a: Hako,
    b: Hako,
    files: Map<Seq<char>, FileReads>,
    nanos: i64,
    c: Seq<char>,
    rows: Seq<(String, FireLiteDoc)>,
    r: Result<Outcome, HakoError>,
    i: int,
)
    requires
        written(a, b, files, nanos, deletions(c, row_ids(rows)), r),
        r is Ok,
        0 <= i < rows.len(),
        rows[i].0@.len() > 0,
    ensures
        b.shards@.contains_key(c),
        b.shards@[c].places().contains_key(rows[i].0@),
        b.shards@[c].places()[rows[i].0@] == (Place::Deleted { time: (nanos as int / 1000) as i64 }),
{
    let w = deletions(c, row_ids(rows));
    assert(w[i] == (Wish::Delete { collection: c, id: rows[i].0@ }));
    batch_deletes(a, b, files, nanos, w, i);
}

/// A change of found documents asks for one change of each, with the same values.
pub proof fn patches_speak_of_all(c: Seq<char>, rows: Seq<(String, FireLiteDoc)>, updates: Seq<(Seq<char>, Val)>, i: int)
    requires
        0 <= i < rows.len(),
    ensures
        patches(c, row_ids(rows), updates).len() == rows.len(),
        patches(c, row_ids(rows), updates)[i] == (Wish::Patch { collection: c, id: rows[i].0@, updates }),
        deletions(c, row_ids(rows)).len() == rows.len(),
        deletions(c, row_ids(rows))[i] == (Wish::Delete { collection: c, id: rows[i].0@ }),
{
}

/// Documents that are deleted on this device alone are marked as ones that stay here, and what
/// was marked stays marked; no mark of a collection comes or goes. Where the rules allow the
/// deletion, each is deleted.
pub proof fn local_deletions_are_marked(
    a: Hako,
    b: Hako,
    files: Map<Seq<char>, FileReads>,
    nanos: i64,
    c: Seq<char>,
    ids: Seq<Seq<char>>,
    r: (Result<Outcome, HakoError>, Result<Outcome, HakoError>),
    i: int,
    d: Seq<char>,
    key: Seq<char>,
)
    requires
        deleted_here(a, b, files, nanos, c, ids, r),
        0 <= i < ids.len(),
    ensures
        stays(b.marks@, c, ids[i]),
        b.marks@.collections == a.marks@.collections,
        stays(a.marks@, d, key) ==> stays(b.marks@, d, key),
        stays(b.marks@, d, key) && !stays(a.marks@, d, key) ==> exists|k: int|
            0 <= k < ids.len() && (slot(d, key) == slot(c, #[trigger] ids[k]) || slot(
                d,
                key.skip(d.len() as int + 1),
            ) == slot(c, ids[k])),
        r.1 is Ok && ids[i].len() > 0 ==> b.shards@.contains_key(c) && b.shards@[c].places().contains_key(ids[i])
            && b.shards@[c].places()[ids[i]] == (Place::Deleted { time: (nanos as int / 1000) as i64 }),
{
    let mid = choose|mid: Hako|
        #![trigger written(mid, b, files, nanos, deletions(c, ids), r.1)]
        marks_written(crate::engine::store::with_marks(a, b.marks), mid, nanos, r.0) && written(
            mid,
            b,
            files,
            nanos,
            deletions(c, ids),
            r.1,
        );
    assert(b.marks@.documents.contains(slot(c, ids[i])));
    if r.1 is Ok && ids[i].len() > 0 {
        let w = deletions(c, ids);
        assert(w[i] == (Wish::Delete { collection: c, id: ids[i] }));
        batch_deletes(mid, b, files, nanos, w, i);
    }
}

/// The list of collections holds the names that neither begin with an underscore nor are
/// `snapshots`, and those alone.
pub proof fn list_holds_visible(names: Seq<Seq<char>>, x: Seq<char>)
    ensures
        visible_of(names).contains(x) <==> names.contains(x) && x != "snapshots"@ && (x.len() == 0 || x[0] != '_'),
    decreases names.len(),
{
    if names.len() > 0 {
        let pre = names.drop_last();
        list_holds_visible(pre, x);
        let (a, b) = (visible_of(pre), visible_of(names));
        assert(names =~= pre.push(names.last()));
        if a.contains(x) {
            let i = choose|i: int| 0 <= i < a.len() && a[i] == x;
            assert(b[i] == x);
        }
        if pre.contains(x) {
            let i = choose|i: int| 0 <= i < pre.len() && pre[i] == x;
            assert(names[i] == x);
        }
        if names.last() == x {
            assert(names[names.len() - 1] == x);
            if b.len() > a.len() {
                assert(b[b.len() - 1] == x);
            }
        }
    }
}

/// The list of collections keeps the order of the names.
pub proof fn list_keeps_order(a: Seq<Seq<char>>, b: Seq<Seq<char>>)
    ensures
        visible_of(a + b) == visible_of(a) + visible_of(b),
    decreases b.len(),
{
    if b.len() == 0 {
        assert(a + b =~= a);
        assert(visible_of(a) + visible_of(b) =~= visible_of(a));
    } else {
        list_keeps_order(a, b.drop_last());
        assert((a + b).drop_last() =~= a + b.drop_last());
        assert((a + b).last() == b.last());
        assert(visible_of(a + b) =~= visible_of(a) + visible_of(b));
    }
}

/// The collections that keep the state of a store, its rooms, its users and its groups never
/// replicate, nor do those that its configuration names; every other one does, but for the
/// snapshots.
pub proof fn replication_leaves_out(config: HakoConfig, c: Seq<char>)
    ensures
        c == "__hako_system"@ || c == "__hako_rooms"@ || c == "__users"@ || c == "__groups"@ || c == "snapshots"@
            ==> !syncs(config, c),
        (exists|i: int| 0 <= i < config.sync_excluded@.len() && (#[trigger] config.sync_excluded@[i])@ == c) ==> withheld(
            config,
            c,
        ) && !syncs(config, c),
        !syncs(config, c) ==> c == "__hako_system"@ || c == "__hako_rooms"@ || c == "__users"@ || c == "__groups"@ || c
            == "snapshots"@ || (exists|i: int|
            0 <= i < config.sync_excluded@.len() && (#[trigger] config.sync_excluded@[i])@ == c),
        withheld(config, c) ==> !syncs(config, c),
        syncs(config, c) || withheld(config, c) || c == "snapshots"@,
{
    let names = names_view(config.sync_excluded@);
    if exists|i: int| 0 <= i < config.sync_excluded@.len() && (#[trigger] config.sync_excluded@[i])@ == c {
        let i = choose|i: int| 0 <= i < config.sync_excluded@.len() && (#[trigger] config.sync_excluded@[i])@ == c;
        assert(names[i] == c);
    }
    if names.contains(c) {
        let i = choose|i: int| 0 <= i < names.len() && names[i] == c;
        assert(config.sync_excluded@[i]@ == c);
    }
}

/// Without a key nothing is encrypted; with one, what the list names, and everything where there
/// is no list or nothing in it.
pub proof fn encryption_goes_by_list(config: HakoConfig, c: Seq<char>)
    ensures
        config.encryption_key is None ==> !encrypted(config, c),
        config.encryption_key is Some && config.encrypted_cols is None ==> encrypted(config, c),
        config.encryption_key is Some ==> (config.encrypted_cols matches Some(cols) ==> (cols@.len() == 0 ==> encrypted(
            config,
            c,
        )) && (forall|i: int| 0 <= i < cols@.len() && (#[trigger] cols@[i])@ == c ==> encrypted(config, c)) && (cols@.len()
            > 0 && (forall|i: int| 0 <= i < cols@.len() ==> (#[trigger] cols@[i])@ != c) ==> !encrypted(config, c))),
{
    if let Some(cols) = config.encrypted_cols {
        let names = names_view(cols@);
        assert forall|i: int| 0 <= i < cols@.len() && (#[trigger] cols@[i])@ == c implies names.contains(c) by {
            assert(names[i] == c);
        }
        if names.contains(c) {
            let i = choose|i: int| 0 <= i < names.len() && names[i] == c;
            assert(cols@[i]@ == c);
        }
    }
}

/// The keys of a collection are those whose documents were not deleted, in the order of the
/// entries.
pub proof fn live_keys_are_of_documents(a: Seq<(Seq<char>, Pointer)>, b: Seq<(Seq<char>, Pointer)>, e: (Seq<char>, Pointer))
    ensures
        live_keys(a + b) == live_keys(a) + live_keys(b),
        live_keys(seq![e]) == (if e.1@ is Deleted {
            Seq::empty()
        } else {
            seq![e.0]
        }),
        live_keys(Seq::empty()).len() == 0,
    decreases b.len(),
{
    assert(seq![e].drop_last() =~= Seq::empty());
    assert(live_keys(Seq::empty()) =~= Seq::empty());
    assert(live_keys(seq![e]) =~= (if e.1@ is Deleted {
        Seq::empty()
    } else {
        seq![e.0]
    }));
    if b.len() == 0 {
        assert(a + b =~= a);
        assert(live_keys(a) + live_keys(b) =~= live_keys(a));
    } else {
        live_keys_are_of_documents(a, b.drop_last(), e);
        assert((a + b).drop_last() =~= a + b.drop_last());
        assert((a + b).last() == b.last());
        assert(live_keys(a + b) =~= live_keys(a) + live_keys(b));
    }
}

/// The version of a collection is the latest time of its documents and deletions: no document is
/// later, and one put later raises it.
pub proof fn version_is_latest(m: Map<Seq<char>, Place>, t: i64, k: Seq<char>, time: i64, after: i64)
    requires
        is_version(m, t),
        m.contains_key(k) ==> place_time(m[k]) <= time,
        t <= time,
        is_version(m.insert(k, Place::Deleted { time }), after),
    ensures
        after == time,
        forall|x: Seq<char>| #[trigger] m.contains_key(x) ==> place_time(m[x]) <= t,
        (forall|x: Seq<char>| !(#[trigger] m.contains_key(x))) ==> t == 0,
{
    let n = m.insert(k, Place::Deleted { time });
    assert(n.contains_key(k));
    let x = choose|x: Seq<char>| #[trigger] n.contains_key(x) && place_time(n[x]) == after;
    assert(place_time(n[k]) == time);
    if x != k {
        assert(m.contains_key(x));
    }
    if forall|x: Seq<char>| !(#[trigger] m.contains_key(x)) {
        assert(m.dom() =~= Set::<Seq<char>>::empty());
    }
}

/// The versions of collections are told one for each, by its name.
pub proof fn versions_are_told(shards: Map<Seq<char>, Shard>, names: Seq<Seq<char>>, r: Seq<(String, i64)>, i: int, k: Seq<char>)
    requires
        version_map(shards, names, r),
        0 <= i < names.len(),
    ensures
        r.len() == names.len(),
        r[i].0@ == names[i],
        shard_places(shards, names[i]).contains_key(k) ==> place_time(shard_places(shards, names[i])[k]) <= r[i].1,
{
    assert(r[i].0@ == names[i]);
}

/// The deleted documents of a collection are forgotten and nothing else: every other document
/// lies where it did, and so do those of other collections.
pub proof fn forgetting_keeps_documents(a: Hako, b: Hako, c: Seq<char>, n: usize, d: Seq<char>, k: Seq<char>)
    requires
        tombstones_gone(a, b, c, n),
    ensures
        d != c ==> shard_places(b.shards@, d) == shard_places(a.shards@, d),
        shard_places(b.shards@, c).contains_key(k) <==> shard_places(a.shards@, c).contains_key(k) && !(shard_places(
            a.shards@,
            c,
        )[k] is Deleted),
        shard_places(b.shards@, c).contains_key(k) ==> shard_places(b.shards@, c)[k] == shard_places(a.shards@, c)[k],
        b.versions == a.versions,
        b.marks == a.marks,
        b.indexes == a.indexes,
        a.shards@.contains_key(c) ==> n == a.shards@[c].index.seq().len() - b.shards@[c].index.seq().len(),
{
}

/// The figures of a store: for each collection a line with the number of its documents and one
/// with the number of its bytes that wait, under names that tell which.
pub proof fn figures_are_told(db: Hako, r: Seq<(String, usize)>, i: int)
    requires
        stats_of(db, r),
        0 <= i < db.shards.rows().len(),
    ensures
        r.len() == 2 * db.shards.rows().len(),
        r[2 * i].0@ == db.shards.rows()[i].0 + "_count"@,
        r[2 * i].1 == live_keys(db.shards.rows()[i].1.index.seq()).len(),
        r[2 * i + 1].0@ == db.shards.rows()[i].0 + "_pending_blob_bytes"@,
        r[2 * i + 1].1 == db.shards.rows()[i].1.pending_blob_bytes,
{
    assert(crate::engine::collections::stat_lines(db.shards.rows()[i], r[2 * i], r[2 * i + 1]));
}

/// What waits in a store is what waits in each of its collections, taken together.
pub proof fn waiting_adds_up(rows: Seq<(Seq<char>, Shard)>, row: (Seq<char>, Shard))
    ensures
        waiting_bytes(Seq::empty()) == 0,
        waiting_items(Seq::empty()) == 0,
        waiting_bytes(rows) + row.1.pending_blob_bytes <= usize::MAX ==> waiting_bytes(rows.push(row)) == waiting_bytes(
            rows,
        ) + row.1.pending_blob_bytes,
        waiting_items(rows) + row.1.blob_flush_queue@.len() <= usize::MAX ==> waiting_items(rows.push(row))
            == waiting_items(rows) + row.1.blob_flush_queue@.len(),
{
    assert(rows.push(row).drop_last() =~= rows);
}

/// A store with anything left to do, or at work, is not quiescent; one with nothing is.
pub proof fn work_is_not_quiet(s: QuiescenceStatus)
    ensures
        s.pending_index_ops > 0 || s.index_backfills > 0 || s.pending_blob_bytes > 0 || s.queued_blob_items > 0
            ==> !quiescent(s),
        !s.indexes_ready || s.maintenance_running ==> !quiescent(s),
        !quiescent(s) && s.indexes_ready && !s.maintenance_running ==> s.pending_index_ops > 0 || s.index_backfills > 0
            || s.pending_blob_bytes > 0 || s.queued_blob_items > 0,
{
}

/// A batch asks for its changes one by one and in order, each for the collection and the id that
/// it names.
pub proof fn changes_are_asked_for(s: Seq<BatchMutation>, i: int)
    requires
        0 <= i < s.len(),
    ensures
        wishes(s).len() == s.len(),
        s[i] matches BatchMutation::Put { collection, doc_id, doc } ==> wishes(s)[i] == (Wish::Put {
            collection: collection@,
            id: doc_id@,
            doc: doc@,
        }),
        s[i] matches BatchMutation::Delete { collection, doc_id } ==> wishes(s)[i] == (Wish::Delete {
            collection: collection@,
            id: doc_id@,
        }),
{
}

/// A batch leaves its lines in the audit, where that is kept: two that it was allowed, or one that
/// it was refused; and where it is not kept, none.
pub proof fn batch_is_audited(
    a: Hako,
    b: Hako,
    files: Map<Seq<char>, FileReads>,
    nanos: i64,
    w: Seq<Wish>,
    r: Result<Outcome, HakoError>,
)
    requires
        written(a, b, files, nanos, w, r),
    ensures
        !a.config.enable_audit_log ==> audit_view(b.audit_data@) == audit_view(a.audit_data@),
        a.config.enable_audit_log ==> ({
            let line = AuditLine { op: AccessOp::Batch, collection: "<sharded>"@, id: None, ok: r is Ok };
            audit_view(b.audit_data@) == (if r is Ok {
                audit_view(a.audit_data@).push(line).push(line)
            } else {
                audit_view(a.audit_data@).push(line)
            })
        }),
{
}

/// A batch gets the next number of each collection that it changes, and the others keep theirs.
pub proof fn batches_are_numbered(
    a: Hako,
    b: Hako,
    files: Map<Seq<char>, FileReads>,
    nanos: i64,
    w: Seq<Wish>,
    o: Outcome,
    c: Seq<char>,
    k: int,
)
    requires
        batch_done(a, b, staged(env_of(a, files, nanos), w)),
        outcome_is(o, a, files, staged(env_of(a, files, nanos), w)),
        a.shards@.contains_key(c),
    ensures
        staged(env_of(a, files, nanos), w).plans.contains_key(c) && a.shards@[c].next_tx_id < u64::MAX
            ==> b.shards@[c].next_tx_id == a.shards@[c].next_tx_id + 1,
        !staged(env_of(a, files, nanos), w).plans.contains_key(c) ==> b.shards@[c] == a.shards@[c],
        0 <= k < o.applied@.len() && o.applied@[k].collection@ == c ==> o.applied@[k].tx_id == a.shards@[c].next_tx_id,
{
    let st = staged(env_of(a, files, nanos), w);
    assert(shard_planned(a.shards@, b.shards@, st.plans, c));
    if 0 <= k < o.applied@.len() && o.applied@[k].collection@ == c {
        assert(was_applied(a.shards@, files, st.order[k], st.plans[st.order[k]], o.applied@[k]));
    }
}

/// A document that was read from its collection, and has a version, is held ready for the next
/// read.
pub proof fn read_is_held_ready(
    a: Hako,
    b: Hako,
    reads: FileReads,
    c: Seq<char>,
    id: Seq<char>,
    r: Result<Option<FireLiteDoc>, HakoError>,
    d: Doc,
)
    requires
        got(a, b, reads, c, id, r),
        permitted(a.security_rules@, c, AccessOp::Get),
        ready_doc(a, c, id) is None,
        read_result(a.shards@, c, id, reads) == Some(Some(d)),
        version_of(a.versions@, id) is Some,
    ensures
        r matches Ok(Some(x)) && x@ == d,
        ready_doc(b, c, id) == Some(d),
{
}

/// A query of a collection that the rules allow finds every document that lies in memory, whole and
/// with its id; one that they forbid finds none.
pub proof fn query_finds_documents(
    a: Hako,
    b: Hako,
    reads: FileReads,
    c: Seq<char>,
    r: Result<Vec<(String, FireLiteDoc)>, HakoError>,
    i: int,
    d: Doc,
)
    requires
        queried(a, b, reads, c, r),
        a.shards@.contains_key(c),
        a.shards@[c].index.wf(),
        0 <= i < a.shards@[c].index.seq().len(),
        a.shards@[c].index.seq()[i].1@ == Place::Inlined(doc_bytes(d)),
        d.fits(),
    ensures
        !permitted(a.security_rules@, c, AccessOp::Query) ==> r is Err,
        permitted(a.security_rules@, c, AccessOp::Query) ==> (r matches Ok(rows) && exists|k: int|
            0 <= k < rows@.len() && (#[trigger] rows@[k]).0@ == a.shards@[c].index.seq()[i].0 && rows@[k].1@ == d),
{
    if permitted(a.security_rules@, c, AccessOp::Query) {
        document_round_trip(d);
        let s = a.shards@[c].index.seq();
        let k = stored_at(s, reads, i, d);
        let rows = r->Ok_0;
        assert(docs_view(rows@)[k] == (s[i].0, d));
        assert(rows@[k].0@ == s[i].0 && rows@[k].1@ == d);
    }
}

/// A read fails on values that cannot be read: with the error of the file of values, or where there
/// is no such file.
pub proof fn unreadable_values_are_told(e: HakoError, has_file: bool)
    requires
        unresolved(e, has_file),
    ensures
        has_file ==> e is Io && error_message(e) == "blob cannot be read"@,
        !has_file ==> e is StorageError && error_message(e) == "No blob manager"@,
{
}

} // verus!
