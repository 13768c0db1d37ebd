//! What a batch of changes does to a store, change by change.
use vstd::prelude::*;

use crate::document::firelite_doc::{
    doc_bytes, document_round_trip, names_view, with_field_holds, with_fields, Doc,
};
use crate::document::value::Val;
use crate::engine::engine::{
    batch_done, batch_keys, env_of, is_shard, outcome_is, shard_planned, was_applied, Hako, Outcome,
};
use crate::engine::files::FileReads;
use crate::engine::ids::sortable_id;
use crate::engine::store::{others_stay, unchanged};
use crate::engine::types::{ChangeKind, Wish};
use crate::engine::versions::{bumped, version_of, Clock};
use crate::engine::write::{
    all_news, base_doc, dropped_docs, empty_doc, shard_after, shard_places, stage_one, staged, wish_doc, Env, Staging,
};
use crate::index::composite::composite_index::docs_view;
use crate::storage::blob::skeleton_doc;
use crate::storage::pointer::Place;
use crate::storage::shard::{applied, applied_elsewhere, committed, deletes_of, document_bytes, puts_of, Shard};
use crate::storage::wal::{change_key, ops_view, Change};

verus! {

/// The collection that a change is about.
pub open spec fn about(w: Wish, c: Seq<char>) -> bool {
    match w {
        Wish::Put { collection, .. } => collection == c,
        Wish::Delete { collection, .. } => collection == c,
        Wish::Patch { collection, .. } => collection == c,
    }
}

/// The time of a batch in microseconds.
pub open spec fn micros(nanos: i64) -> i64 {
    (nanos as int / 1000) as i64
}

/// A planned operation is the one that a change asks for.
pub open spec fn op_of(env: Env, w: Wish, id: Seq<char>, op: Change) -> bool {
    match w {
        Wish::Delete { .. } => op == (Change::Delete { key: id, time: micros(env.nanos) }),
        _ => exists|end: Option<u64>|
            op == (Change::Put {
                key: id,
                value: doc_bytes(
                    #[trigger] skeleton_doc(
                        Doc { fields: wish_doc(env, w)->Some_0.fields, time: micros(env.nanos) },
                        env.threshold,
                        end,
                    ),
                ),
            }),
    }
}

/// Every change of a batch gets the id that it names, and one of 20 digits where it names none.
pub proof fn ids_of_batch(env: Env, w: Seq<Wish>, i: int)
    requires
        0 <= i < w.len(),
    ensures
        staged(env, w).ids.len() == w.len(),
        match w[i] {
            Wish::Put { id, .. } => id.len() > 0 ==> staged(env, w).ids[i] == id,
            Wish::Delete { id, .. } => id.len() > 0 ==> staged(env, w).ids[i] == id,
            Wish::Patch { id, .. } => id.len() > 0 ==> staged(env, w).ids[i] == id,
        },
        match w[i] {
            Wish::Put { id, .. } => id.len() == 0 ==> staged(env, w).ids[i].len() == 20,
            _ => true,
        },
    decreases w.len(),
{
    let pre = w.drop_last();
    ids_count(env, pre);
    ids_count(env, w);
    if i < pre.len() {
        ids_of_batch(env, pre, i);
        assert(pre[i] == w[i]);
        assert(staged(env, w).ids[i] == staged(env, pre).ids[i]);
    } else {
        let st = staged(env, pre);
        crate::util::decimal::padded_len((env.nanos as u64) as nat, 16, 16);
        crate::util::decimal::padded_len(st.seq as nat, 16, 4);
        assert(sortable_id(env.nanos, st.seq).len() == 20);
    }
}

/// Every change of a batch gets one id.
pub proof fn ids_count(env: Env, w: Seq<Wish>)
    ensures
        staged(env, w).ids.len() == w.len(),
    decreases w.len(),
{
    if w.len() > 0 {
        ids_count(env, w.drop_last());
    }
}

/// Where the operation of a change stands among those of its collection; those of later changes
/// come later.
proof fn op_stands(env: Env, w: Seq<Wish>, c: Seq<char>, i: int) -> (k: int)
    requires
        0 <= i < w.len(),
        about(w[i], c),
        forall|j: int| i < j < w.len() && about(#[trigger] w[j], c) ==> staged(env, w).ids[j] != staged(env, w).ids[i],
    ensures
        staged(env, w).plans.contains_key(c),
        0 <= k < staged(env, w).plans[c].ops.len(),
        op_of(env, w[i], staged(env, w).ids[i], staged(env, w).plans[c].ops[k]),
        change_key(staged(env, w).plans[c].ops[k]) == staged(env, w).ids[i],
        forall|n: int|
            k < n < staged(env, w).plans[c].ops.len() ==> change_key(#[trigger] staged(env, w).plans[c].ops[n]) != staged(
                env,
                w,
            ).ids[i],
    decreases w.len(),
{
    let pre = w.drop_last();
    let last = w[w.len() - 1];
    let st = staged(env, pre);
    let st1 = staged(env, w);
    ids_count(env, pre);
    ids_count(env, w);
    assert(st1 == stage_one(env, st, last));
    if i == w.len() - 1 {
        let ops = st1.plans[c].ops;
        let k = ops.len() - 1;
        let end = if st.plans.contains_key(c) {
            st.plans[c].end
        } else {
            crate::engine::write::shard_end(env.shards, c)
        };
        assert(ops[k] == ops.last());
        if !(last is Delete) {
            assert(ops[k] == (Change::Put {
                key: st1.ids[i],
                value: doc_bytes(
                    skeleton_doc(
                        Doc { fields: wish_doc(env, last)->Some_0.fields, time: micros(env.nanos) },
                        env.threshold,
                        end,
                    ),
                ),
            }));
        }
        k
    } else {
        assert(pre[i] == w[i]);
        assert forall|j: int| i < j < pre.len() && about(#[trigger] pre[j], c) implies st.ids[j] != st.ids[i] by {
            assert(about(w[j], c));
            assert(st1.ids[j] == st.ids[j] && st1.ids[i] == st.ids[i]);
        }
        let k = op_stands(env, pre, c, i);
        assert(st1.ids[i] == st.ids[i]);
        if about(last, c) {
            let (a, b) = (st.plans[c].ops, st1.plans[c].ops);
            assert(b.len() == a.len() + 1);
            assert forall|n: int| k < n < b.len() implies change_key(#[trigger] b[n]) != st1.ids[i] by {
                if n < a.len() {
                    assert(b[n] == a[n]);
                } else {
                    assert(about(w[w.len() - 1], c));
                    assert(change_key(b[n]) == st1.ids[w.len() - 1]);
                }
            }
            assert(b[k] == a[k]);
        } else {
            assert(st1.plans[c] == st.plans[c]);
        }
        k
    }
}

/// Every planned operation is that of a change of the batch.
proof fn op_comes_from(env: Env, w: Seq<Wish>, c: Seq<char>, k: int) -> (i: int)
    requires
        staged(env, w).plans.contains_key(c),
        0 <= k < staged(env, w).plans[c].ops.len(),
    ensures
        0 <= i < w.len(),
        about(w[i], c),
        op_of(env, w[i], staged(env, w).ids[i], staged(env, w).plans[c].ops[k]),
        change_key(staged(env, w).plans[c].ops[k]) == staged(env, w).ids[i],
    decreases w.len(),
{
    if w.len() == 0 {
        0
    } else {
        let pre = w.drop_last();
        let last = w[w.len() - 1];
        let st = staged(env, pre);
        let st1 = staged(env, w);
        ids_count(env, pre);
        ids_count(env, w);
        assert(st1 == stage_one(env, st, last));
        let had = if st.plans.contains_key(c) {
            st.plans[c].ops.len() as int
        } else {
            0
        };
        if k < had {
            assert(st1.plans[c].ops[k] == st.plans[c].ops[k]);
            let i = op_comes_from(env, pre, c, k);
            assert(st1.ids[i] == st.ids[i]);
            i
        } else {
            assert(about(last, c));
            assert forall|j: int| w.len() - 1 < j < w.len() && about(#[trigger] w[j], c) implies st1.ids[j]
                != st1.ids[w.len() - 1] by {}
            let n = op_stands(env, w, c, w.len() - 1);
            assert(st1.plans[c].ops.len() == had + 1);
            if n < k {
                assert(change_key(st1.plans[c].ops[k]) == st1.ids[w.len() - 1]);
            }
            w.len() - 1
        }
    }
}

/// The last put of a key stays, where puts are applied before deletions and none deletes it.
proof fn last_put_stays(m: Map<Seq<char>, Place>, ops: Seq<Change>, k: int)
    requires
        0 <= k < ops.len(),
        ops[k] is Put,
        forall|n: int| k < n < ops.len() ==> change_key(#[trigger] ops[n]) != change_key(ops[k]),
        forall|n: int| 0 <= n < ops.len() && change_key(#[trigger] ops[n]) == change_key(ops[k]) ==> !(ops[n] is Delete),
    ensures
        committed(m, ops).contains_key(change_key(ops[k])),
        committed(m, ops)[change_key(ops[k])] == Place::Inlined(ops[k]->Put_value),
{
    put_among_puts(m, ops, k);
    let key = change_key(ops[k]);
    deletes_are_of(ops);
    let d = deletes_of(ops);
    assert forall|i: int| 0 <= i < d.len() implies change_key(#[trigger] d[i]) != key by {
        let n = choose|n: int| 0 <= n < ops.len() && #[trigger] ops[n] == d[i];
        assert(ops[n] is Delete);
    }
    applied_elsewhere(applied(m, puts_of(ops)), d, key);
}

proof fn put_among_puts(m: Map<Seq<char>, Place>, ops: Seq<Change>, k: int)
    requires
        0 <= k < ops.len(),
        ops[k] is Put,
        forall|n: int| k < n < ops.len() ==> change_key(#[trigger] ops[n]) != change_key(ops[k]),
    ensures
        applied(m, puts_of(ops)).contains_key(change_key(ops[k])),
        applied(m, puts_of(ops))[change_key(ops[k])] == Place::Inlined(ops[k]->Put_value),
    decreases ops.len(),
{
    let pre = ops.drop_last();
    let last = ops[ops.len() - 1];
    if last is Put {
        assert(puts_of(ops).drop_last() =~= puts_of(pre));
    }
    if k < ops.len() - 1 {
        assert(pre[k] == ops[k]);
        assert forall|n: int| k < n < pre.len() implies change_key(#[trigger] pre[n]) != change_key(pre[k]) by {
            assert(pre[n] == ops[n]);
        }
        put_among_puts(m, pre, k);
        assert(change_key(last) != change_key(ops[k]));
    }
}

proof fn deletes_are_of(ops: Seq<Change>)
    ensures
        forall|i: int|
            0 <= i < deletes_of(ops).len() ==> (#[trigger] deletes_of(ops)[i]) is Delete && exists|n: int|
                0 <= n < ops.len() && #[trigger] ops[n] == deletes_of(ops)[i],
    decreases ops.len(),
{
    if ops.len() > 0 {
        let pre = ops.drop_last();
        deletes_are_of(pre);
        let d = deletes_of(ops);
        assert forall|i: int| 0 <= i < d.len() implies (#[trigger] d[i]) is Delete && exists|n: int|
            0 <= n < ops.len() && #[trigger] ops[n] == d[i] by {
            if i < deletes_of(pre).len() {
                assert(d[i] == deletes_of(pre)[i]);
                let n = choose|n: int| 0 <= n < pre.len() && #[trigger] pre[n] == deletes_of(pre)[i];
                assert(ops[n] == d[i]);
            } else {
                assert(ops[ops.len() - 1] == d[i]);
            }
        }
    }
}

/// A key that is deleted by one of operations whose deletions have one time is deleted then.
proof fn deletion_stays(m: Map<Seq<char>, Place>, ops: Seq<Change>, k: int, t: i64)
    requires
        0 <= k < ops.len(),
        ops[k] is Delete,
        forall|n: int| 0 <= n < ops.len() ==> ((#[trigger] ops[n]) matches Change::Delete { time, .. } ==> time == t),
    ensures
        applied(m, deletes_of(ops)).contains_key(change_key(ops[k])),
        applied(m, deletes_of(ops))[change_key(ops[k])] == (Place::Deleted { time: t }),
    decreases ops.len(),
{
    let pre = ops.drop_last();
    let last = ops[ops.len() - 1];
    if last is Delete {
        assert(deletes_of(ops).drop_last() =~= deletes_of(pre));
    }
    if k < ops.len() - 1 {
        assert(pre[k] == ops[k]);
        assert forall|n: int| 0 <= n < pre.len() implies ((#[trigger] pre[n]) matches Change::Delete { time, .. } ==> time
            == t) by {
            assert(pre[n] == ops[n]);
        }
        deletion_stays(m, pre, k, t);
    }
}

/// A document that one of the changes of a batch deletes is deleted, with the time of the batch.
pub proof fn batch_deletes(a: Hako, b: Hako, files: Map<Seq<char>, FileReads>, nanos: i64, w: Seq<Wish>, i: int)
    requires
        0 <= i < w.len(),
        batch_done(a, b, staged(env_of(a, files, nanos), w)),
    ensures
        w[i] matches Wish::Delete { collection, id } ==> id.len() > 0 ==> b.shards@.contains_key(collection)
            && b.shards@[collection].places().contains_key(id) && b.shards@[collection].places()[id]
            == (Place::Deleted { time: (nanos as int / 1000) as i64 }),
{
    if let Wish::Delete { collection, id } = w[i] {
        if id.len() > 0 {
            let env = env_of(a, files, nanos);
            let st = staged(env, w);
            ids_of_batch(env, w, i);
            let k = some_op(env, w, collection, i);
            let ops = st.plans[collection].ops;
            assert forall|n: int| 0 <= n < ops.len() implies ((#[trigger] ops[n]) matches Change::Delete { time, .. }
                ==> time == micros(nanos)) by {
                let j = op_comes_from(env, w, collection, n);
            }
            assert(shard_planned(a.shards@, b.shards@, st.plans, collection));
            let s = choose|s: Shard| #[trigger] is_shard(a.shards@, collection, s) && shard_after(
                s,
                b.shards@[collection],
                st.plans[collection],
            );
            deletion_stays(applied(s.places(), puts_of(ops)), ops, k, micros(nanos));
        }
    }
}

/// The operation of a change stands among those of its collection.
proof fn some_op(env: Env, w: Seq<Wish>, c: Seq<char>, i: int) -> (k: int)
    requires
        0 <= i < w.len(),
        about(w[i], c),
    ensures
        staged(env, w).plans.contains_key(c),
        0 <= k < staged(env, w).plans[c].ops.len(),
        op_of(env, w[i], staged(env, w).ids[i], staged(env, w).plans[c].ops[k]),
    decreases w.len(),
{
    let pre = w.drop_last();
    let last = w[w.len() - 1];
    let st = staged(env, pre);
    let st1 = staged(env, w);
    ids_count(env, pre);
    ids_count(env, w);
    assert(st1 == stage_one(env, st, last));
    if i == w.len() - 1 {
        op_stands(env, w, c, i)
    } else {
        assert(pre[i] == w[i]);
        let k = some_op(env, pre, c, i);
        assert(st1.ids[i] == st.ids[i]);
        if about(last, c) {
            assert(st1.plans[c].ops[k] == st.plans[c].ops[k]);
        } else {
            assert(st1.plans[c] == st.plans[c]);
        }
        k
    }
}

/// A document that a batch puts, and neither puts again later nor deletes, lies in memory as it
/// was put, with the time of the batch and links in place of its large values.
pub proof fn batch_puts(a: Hako, b: Hako, files: Map<Seq<char>, FileReads>, nanos: i64, w: Seq<Wish>, i: int)
    requires
        0 <= i < w.len(),
        batch_done(a, b, staged(env_of(a, files, nanos), w)),
        w[i] matches Wish::Put { collection, id, .. } && id.len() > 0 && forall|j: int|
            0 <= j < w.len() && j != i && (j > i || (#[trigger] w[j]) is Delete) && about(w[j], collection) ==> staged(
                env_of(a, files, nanos),
                w,
            ).ids[j] != id,
    ensures
        w[i] matches Wish::Put { collection, id, doc } && b.shards@.contains_key(collection)
            && b.shards@[collection].places().contains_key(id) && exists|end: Option<u64>|
            b.shards@[collection].places()[id] == Place::Inlined(
                doc_bytes(
                    #[trigger] skeleton_doc(
                        Doc { fields: doc.fields, time: (nanos as int / 1000) as i64 },
                        a.config.value_blob_threshold_bytes as nat,
                        end,
                    ),
                ),
            ),
{
    if let Wish::Put { collection, id, doc } = w[i] {
        put_or_patch_lies(a, b, files, nanos, w, i, collection, id);
    }
}

/// A put or a patch lies where it was planned.
proof fn put_or_patch_lies(
    a: Hako,
    b: Hako,
    files: Map<Seq<char>, FileReads>,
    nanos: i64,
    w: Seq<Wish>,
    i: int,
    c: Seq<char>,
    id: Seq<char>,
)
    requires
        0 <= i < w.len(),
        batch_done(a, b, staged(env_of(a, files, nanos), w)),
        about(w[i], c),
        !(w[i] is Delete),
        staged(env_of(a, files, nanos), w).ids[i] == id || (id.len() > 0 && crate::engine::types::wish_id(w[i]) == id),
        forall|j: int|
            0 <= j < w.len() && j != i && (j > i || (#[trigger] w[j]) is Delete) && about(w[j], c) ==> staged(
                env_of(a, files, nanos),
                w,
            ).ids[j] != id,
    ensures
        b.shards@.contains_key(c),
        b.shards@[c].places().contains_key(id),
        exists|end: Option<u64>|
            b.shards@[c].places()[id] == Place::Inlined(
                doc_bytes(
                    #[trigger] skeleton_doc(
                        Doc { fields: wish_doc(env_of(a, files, nanos), w[i])->Some_0.fields, time: micros(nanos) },
                        a.config.value_blob_threshold_bytes as nat,
                        end,
                    ),
                ),
            ),
{
    let env = env_of(a, files, nanos);
    let st = staged(env, w);
    ids_of_batch(env, w, i);
    assert forall|j: int| i < j < w.len() && about(#[trigger] w[j], c) implies st.ids[j] != st.ids[i] by {}
    let k = op_stands(env, w, c, i);
    let ops = st.plans[c].ops;
    assert forall|n: int| 0 <= n < ops.len() && change_key(#[trigger] ops[n]) == change_key(ops[k]) implies !(
    ops[n] is Delete) by {
        let j = op_comes_from(env, w, c, n);
        if ops[n] is Delete {
            assert(w[j] is Delete);
            assert(st.ids[j] == id);
        }
    }
    assert(shard_planned(a.shards@, b.shards@, st.plans, c));
    let s = choose|s: Shard| #[trigger] is_shard(a.shards@, c, s) && shard_after(s, b.shards@[c], st.plans[c]);
    last_put_stays(s.places(), ops, k);
}

/// A document that no change of a batch is about stays as it is.
pub proof fn batch_leaves_alone(
    a: Hako,
    b: Hako,
    files: Map<Seq<char>, FileReads>,
    nanos: i64,
    w: Seq<Wish>,
    c: Seq<char>,
    id: Seq<char>,
    read: Option<Seq<u8>>,
)
    requires
        batch_done(a, b, staged(env_of(a, files, nanos), w)),
        forall|j: int|
            0 <= j < w.len() && about(#[trigger] w[j], c) ==> staged(env_of(a, files, nanos), w).ids[j] != id,
    ensures
        document_bytes(shard_places(b.shards@, c), id, read) == document_bytes(shard_places(a.shards@, c), id, read),
{
    let env = env_of(a, files, nanos);
    let st = staged(env, w);
    if st.plans.contains_key(c) {
        let ops = st.plans[c].ops;
        assert forall|i: int| 0 <= i < ops.len() implies change_key(#[trigger] ops[i]) != id by {
            let j = op_comes_from(env, w, c, i);
            assert(about(w[j], c));
        }
    }
    others_stay(a, b, st, c, id, read);
}

/// What a document holds after values were put under keys, one after the other: under each key
/// the last value that was put under it, and what it held before under the others.
pub proof fn updates_are_held(d: Doc, updates: Seq<(Seq<char>, Val)>, x: Seq<char>)
    requires
        d.wf(),
    ensures
        with_fields(d, updates).wf(),
        with_fields(d, updates).time == d.time,
        forall|i: int|
            0 <= i < updates.len() && (#[trigger] updates[i]).0 == x && (forall|j: int|
                i < j < updates.len() ==> (#[trigger] updates[j]).0 != x) ==> with_fields(d, updates).map().contains_key(x)
                && with_fields(d, updates).map()[x] == updates[i].1,
        (forall|i: int| 0 <= i < updates.len() ==> (#[trigger] updates[i]).0 != x) ==> with_fields(
            d,
            updates,
        ).map().contains_key(x) == d.map().contains_key(x) && (d.map().contains_key(x) ==> with_fields(
            d,
            updates,
        ).map()[x] == d.map()[x]),
    decreases updates.len(),
{
    if updates.len() > 0 {
        let pre = updates.drop_last();
        let last = updates[updates.len() - 1];
        updates_are_held(d, pre, x);
        with_field_holds(with_fields(d, pre), last.0, last.1);
        assert forall|i: int|
            0 <= i < updates.len() && (#[trigger] updates[i]).0 == x && (forall|j: int|
                i < j < updates.len() ==> (#[trigger] updates[j]).0 != x) implies with_fields(d, updates).map().contains_key(
            x,
        ) && with_fields(d, updates).map()[x] == updates[i].1 by {
            if i < pre.len() {
                assert(updates[updates.len() - 1].0 != x);
                assert(pre[i] == updates[i]);
                assert forall|j: int| i < j < pre.len() implies (#[trigger] pre[j]).0 != x by {
                    assert(updates[j].0 != x);
                }
            }
        }
        if forall|i: int| 0 <= i < updates.len() ==> (#[trigger] updates[i]).0 != x {
            assert forall|i: int| 0 <= i < pre.len() implies (#[trigger] pre[i]).0 != x by {
                assert(updates[i].0 != x);
            }
            assert(updates[updates.len() - 1].0 != x);
        }
    }
}

/// A patch of a document leaves what it does not speak of, and puts what it does: what lies
/// there afterwards has the time of the batch, under each key of the patch the last value for
/// it, and under every other key what the document held. Where there was none, only the patch
/// is there.
pub proof fn patch_lies(
    a: Hako,
    b: Hako,
    files: Map<Seq<char>, FileReads>,
    nanos: i64,
    c: Seq<char>,
    id: Seq<char>,
    updates: Seq<(Seq<char>, Val)>,
    had: Option<Doc>,
    x: Seq<char>,
) -> (e: Doc)
    requires
        id.len() > 0,
        batch_done(a, b, staged(env_of(a, files, nanos), seq![Wish::Patch { collection: c, id, updates }])),
        match had {
            Some(d) => shard_places(a.shards@, c).contains_key(id) && shard_places(a.shards@, c)[id] == Place::Inlined(
                doc_bytes(d),
            ) && d.fits() && d.wf(),
            None => !shard_places(a.shards@, c).contains_key(id) || shard_places(a.shards@, c)[id] is Deleted,
        },
    ensures
        e.wf(),
        e.time == (nanos as int / 1000) as i64,
        b.shards@[c].places().contains_key(id),
        exists|end: Option<u64>|
            b.shards@[c].places()[id] == Place::Inlined(
                doc_bytes(#[trigger] skeleton_doc(e, a.config.value_blob_threshold_bytes as nat, end)),
            ),
        forall|i: int|
            0 <= i < updates.len() && (#[trigger] updates[i]).0 == x && (forall|j: int|
                i < j < updates.len() ==> (#[trigger] updates[j]).0 != x) ==> e.map().contains_key(x) && e.map()[x]
                == updates[i].1,
        (forall|i: int| 0 <= i < updates.len() ==> (#[trigger] updates[i]).0 != x) ==> match had {
            Some(d) => e.map().contains_key(x) == d.map().contains_key(x) && (d.map().contains_key(x) ==> e.map()[x]
                == d.map()[x]),
            None => !e.map().contains_key(x),
        },
{
    let w = seq![Wish::Patch { collection: c, id, updates }];
    let env = env_of(a, files, nanos);
    assert(w[0] == (Wish::Patch { collection: c, id, updates }));
    let base = base_doc(env, c, id);
    if let Some(d) = had {
        document_round_trip(d);
        assert(base == d);
    } else {
        assert(base == empty_doc());
    }
    updates_are_held(base, updates, x);
    put_or_patch_lies(a, b, files, nanos, w, 0, c, id);
    let full = with_fields(base, updates);
    let e = Doc { fields: full.fields, time: micros(nanos) };
    assert(e.map() =~= full.map());
    e
}

/// A transaction is not refused for what others wrote about documents that it did not read.
pub proof fn undisturbed_read_commits(a: Hako, b: Hako, st: Staging, reads: Map<Seq<char>, Option<u64>>)
    requires
        batch_done(a, b, st),
        unchanged(a, reads),
        forall|k: Seq<char>| #[trigger] reads.contains_key(k) ==> !batch_keys(st.order, st.plans).contains(k),
    ensures
        unchanged(b, reads),
{
    let keys = batch_keys(st.order, st.plans);
    assert forall|k: Seq<char>| #[trigger] reads.contains_key(k) implies version_of(b.versions@, k) == reads[k] by {
        others_keep_versions(a.versions@, keys, k);
    }
}

/// Changes of other documents leave the version of a document alone.
pub proof fn others_keep_versions(c: Clock, keys: Seq<Seq<char>>, k: Seq<char>)
    requires
        !keys.contains(k),
    ensures
        version_of(bumped(c, keys), k) == version_of(c, k),
    decreases keys.len(),
{
    if keys.len() > 0 {
        let pre = keys.drop_last();
        assert(!pre.contains(k)) by {
            if pre.contains(k) {
                let i = choose|i: int| 0 <= i < pre.len() && pre[i] == k;
                assert(keys[i] == k);
            }
        }
        assert(keys[keys.len() - 1] != k);
        others_keep_versions(c, pre, k);
    }
}

/// A transaction that read what is there is not refused, and one that read something else is:
/// it goes by the version of every document that it read.
pub proof fn versions_decide(db: Hako, reads: Map<Seq<char>, Option<u64>>, k: Seq<char>)
    requires
        reads.contains_key(k),
    ensures
        reads[k] is None && db.versions@.of.contains_key(k) ==> !unchanged(db, reads),
        reads[k] is Some && !db.versions@.of.contains_key(k) ==> !unchanged(db, reads),
        reads[k] matches Some(v) ==> db.versions@.of.contains_key(k) && db.versions@.of[k] != v ==> !unchanged(db, reads),
        (forall|j: Seq<char>| #[trigger] reads.contains_key(j) ==> reads[j] == (if db.versions@.of.contains_key(j) {
            Some(db.versions@.of[j])
        } else {
            None
        })) ==> unchanged(db, reads),
{
}

/// Whoever watches a collection hears of every operation that puts or deletes a document, in
/// the order of the operations, each with its key.
pub proof fn watchers_hear_all(ops: Seq<Change>, i: int)
    requires
        0 <= i < ops.len(),
        forall|k: int| 0 <= k < ops.len() ==> (#[trigger] ops[k]) is Put || ops[k] is Delete,
    ensures
        all_news(ops).len() == ops.len(),
        match ops[i] {
            Change::Put { key, .. } => all_news(ops)[i] == (key, ChangeKind::Put),
            Change::Delete { key, .. } => all_news(ops)[i] == (key, ChangeKind::Delete),
            _ => true,
        },
    decreases ops.len(),
{
    let pre = ops.drop_last();
    assert(ops[ops.len() - 1] is Put || ops[ops.len() - 1] is Delete);
    assert forall|k: int| 0 <= k < pre.len() implies (#[trigger] pre[k]) is Put || pre[k] is Delete by {
        assert(pre[k] == ops[k]);
    }
    if pre.len() > 0 {
        watchers_hear_all(pre, if i < pre.len() {
            i
        } else {
            0
        });
    } else {
        assert(all_news(pre).len() == 0);
    }
    if i < pre.len() {
        assert(pre[i] == ops[i]);
        assert(all_news(ops)[i] == all_news(pre)[i]);
    }
}

/// The indexes are told of every document that is deleted, as it was before.
pub proof fn indexes_hear_of_deletions(
    m: Map<Seq<char>, Place>,
    files: Map<Seq<char>, FileReads>,
    c: Seq<char>,
    ops: Seq<Change>,
    i: int,
    d: Doc,
)
    requires
        0 <= i < ops.len(),
        ops[i] is Delete,
        m.contains_key(change_key(ops[i])),
        m[change_key(ops[i])] == Place::Inlined(doc_bytes(d)),
        d.fits(),
    ensures
        dropped_docs(m, files, c, ops).contains((change_key(ops[i]), d)),
    decreases ops.len(),
{
    document_round_trip(d);
    let pre = ops.drop_last();
    let (x, y) = (dropped_docs(m, files, c, pre), dropped_docs(m, files, c, ops));
    if i < pre.len() {
        assert(pre[i] == ops[i]);
        indexes_hear_of_deletions(m, files, c, pre, i, d);
        let k = choose|k: int| 0 <= k < x.len() && x[k] == (change_key(ops[i]), d);
        assert(y[k] == x[k]);
    } else {
        assert(y[x.len() as int] == (change_key(ops[i]), d));
    }
}

proof fn planned_is_ordered(env: Env, w: Seq<Wish>, c: Seq<char>)
    ensures
        staged(env, w).plans.contains_key(c) ==> staged(env, w).order.contains(c),
    decreases w.len(),
{
    if w.len() > 0 {
        let pre = w.drop_last();
        let (st, st1) = (staged(env, pre), staged(env, w));
        planned_is_ordered(env, pre, c);
        assert(st1 == stage_one(env, st, w.last()));
        if st.plans.contains_key(c) {
            let i = choose|i: int| 0 <= i < st.order.len() && st.order[i] == c;
            assert(st1.order[i] == c);
        } else if st1.plans.contains_key(c) {
            assert(st1.order[st.order.len() as int] == c);
        }
    }
}

proof fn put_is_planned(env: Env, w: Seq<Wish>, c: Seq<char>, i: int) -> (m: int)
    requires
        0 <= i < w.len(),
        about(w[i], c),
        !(w[i] is Delete),
    ensures
        staged(env, w).plans.contains_key(c),
        0 <= m < staged(env, w).plans[c].puts.len(),
        staged(env, w).plans[c].puts[m].0 == staged(env, w).ids[i],
        exists|end: Option<u64>|
            staged(env, w).plans[c].puts[m].1 == #[trigger] skeleton_doc(
                Doc { fields: wish_doc(env, w[i])->Some_0.fields, time: micros(env.nanos) },
                env.threshold,
                end,
            ),
    decreases w.len(),
{
    let pre = w.drop_last();
    let last = w[w.len() - 1];
    let (st, st1) = (staged(env, pre), staged(env, w));
    ids_count(env, pre);
    ids_count(env, w);
    assert(st1 == stage_one(env, st, last));
    if i == w.len() - 1 {
        let before = crate::engine::write::plan_of(env, st, c);
        assert(st1.plans[c].puts[before.puts.len() as int].1 == skeleton_doc(
            Doc { fields: wish_doc(env, last)->Some_0.fields, time: micros(env.nanos) },
            env.threshold,
            before.end,
        ));
        before.puts.len() as int
    } else {
        assert(pre[i] == w[i]);
        let m = put_is_planned(env, pre, c, i);
        assert(st1.ids[i] == st.ids[i]);
        if about(last, c) {
            assert(st1.plans[c].puts[m] == st.plans[c].puts[m]);
        } else {
            assert(st1.plans[c] == st.plans[c]);
        }
        m
    }
}

/// What a batch hands back tells the log and the indexes of its collections of every change: the
/// log gets its operation, and the indexes get each document that was put or patched, with its id
/// and the time of the batch.
pub proof fn outcome_tells_all(a: Hako, files: Map<Seq<char>, FileReads>, nanos: i64, w: Seq<Wish>, o: Outcome, c: Seq<char>, i: int)
    requires
        outcome_is(o, a, files, staged(env_of(a, files, nanos), w)),
        0 <= i < w.len(),
        about(w[i], c),
    ensures
        exists|k: int|
            0 <= k < o.applied@.len() && (#[trigger] o.applied@[k]).collection@ == c && (exists|n: int|
                0 <= n < ops_view(o.applied@[k].ops@).len() && op_of(
                    env_of(a, files, nanos),
                    w[i],
                    o.ids@[i]@,
                    #[trigger] ops_view(o.applied@[k].ops@)[n],
                )) && (!(w[i] is Delete) ==> exists|m: int, end: Option<u64>|
                0 <= m < docs_view(o.applied@[k].puts@).len() && (#[trigger] docs_view(o.applied@[k].puts@)[m]) == (
                    o.ids@[i]@,
                    #[trigger] skeleton_doc(
                        Doc {
                            fields: wish_doc(env_of(a, files, nanos), w[i])->Some_0.fields,
                            time: (nanos as int / 1000) as i64,
                        },
                        a.config.value_blob_threshold_bytes as nat,
                        end,
                    ),
                )),
{
    let env = env_of(a, files, nanos);
    let st = staged(env, w);
    ids_count(env, w);
    assert(names_view(o.ids@)[i] == o.ids@[i]@);
    let n = some_op(env, w, c, i);
    planned_is_ordered(env, w, c);
    let k = choose|k: int| 0 <= k < st.order.len() && st.order[k] == c;
    let r = o.applied@[k];
    assert(was_applied(a.shards@, files, st.order[k], st.plans[st.order[k]], r));
    assert(ops_view(r.ops@)[n] == st.plans[c].ops[n]);
    if !(w[i] is Delete) {
        let m = put_is_planned(env, w, c, i);
        assert(docs_view(r.puts@)[m] == st.plans[c].puts[m]);
    }
}

} // verus!
