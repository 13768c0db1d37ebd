//! The log of a collection tells its documents: applying it again brings them back.
use vstd::prelude::*;

use crate::document::firelite_doc::{doc_bytes, Doc};
use crate::engine::files::FileReads;
use crate::net_sync::intake::{placed, taken, Taken};
use crate::storage::blob::Work;
use crate::storage::pointer::Place;
use crate::storage::shard::{
    applied, applied_one, committed, deletes_of, document_bytes, puts_of, vacuum_keeps_documents, vacuumed,
};
use crate::storage::wal::{change_key, Change};

verus! {

/// Places have the same document under a key.
pub open spec fn same_document(a: Map<Seq<char>, Place>, b: Map<Seq<char>, Place>, k: Seq<char>) -> bool {
    forall|read: Option<Seq<u8>>| #[trigger] document_bytes(a, k, read) == document_bytes(b, k, read)
}

/// Whether a log, applied to a collection without documents, tells the documents of places.
pub open spec fn told_by(m: Map<Seq<char>, Place>, log: Seq<Change>) -> bool {
    forall|k: Seq<char>| #[trigger] same_document(m, applied(Map::empty(), log), k)
}

/// Whether a batch only puts and deletes, and puts nothing that it deleted before.
pub open spec fn straight(ops: Seq<Change>) -> bool {
    &&& forall|i: int| 0 <= i < ops.len() ==> (#[trigger] ops[i]) is Put || ops[i] is Delete
    &&& forall|i: int, j: int| #![trigger ops[i], ops[j]]
        0 <= i < j < ops.len() && ops[i] is Delete && ops[j] is Put ==> change_key(ops[i]) != change_key(ops[j])
}

/// Operations after operations are operations one after the other.
pub proof fn applied_again(m: Map<Seq<char>, Place>, a: Seq<Change>, b: Seq<Change>)
    ensures
        applied(applied(m, a), b) == applied(m, a + b),
    decreases b.len(),
{
    if b.len() == 0 {
        assert(a + b =~= a);
    } else {
        applied_again(m, a, b.drop_last());
        assert((a + b).drop_last() =~= a + b.drop_last());
    }
}

/// An operation may come ahead of others that have not its key.
proof fn goes_ahead(m: Map<Seq<char>, Place>, x: Change, ops: Seq<Change>)
    requires
        forall|i: int| 0 <= i < ops.len() ==> change_key(#[trigger] ops[i]) != change_key(x),
    ensures
        applied(applied_one(m, x), ops) == applied_one(applied(m, ops), x),
    decreases ops.len(),
{
    if ops.len() > 0 {
        let pre = ops.drop_last();
        assert forall|i: int| 0 <= i < pre.len() implies change_key(#[trigger] pre[i]) != change_key(x) by {
            assert(pre[i] == ops[i]);
        }
        goes_ahead(m, x, pre);
        assert(change_key(ops[ops.len() - 1]) != change_key(x));
        assert(applied(applied_one(m, x), ops) =~= applied_one(applied(m, ops), x));
    }
}

/// What the deletes of operations speak of, the operations do.
proof fn deletes_are_among(ops: Seq<Change>)
    ensures
        forall|i: int|
            0 <= i < deletes_of(ops).len() ==> exists|j: int|
                0 <= j < ops.len() && ops[j] is Delete && #[trigger] ops[j] == #[trigger] deletes_of(ops)[i],
    decreases ops.len(),
{
    if ops.len() > 0 {
        let pre = ops.drop_last();
        deletes_are_among(pre);
        assert forall|i: int| 0 <= i < deletes_of(ops).len() implies exists|j: int|
            0 <= j < ops.len() && ops[j] is Delete && #[trigger] ops[j] == #[trigger] deletes_of(ops)[i] by {
            if i < deletes_of(pre).len() {
                let j = choose|j: int|
                    0 <= j < pre.len() && pre[j] is Delete && #[trigger] pre[j] == #[trigger] deletes_of(pre)[i];
                assert(ops[j] == pre[j]);
            } else {
                assert(ops[ops.len() - 1] == ops.last());
            }
        }
    }
}

/// A batch that puts nothing that it deleted before does the same whether its operations are
/// applied in their order or its puts ahead of its deletes.
pub proof fn order_in_batch(m: Map<Seq<char>, Place>, ops: Seq<Change>)
    requires
        straight(ops),
    ensures
        committed(m, ops) == applied(m, ops),
    decreases ops.len(),
{
    if ops.len() > 0 {
        let pre = ops.drop_last();
        let x = ops.last();
        assert forall|i: int| 0 <= i < pre.len() implies (#[trigger] pre[i]) is Put || pre[i] is Delete by {
            assert(pre[i] == ops[i]);
        }
        assert forall|i: int, j: int| #![trigger pre[i], pre[j]]
            0 <= i < j < pre.len() && pre[i] is Delete && pre[j] is Put implies change_key(pre[i]) != change_key(pre[j]) by {
            assert(pre[i] == ops[i] && pre[j] == ops[j]);
        }
        order_in_batch(m, pre);
        assert(ops[ops.len() - 1] == x);
        let gone = deletes_of(pre);
        if x is Put {
            deletes_are_among(pre);
            assert forall|i: int| 0 <= i < gone.len() implies change_key(#[trigger] gone[i]) != change_key(x) by {
                let j = choose|j: int| 0 <= j < pre.len() && pre[j] is Delete && #[trigger] pre[j] == gone[i];
                assert(pre[j] == ops[j]);
                assert(change_key(ops[j]) != change_key(ops[ops.len() - 1]));
            }
            goes_ahead(applied(m, puts_of(pre)), x, gone);
            assert(puts_of(ops).drop_last() =~= puts_of(pre));
        } else {
            assert(deletes_of(ops).drop_last() =~= gone);
        }
    } else {
        assert(puts_of(ops) =~= ops);
        assert(deletes_of(ops) =~= ops);
    }
}

/// Operations do the same to places with the same documents.
proof fn applied_alike(a: Map<Seq<char>, Place>, b: Map<Seq<char>, Place>, ops: Seq<Change>, k: Seq<char>)
    requires
        same_document(a, b, k),
    ensures
        same_document(applied(a, ops), applied(b, ops), k),
    decreases ops.len(),
{
    if ops.len() > 0 {
        applied_alike(a, b, ops.drop_last(), k);
        let x = applied(a, ops.drop_last());
        let y = applied(b, ops.drop_last());
        assert forall|read: Option<Seq<u8>>| #[trigger] document_bytes(applied(a, ops), k, read) == document_bytes(
            applied(b, ops),
            k,
            read,
        ) by {
            assert(document_bytes(x, k, read) == document_bytes(y, k, read));
        }
    }
}

/// The log tells the documents of a collection still once operations were applied and written
/// to its end.
pub proof fn told_with_more(m: Map<Seq<char>, Place>, log: Seq<Change>, ops: Seq<Change>)
    requires
        told_by(m, log),
    ensures
        told_by(applied(m, ops), log + ops),
{
    applied_again(Map::empty(), log, ops);
    assert forall|k: Seq<char>| #[trigger] same_document(applied(m, ops), applied(Map::empty(), log + ops), k) by {
        assert(same_document(m, applied(Map::empty(), log), k));
        applied_alike(m, applied(Map::empty(), log), ops, k);
    }
}

/// The log tells the documents of a collection still once a local batch was applied and
/// written to its end, unless the batch puts what it deleted before.
pub proof fn told_with_batch(m: Map<Seq<char>, Place>, log: Seq<Change>, ops: Seq<Change>)
    requires
        told_by(m, log),
        straight(ops),
    ensures
        told_by(committed(m, ops), log + ops),
{
    order_in_batch(m, ops);
    told_with_more(m, log, ops);
}

/// The log tells the documents of a collection still after a vacuum.
pub proof fn told_after_vacuum(m: Map<Seq<char>, Place>, log: Seq<Change>)
    requires
        told_by(m, log),
    ensures
        told_by(vacuumed(m), log),
{
    assert forall|k: Seq<char>| #[trigger] same_document(vacuumed(m), applied(Map::empty(), log), k) by {
        assert(same_document(m, applied(Map::empty(), log), k));
        assert forall|read: Option<Seq<u8>>| #[trigger] document_bytes(vacuumed(m), k, read) == document_bytes(
            applied(Map::empty(), log),
            k,
            read,
        ) by {
            vacuum_keeps_documents(m, k, read);
            assert(document_bytes(m, k, read) == document_bytes(applied(Map::empty(), log), k, read));
        }
    }
}

/// Each document that is taken of a batch stands beside its operation.
spec fn beside(t: Taken) -> bool {
    &&& t.ops.len() == t.docs.len()
    &&& forall|i: int| 0 <= i < t.docs.len() ==> op_of(#[trigger] t.docs[i], t.ops[i])
}

/// An operation puts a document, or deletes it.
spec fn op_of(doc: (Seq<char>, Option<Doc>), op: Change) -> bool {
    match doc.1 {
        Some(d) => op == (Change::Put { key: doc.0, value: doc_bytes(d) }),
        None => op is Delete && change_key(op) == doc.0,
    }
}

proof fn taken_beside(ops: Seq<Change>, m: Map<Seq<char>, Place>, end: Option<u64>, reads: FileReads, threshold: nat)
    ensures
        beside(taken(ops, m, end, reads, threshold)),
    decreases ops.len(),
{
    if ops.len() > 0 {
        taken_beside(ops.drop_last(), m, end, reads, threshold);
    }
}

/// Where the documents of a batch lie they are what its operations put.
proof fn placed_alike(
    m: Map<Seq<char>, Place>,
    docs: Seq<(Seq<char>, Option<Doc>)>,
    works: Seq<Work>,
    all: Seq<Change>,
    ops: Seq<Change>,
    k: Seq<char>,
)
    requires
        docs.len() == ops.len(),
        forall|i: int| 0 <= i < docs.len() ==> op_of(#[trigger] docs[i], ops[i]),
    ensures
        same_document(placed(m, docs, works, all), applied(m, ops), k),
    decreases docs.len(),
{
    if docs.len() > 0 {
        let pre = docs.drop_last();
        let o = ops.drop_last();
        assert forall|i: int| 0 <= i < pre.len() implies op_of(#[trigger] pre[i], o[i]) by {
            assert(pre[i] == docs[i] && o[i] == ops[i]);
        }
        placed_alike(m, pre, works, all, o, k);
        assert(op_of(docs[docs.len() - 1], ops[ops.len() - 1]));
        let x = placed(m, pre, works, all);
        let y = applied(m, o);
        assert forall|read: Option<Seq<u8>>| #[trigger] document_bytes(placed(m, docs, works, all), k, read)
            == document_bytes(applied(m, ops), k, read) by {
            assert(document_bytes(x, k, read) == document_bytes(y, k, read));
        }
    }
}

/// The log tells the documents of a collection still once what was taken of a batch from
/// another node was written to its end.
pub proof fn told_with_intake(
    m: Map<Seq<char>, Place>,
    log: Seq<Change>,
    ops: Seq<Change>,
    end: Option<u64>,
    reads: FileReads,
    threshold: nat,
)
    requires
        told_by(m, log),
    ensures
        ({
            let t = taken(ops, m, end, reads, threshold);
            told_by(placed(m, t.docs, t.works, t.ops), log + t.ops)
        }),
{
    let t = taken(ops, m, end, reads, threshold);
    let b = placed(m, t.docs, t.works, t.ops);
    taken_beside(ops, m, end, reads, threshold);
    told_with_more(m, log, t.ops);
    assert forall|k: Seq<char>| #[trigger] same_document(b, applied(Map::empty(), log + t.ops), k) by {
        placed_alike(m, t.docs, t.works, t.ops, t.ops, k);
        assert(same_document(applied(m, t.ops), applied(Map::empty(), log + t.ops), k));
        assert forall|read: Option<Seq<u8>>| #[trigger] document_bytes(b, k, read) == document_bytes(
            applied(Map::empty(), log + t.ops),
            k,
            read,
        ) by {
            assert(document_bytes(b, k, read) == document_bytes(applied(m, t.ops), k, read));
            assert(document_bytes(applied(m, t.ops), k, read) == document_bytes(
                applied(Map::empty(), log + t.ops),
                k,
                read,
            ));
        }
    }
}

} // verus!
