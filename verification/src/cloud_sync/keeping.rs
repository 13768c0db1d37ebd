//! What a server knows of rooms is what its store keeps of them.
use vstd::prelude::*;
use vstd::utf8::encode_utf8;

use crate::cloud_sync::access::text_under;
use crate::cloud_sync::isolation::{
    apart, docs_apart, free_prefix_keeps_apart, read_rooms_are_apart, rooms_have_own_bytes, rows_apart,
};
use crate::cloud_sync::rooms::{
    found_room, is_new_prefix, kept_prefix, made_room, names_room, new_prefix_is_free, resolved, room_bytes, room_doc, room_id,
    rooms_loaded, rooms_of, rooms_read, row_is_known, rows_of, sanitized, settled_room, with_room, Rooms,
};
use crate::document::firelite_doc::{decode_doc, Doc, FireLiteDoc};
use crate::engine::access::permitted;
use crate::engine::engine::{batch_done, env_of, read_result, ready_doc, shard_queue, Hako, Outcome};
use crate::engine::files::{read_doc, FileReads};
use crate::engine::marks::slot;
use crate::engine::store::{got, one_wish, others_stay, queried, stored_at, stored_docs, written};
use crate::engine::types::{AccessOp, Wish};
use crate::engine::write::{shard_end, shard_places, staged};
use crate::error::HakoError;
use crate::sorted_map::{ascending, ascending_entry, key_lt, key_order_total};
use crate::storage::blob::{filled_is_found, is_link};
use crate::storage::pointer::{place_bytes, Place, Pointer};
use crate::storage::shard::document_bytes;
use crate::sync_guard::{hex_injective, sha256_digest};
use crate::util::fixed::pow256;

verus! {

/// The document that the store keeps of a room, as it is stored.
pub open spec fn room_row(a: Hako, reads: FileReads, id: Seq<char>) -> Option<Doc> {
    match document_bytes(shard_places(a.shards@, "__hako_rooms"@), id, read_doc(reads, id)) {
        Some(b) => decode_doc(b),
        None => None,
    }
}

/// The prefix that the store keeps of a room; an empty one is none.
pub open spec fn row_prefix(a: Hako, reads: FileReads, id: Seq<char>) -> Option<Seq<char>> {
    match room_row(a, reads, id) {
        Some(d) => match text_under(d, "prefix"@) {
            Some(p) => if p.len() > 0 {
                Some(p)
            } else {
                None
            },
            None => None,
        },
        None => None,
    }
}

/// Whether a document holds a prefix, or a link that may stand for one.
pub open spec fn tells(d: Doc) -> bool {
    d.map().contains_key("prefix"@) && (d.map()["prefix"@] is String || is_link(d.map()["prefix"@]))
}

/// Whether a read of a room may give it a prefix: by the document that the store keeps of it,
/// or by the one that is held ready.
pub open spec fn told(a: Hako, reads: FileReads, id: Seq<char>) -> bool {
    ||| room_row(a, reads, id) matches Some(d) && tells(d)
    ||| a.doc_cache@.contains_key(slot("__hako_rooms"@, id)) && text_under(
        a.doc_cache@[slot("__hako_rooms"@, id)].1@,
        "prefix"@,
    ) is Some
}

/// Every room that the store keeps is known.
pub open spec fn knows(k: Rooms, a: Hako, reads: FileReads) -> bool {
    forall|id: Seq<char>| #[trigger] told(a, reads, id) ==> k.prefix_by_id.contains_key(id)
}

/// The prefix with which a room is known.
pub open spec fn known_prefix(k: Rooms, id: Seq<char>) -> Option<Seq<char>> {
    if k.prefix_by_id.contains_key(id) {
        Some(k.prefix_by_id[id])
    } else {
        None
    }
}

/// The rooms that the store keeps are known with their prefixes, and no others.
pub open spec fn agrees(k: Rooms, a: Hako, reads: FileReads) -> bool {
    forall|id: Seq<char>| #[trigger] row_prefix(a, reads, id) == known_prefix(k, id)
}

/// The rooms of a store can be read: the document of each shows its prefix, and no two have
/// the same.
pub open spec fn well_kept(a: Hako, reads: FileReads) -> bool {
    &&& forall|id: Seq<char>| #[trigger] told(a, reads, id) ==> row_prefix(a, reads, id) is Some
    &&& forall|i: Seq<char>, j: Seq<char>| #![trigger row_prefix(a, reads, i), row_prefix(a, reads, j)]
        i != j && row_prefix(a, reads, i) is Some ==> row_prefix(a, reads, i) != row_prefix(a, reads, j)
}

/// What the store keeps of rooms, as it is read, has not changed.
pub open spec fn rooms_left_alone(a: Hako, reads: FileReads, b: Hako, later: FileReads) -> bool {
    &&& forall|id: Seq<char>| #[trigger] row_prefix(b, later, id) == row_prefix(a, reads, id)
    &&& forall|id: Seq<char>| #[trigger] told(b, later, id) ==> told(a, reads, id)
}

/// Names of documents of the same collection differ where their ids do.
proof fn slots_differ(c: Seq<char>, i: Seq<char>, j: Seq<char>)
    requires
        i != j,
    ensures
        slot(c, i) != slot(c, j),
{
    reveal_strlit("\0");
    assert(slot(c, i).skip(c.len() as int + 1) =~= i);
    assert(slot(c, j).skip(c.len() as int + 1) =~= j);
}

/// A read of a room gives it a prefix only where the store tells of one, and leaves alone
/// what the store keeps of all rooms.
pub proof fn room_is_read(
    a: Hako,
    m: Hako,
    reads: FileReads,
    id: Seq<char>,
    row: Result<Option<FireLiteDoc>, HakoError>,
)
    requires
        got(a, m, reads, "__hako_rooms"@, id, row),
    ensures
        kept_prefix(row) is Some ==> told(a, reads, id),
        rooms_left_alone(a, reads, m, reads),
{
    let c = "__hako_rooms"@;
    let places = shard_places(a.shards@, c);
    assert(shard_places(m.shards@, c) =~= places);
    assert forall|i: Seq<char>| true implies #[trigger] room_row(m, reads, i) == room_row(a, reads, i) by {
    }
    if permitted(a.security_rules@, c, AccessOp::Get) && ready_doc(a, c, id) is None {
        if let Some(Some(f)) = read_result(a.shards@, c, id, reads) {
            let d = room_row(a, reads, id)->Some_0;
            filled_is_found(
                d,
                shard_end(a.shards@, c) is Some,
                shard_queue(a.shards@, c),
                reads.blobs@,
                "prefix"@,
            );
            assert(text_under(f, "prefix"@) is Some ==> tells(d));
        }
    }
    assert forall|i: Seq<char>| #[trigger] told(m, reads, i) implies told(a, reads, i) by {
        assert(room_row(m, reads, i) == room_row(a, reads, i));
        if i != id {
            slots_differ(c, i, id);
        }
    }
    assert forall|i: Seq<char>| #[trigger] row_prefix(m, reads, i) == row_prefix(a, reads, i) by {
        assert(room_row(m, reads, i) == room_row(a, reads, i));
    }
}

/// A batch that does not speak of the rooms leaves alone what the store keeps of them.
pub proof fn other_batch_leaves_rooms_alone(
    a: Hako,
    b: Hako,
    files: Map<Seq<char>, FileReads>,
    nanos: i64,
    w: Seq<Wish>,
    reads: FileReads,
)
    requires
        batch_done(a, b, staged(env_of(a, files, nanos), w)),
        !staged(env_of(a, files, nanos), w).plans.contains_key("__hako_rooms"@),
    ensures
        rooms_left_alone(a, reads, b, reads),
{
    let st = staged(env_of(a, files, nanos), w);
    let c = "__hako_rooms"@;
    assert forall|i: Seq<char>| true implies #[trigger] room_row(b, reads, i) == room_row(a, reads, i) by {
        others_stay(a, b, st, c, i, read_doc(reads, i));
    }
    assert forall|i: Seq<char>| #[trigger] told(b, reads, i) implies told(a, reads, i) by {
        assert(room_row(b, reads, i) == room_row(a, reads, i));
    }
    assert forall|i: Seq<char>| #[trigger] row_prefix(b, reads, i) == row_prefix(a, reads, i) by {
        assert(room_row(b, reads, i) == room_row(a, reads, i));
    }
}

/// The document of one room was put: what the store keeps of all others has not changed.
pub proof fn others_are_kept(
    a: Hako,
    b: Hako,
    nanos: i64,
    id: Seq<char>,
    d: Doc,
    reads: FileReads,
    r: Result<Outcome, HakoError>,
)
    requires
        id.len() > 0,
        written(a, b, Map::empty(), nanos, seq![Wish::Put { collection: "__hako_rooms"@, id, doc: d }], r),
    ensures
        forall|i: Seq<char>| i != id || r is Err ==> #[trigger] row_prefix(b, reads, i) == row_prefix(a, reads, i),
        forall|i: Seq<char>| (i != id || r is Err) && #[trigger] told(b, reads, i) ==> told(a, reads, i),
{
    let c = "__hako_rooms"@;
    let w = Wish::Put { collection: c, id, doc: d };
    let env = env_of(a, Map::empty(), nanos);
    let st = staged(env, seq![w]);
    if r is Ok {
        one_wish(env, w);
        assert forall|i: Seq<char>| i != id implies #[trigger] room_row(b, reads, i) == room_row(a, reads, i) by {
            others_stay(a, b, st, c, i, read_doc(reads, i));
        }
        assert forall|i: Seq<char>| i != id implies #[trigger] row_prefix(b, reads, i) == row_prefix(a, reads, i) by {
            assert(room_row(b, reads, i) == room_row(a, reads, i));
        }
        assert forall|i: Seq<char>| i != id && #[trigger] told(b, reads, i) implies told(a, reads, i) by {
            assert(room_row(b, reads, i) == room_row(a, reads, i));
        }
    } else {
        assert forall|i: Seq<char>| true implies #[trigger] room_row(b, reads, i) == room_row(a, reads, i) by {
        }
        assert forall|i: Seq<char>| #[trigger] row_prefix(b, reads, i) == row_prefix(a, reads, i) by {
            assert(room_row(b, reads, i) == room_row(a, reads, i));
        }
        assert forall|i: Seq<char>| #[trigger] told(b, reads, i) implies told(a, reads, i) by {
            assert(room_row(b, reads, i) == room_row(a, reads, i));
        }
    }
}

/// Every stored document is that of an entry, and no two have the same key.
proof fn stored_from(entries: Seq<(Seq<char>, Pointer)>, reads: FileReads)
    requires
        ascending::<String, Pointer>(entries),
    ensures
        forall|k: int| 0 <= k < stored_docs(entries, reads).len() ==> exists|i: int|
            0 <= i < entries.len() && (#[trigger] stored_docs(entries, reads)[k]).0 == (#[trigger] entries[i]).0 && (
            place_bytes(entries[i].1@, read_doc(reads, entries[i].0)) matches Some(b) && decode_doc(b) == Some(
                stored_docs(entries, reads)[k].1,
            )),
        forall|k: int, l: int| #![trigger stored_docs(entries, reads)[k], stored_docs(entries, reads)[l]]
            0 <= k < l < stored_docs(entries, reads).len() ==> stored_docs(entries, reads)[k].0 != stored_docs(
                entries,
                reads,
            )[l].0,
    decreases entries.len(),
{
    if entries.len() > 0 {
        let pre = entries.drop_last();
        let last = entries[entries.len() - 1];
        let x = stored_docs(pre, reads);
        let y = stored_docs(entries, reads);
        assert(ascending::<String, Pointer>(pre));
        stored_from(pre, reads);
        assert forall|k: int| 0 <= k < y.len() implies exists|i: int|
            0 <= i < entries.len() && (#[trigger] y[k]).0 == (#[trigger] entries[i]).0 && (place_bytes(
                entries[i].1@,
                read_doc(reads, entries[i].0),
            ) matches Some(b) && decode_doc(b) == Some(y[k].1)) by {
            if k < x.len() {
                assert(y[k] == x[k]);
                let i = choose|i: int|
                    0 <= i < pre.len() && x[k].0 == (#[trigger] pre[i]).0 && (place_bytes(
                        pre[i].1@,
                        read_doc(reads, pre[i].0),
                    ) matches Some(b) && decode_doc(b) == Some(x[k].1));
                assert(entries[i] == pre[i]);
            } else {
                assert(entries[entries.len() - 1] == last);
            }
        }
        assert forall|k: int, l: int| #![trigger y[k], y[l]] 0 <= k < l < y.len() implies y[k].0 != y[l].0 by {
            assert(y[k] == x[k]);
            if l < x.len() {
                assert(y[l] == x[l]);
            } else {
                let i = choose|i: int|
                    0 <= i < pre.len() && x[k].0 == (#[trigger] pre[i]).0 && (place_bytes(
                        pre[i].1@,
                        read_doc(reads, pre[i].0),
                    ) matches Some(b) && decode_doc(b) == Some(x[k].1));
                assert(entries[i] == pre[i]);
                assert(key_lt::<String>(entries[i].0, last.0));
                key_order_total::<String>(last.0, last.0);
            }
        }
    }
}

/// Who reads the rooms of a store knows each of them, with its prefix, and they are apart.
pub proof fn loading_knows(a: Hako, m: Hako, reads: FileReads, k: Rooms)
    requires
        a.wf(),
        rooms_read(a, m, reads, k),
        permitted(a.security_rules@, "__hako_rooms"@, AccessOp::Query),
        well_kept(a, reads),
    ensures
        k.loaded,
        knows(k, m, reads),
        agrees(k, m, reads),
        apart(k),
        rooms_left_alone(a, reads, m, reads),
{
    let c = "__hako_rooms"@;
    let q = choose|q: Result<Vec<(String, FireLiteDoc)>, HakoError>| #[trigger]
        queried(a, m, reads, c, q) && k == rooms_of(rows_of(q));
    let rows = rows_of(q);
    let shard = m.shards@[c];
    let entries = shard.index.seq();
    assert(shard.wf());
    assert(rows == stored_docs(entries, reads));
    assert(shard_places(m.shards@, c) =~= shard_places(a.shards@, c));
    assert forall|i: Seq<char>| true implies #[trigger] room_row(m, reads, i) == room_row(a, reads, i) by {
    }
    assert(rooms_left_alone(a, reads, m, reads)) by {
        assert forall|i: Seq<char>| #[trigger] told(m, reads, i) implies told(a, reads, i) by {
            assert(room_row(m, reads, i) == room_row(a, reads, i));
        }
        assert forall|i: Seq<char>| #[trigger] row_prefix(m, reads, i) == row_prefix(a, reads, i) by {
            assert(room_row(m, reads, i) == room_row(a, reads, i));
        }
    }
    stored_from(entries, reads);
    assert forall|n: int| 0 <= n < rows.len() implies room_row(a, reads, (#[trigger] rows[n]).0) == Some(rows[n].1) by {
        let i = choose|i: int|
            0 <= i < entries.len() && stored_docs(entries, reads)[n].0 == (#[trigger] entries[i]).0 && (place_bytes(
                entries[i].1@,
                read_doc(reads, entries[i].0),
            ) matches Some(b) && decode_doc(b) == Some(stored_docs(entries, reads)[n].1));
        ascending_entry::<String, Pointer>(entries, i);
        assert(room_row(m, reads, rows[n].0) == room_row(a, reads, rows[n].0));
    }
    assert(rows_apart(rows)) by {
        assert forall|i: int, j: int| #![trigger rows[i], rows[j]] 0 <= i < j < rows.len() implies rows[i].0 != rows[j].0
            && docs_apart(rows[i].1, rows[j].1) by {
            assert(row_prefix(a, reads, rows[i].0) is Some ==> row_prefix(a, reads, rows[i].0) != row_prefix(
                a,
                reads,
                rows[j].0,
            ));
        }
    }
    read_rooms_are_apart(rows);
    rooms_of_loaded(rows);
    assert forall|id: Seq<char>| #[trigger] row_prefix(m, reads, id) == known_prefix(k, id) by {
        if let Some(p) = row_prefix(m, reads, id) {
            let d = room_row(m, reads, id)->Some_0;
            assert(shard.places().contains_key(id));
            let i = choose|i: int| 0 <= i < entries.len() && #[trigger] entries[i].0 == id;
            ascending_entry::<String, Pointer>(entries, i);
            let n = stored_at(entries, reads, i, d);
            row_is_known(rows, n, p);
        } else if k.prefix_by_id.contains_key(id) {
            let n = choose|n: int|
                0 <= n < rows.len() && (#[trigger] rows[n]).0 == id && text_under(rows[n].1, "prefix"@) == Some(
                    k.prefix_by_id[id],
                );
            assert(room_row(a, reads, rows[n].0) == Some(rows[n].1));
            assert(k.prefixes.contains(k.prefix_by_id[id]));
        }
    }
    assert forall|id: Seq<char>| #[trigger] told(m, reads, id) implies k.prefix_by_id.contains_key(id) by {
        assert(told(a, reads, id));
        assert(row_prefix(a, reads, id) is Some);
        assert(row_prefix(m, reads, id) == known_prefix(k, id));
    }
}

/// Rooms that were read from documents have been read.
proof fn rooms_of_loaded(rows: Seq<(Seq<char>, Doc)>)
    ensures
        rooms_of(rows).loaded,
    decreases rows.len(),
{
    if rows.len() > 0 {
        rooms_of_loaded(rows.drop_last());
    }
}

/// A room was resolved: it is among those that are known, with the prefix of the answer. None
/// of the others has another prefix than before, they are still apart, and still every room
/// that the store keeps is known.
pub proof fn resolving_knows(
    r0: Rooms,
    r1: Rooms,
    a: Hako,
    b: Hako,
    reads: FileReads,
    name: Seq<char>,
    key: Seq<char>,
    now_secs: i64,
    now_nanos: i64,
    r: Result<(String, String, Option<Outcome>), HakoError>,
)
    requires
        knows(r0, a, reads),
        apart(r0),
        settled_room(r0, r1, a, b, reads, name, key, now_secs, now_nanos, r),
    ensures
        knows(r1, b, reads),
        apart(r1),
        r1.loaded == r0.loaded,
        forall|i: Seq<char>| #[trigger] r0.prefix_by_id.contains_key(i) ==> r1.prefix_by_id.contains_key(i)
            && r1.prefix_by_id[i] == r0.prefix_by_id[i],
        r matches Ok((i, p, _)) ==> i@ == room_id(name, key) && r1.prefix_by_id.contains_key(i@) && r1.prefix_by_id[i@]
            == p@,
{
    let id = room_id(name, key);
    if !r0.prefix_by_id.contains_key(id) {
        let (m, row) = choose|m: Hako, row: Result<Option<FireLiteDoc>, HakoError>|
            #![trigger got(a, m, reads, "__hako_rooms"@, id, row)]
            got(a, m, reads, "__hako_rooms"@, id, row) && found_room(
                r0,
                r1,
                m,
                b,
                kept_prefix(row),
                name,
                key,
                now_secs,
                now_nanos,
                r,
            );
        room_is_read(a, m, reads, id, row);
        assert(kept_prefix(row) is None);
        let p = choose|p: Seq<char>|
            #![trigger is_new_prefix(r0.prefixes, sanitized(name), p)]
            is_new_prefix(r0.prefixes, sanitized(name), p) && made_room(
                r0,
                r1,
                m,
                b,
                name,
                key,
                p,
                now_secs,
                now_nanos,
                r,
            );
        new_prefix_is_free(r0.prefixes, sanitized(name), p);
        free_prefix_keeps_apart(r0, id, p);
        let w = choose|w: Result<Outcome, HakoError>| #[trigger]
            written(
                m,
                b,
                Map::empty(),
                now_nanos,
                seq![Wish::Put { collection: "__hako_rooms"@, id, doc: room_doc(name, key, p, now_secs) }],
                w,
            ) && match w {
                Ok(o) => names_room(r, id, p) && r->Ok_0.2 == Some(o) && r1 == with_room(r0, id, p),
                Err(e) => r == Err::<(String, String, Option<Outcome>), HakoError>(e) && r1 == r0,
            };
        others_are_kept(m, b, now_nanos, id, room_doc(name, key, p, now_secs), reads, w);
        assert forall|i: Seq<char>| #[trigger] told(b, reads, i) implies r1.prefix_by_id.contains_key(i) by {
            if i != id || w is Err {
                assert(told(m, reads, i));
                assert(told(a, reads, i));
            }
        }
    }
}

/// A server at a moment: the rooms that it knows, its store, and what is read from the files.
pub struct RoomMoment {
    pub rooms: Rooms,
    pub db: Hako,
    pub reads: FileReads,
}

/// A room was resolved between two moments. Where the rooms had to be read first the rules
/// allowed it.
pub open spec fn room_resolved(
    x: RoomMoment,
    y: RoomMoment,
    name: Seq<char>,
    key: Seq<char>,
    now_secs: i64,
    now_nanos: i64,
    r: Result<(String, String, Option<Outcome>), HakoError>,
) -> bool {
    &&& x.db.wf()
    &&& resolved(x.rooms, y.rooms, x.db, y.db, x.reads, name, key, now_secs, now_nanos, r)
    &&& y.reads == x.reads
    &&& x.rooms.loaded || permitted(x.db.security_rules@, "__hako_rooms"@, AccessOp::Query)
}

/// What happens between two moments: a room is resolved, or something else that leaves alone
/// what the store keeps of rooms.
pub open spec fn room_step(x: RoomMoment, y: RoomMoment) -> bool {
    ||| exists|
        name: Seq<char>,
        key: Seq<char>,
        now_secs: i64,
        now_nanos: i64,
        r: Result<(String, String, Option<Outcome>), HakoError>,
    | #[trigger] room_resolved(x, y, name, key, now_secs, now_nanos, r)
    ||| y.rooms == x.rooms && rooms_left_alone(x.db, x.reads, y.db, y.reads)
}

/// The moments of a server, from first to last.
pub open spec fn room_history(t: Seq<RoomMoment>) -> bool
    decreases t.len(),
{
    t.len() > 0 && (t.len() > 1 ==> room_history(t.drop_last()) && room_step(t[t.len() - 2], t.last()))
}

/// The rooms of a server are in order: once they have been read, every room that the store
/// keeps is known, and they are apart; before, the store can be read.
pub open spec fn in_order(x: RoomMoment) -> bool {
    if x.rooms.loaded {
        knows(x.rooms, x.db, x.reads) && apart(x.rooms)
    } else {
        well_kept(x.db, x.reads)
    }
}

/// A store that keeps no rooms can be read.
pub proof fn no_rooms_are_well_kept(a: Hako, reads: FileReads)
    requires
        shard_places(a.shards@, "__hako_rooms"@) == Map::<Seq<char>, Place>::empty(),
        a.doc_cache@ == Map::<Seq<char>, (u64, FireLiteDoc)>::empty(),
    ensures
        well_kept(a, reads),
{
}

/// A room was resolved by a server whose rooms are in order: they still are, and none of
/// them has another prefix than before. The one that was resolved is among them, with the
/// prefix of the answer.
pub proof fn resolved_in_order(
    x: RoomMoment,
    y: RoomMoment,
    name: Seq<char>,
    key: Seq<char>,
    now_secs: i64,
    now_nanos: i64,
    r: Result<(String, String, Option<Outcome>), HakoError>,
)
    requires
        in_order(x),
        room_resolved(x, y, name, key, now_secs, now_nanos, r),
    ensures
        in_order(y),
        y.rooms.loaded,
        x.rooms.loaded ==> forall|i: Seq<char>| #[trigger] x.rooms.prefix_by_id.contains_key(i)
            ==> y.rooms.prefix_by_id.contains_key(i) && y.rooms.prefix_by_id[i] == x.rooms.prefix_by_id[i],
        r matches Ok((i, p, _)) ==> i@ == room_id(name, key) && y.rooms.prefix_by_id.contains_key(i@)
            && y.rooms.prefix_by_id[i@] == p@,
{
    let (k, m) = choose|k: Rooms, m: Hako| #[trigger]
        rooms_loaded(x.rooms, k, x.db, m, x.reads) && settled_room(
            k,
            y.rooms,
            m,
            y.db,
            x.reads,
            name,
            key,
            now_secs,
            now_nanos,
            r,
        );
    if !x.rooms.loaded {
        loading_knows(x.db, m, x.reads, k);
    }
    resolving_knows(k, y.rooms, m, y.db, x.reads, name, key, now_secs, now_nanos, r);
}

/// The rooms of a server stay in order and keep their prefixes, whatever happens between.
pub proof fn rooms_stay_in_order(t: Seq<RoomMoment>, i: int)
    requires
        room_history(t),
        in_order(t[0]),
        0 <= i < t.len(),
    ensures
        in_order(t.last()),
        t[i].rooms.loaded ==> t.last().rooms.loaded,
        t[i].rooms.loaded ==> forall|d: Seq<char>| #[trigger] t[i].rooms.prefix_by_id.contains_key(d)
            ==> t.last().rooms.prefix_by_id.contains_key(d) && t.last().rooms.prefix_by_id[d]
            == t[i].rooms.prefix_by_id[d],
    decreases t.len(),
{
    if t.len() > 1 {
        let pre = t.drop_last();
        assert(pre[0] == t[0]);
        let (x, y) = (t[t.len() - 2], t.last());
        assert(pre.last() == x);
        let j = if i < pre.len() {
            i
        } else {
            0
        };
        rooms_stay_in_order(pre, j);
        assert(pre[j] == t[j]);
        if exists|
            name: Seq<char>,
            key: Seq<char>,
            now_secs: i64,
            now_nanos: i64,
            r: Result<(String, String, Option<Outcome>), HakoError>,
        | #[trigger] room_resolved(x, y, name, key, now_secs, now_nanos, r) {
            let (name, key, now_secs, now_nanos, r) = choose|
                name: Seq<char>,
                key: Seq<char>,
                now_secs: i64,
                now_nanos: i64,
                r: Result<(String, String, Option<Outcome>), HakoError>,
            | #[trigger] room_resolved(x, y, name, key, now_secs, now_nanos, r);
            resolved_in_order(x, y, name, key, now_secs, now_nanos, r);
        } else {
            if !x.rooms.loaded {
                left_alone_well_kept(x.db, x.reads, y.db, y.reads);
            }
        }
    }
}

/// What leaves alone what the store keeps of rooms leaves them to be read.
pub proof fn left_alone_well_kept(a: Hako, reads: FileReads, b: Hako, later: FileReads)
    requires
        well_kept(a, reads),
        rooms_left_alone(a, reads, b, later),
    ensures
        well_kept(b, later),
{
    assert forall|i: Seq<char>| #[trigger] told(b, later, i) implies row_prefix(b, later, i) is Some by {
        assert(row_prefix(a, reads, i) is Some);
    }
    assert forall|i: Seq<char>, j: Seq<char>| #![trigger row_prefix(b, later, i), row_prefix(b, later, j)]
        i != j && row_prefix(b, later, i) is Some implies row_prefix(b, later, i) != row_prefix(b, later, j) by {
        assert(row_prefix(a, reads, i) != row_prefix(a, reads, j));
    }
}

/// Two rooms never share a prefix: different pairs of a name and a key, resolved by the same
/// server at different moments, get different ids and different prefixes, whatever happens
/// between. The lengths of the names fit eight bytes, and the bytes that stand for the two
/// rooms do not happen to have the same digest.
pub proof fn rooms_never_share_a_prefix(
    t: Seq<RoomMoment>,
    i: int,
    j: int,
    name1: Seq<char>,
    key1: Seq<char>,
    secs1: i64,
    nanos1: i64,
    r1: Result<(String, String, Option<Outcome>), HakoError>,
    name2: Seq<char>,
    key2: Seq<char>,
    secs2: i64,
    nanos2: i64,
    r2: Result<(String, String, Option<Outcome>), HakoError>,
)
    requires
        room_history(t),
        in_order(t[0]),
        0 <= i < t.len() - 1,
        0 <= j < t.len() - 1,
        room_resolved(t[i], t[i + 1], name1, key1, secs1, nanos1, r1),
        room_resolved(t[j], t[j + 1], name2, key2, secs2, nanos2, r2),
        r1 is Ok,
        r2 is Ok,
        (name1, key1) != (name2, key2),
        encode_utf8(name1).len() < pow256(8),
        encode_utf8(name2).len() < pow256(8),
        room_bytes(name1, key1) != room_bytes(name2, key2) ==> sha256_digest(room_bytes(name1, key1)) != sha256_digest(
            room_bytes(name2, key2),
        ),
    ensures
        r1->Ok_0.0@ != r2->Ok_0.0@,
        r1->Ok_0.1@ != r2->Ok_0.1@,
{
    rooms_have_own_bytes(name1, key1, name2, key2);
    hex_injective(sha256_digest(room_bytes(name1, key1)), sha256_digest(room_bytes(name2, key2)));
    order_before(t, i);
    order_before(t, j);
    resolved_in_order(t[i], t[i + 1], name1, key1, secs1, nanos1, r1);
    resolved_in_order(t[j], t[j + 1], name2, key2, secs2, nanos2, r2);
    rooms_stay_in_order(t, i + 1);
    rooms_stay_in_order(t, j + 1);
    let r = t.last().rooms;
    assert(r.prefix_by_id[r1->Ok_0.0@] != r.prefix_by_id[r2->Ok_0.0@]);
}

/// The rooms of a server are in order at every moment.
proof fn order_before(t: Seq<RoomMoment>, i: int)
    requires
        room_history(t),
        in_order(t[0]),
        0 <= i < t.len(),
    ensures
        in_order(t[i]),
    decreases t.len(),
{
    if i == t.len() - 1 {
        rooms_stay_in_order(t, 0);
    } else {
        let pre = t.drop_last();
        assert(pre[0] == t[0]);
        assert(pre[i] == t[i]);
        order_before(pre, i);
    }
}

} // verus!
