//! Rooms keep their prefixes when a server starts again.
use vstd::prelude::*;
use vstd::utf8::encode_utf8;

use crate::cloud_sync::isolation::{apart, rooms_have_own_bytes};
use crate::cloud_sync::keeping::{
    agrees, known_prefix, knows, left_alone_well_kept, loading_knows, others_are_kept, resolving_knows, room_is_read, room_resolved,
    room_row, rooms_left_alone, row_prefix, told, well_kept, RoomMoment,
};
use crate::cloud_sync::rooms::{
    found_room, is_new_prefix, kept_prefix, made_room, names_room, new_prefix_is_free, room_bytes, room_doc,
    room_doc_holds, room_id, rooms_loaded, sanitized, sanitized_is_plain, settled_room, with_room, Rooms,
};
use crate::document::firelite_doc::{document_round_trip, Doc, FireLiteDoc};
use crate::engine::engine::{Hako, Outcome};
use crate::engine::files::FileReads;
use crate::engine::store::{got, put_lies, written};
use crate::engine::types::Wish;
use crate::engine::write::shard_end;
use crate::error::HakoError;
use crate::storage::blob::{skeleton_doc, skeleton_fits, small_value_is_found};
use crate::sync_guard::{hex_injective, sha256_digest};
use crate::util::fixed::{pow256, pow256_values};

verus! {

/// The document of a room that is made can be read: the lengths in it fit, and the prefix is
/// short enough to stand in the document itself.
pub open spec fn room_fits(a: Hako, name: Seq<char>, r: Result<(String, String, Option<Outcome>), HakoError>) -> bool {
    &&& encode_utf8(name).len() < pow256(4)
    &&& r matches Ok((_, p, _)) ==> encode_utf8(p@).len() < pow256(4) && encode_utf8(p@).len()
        <= a.config.value_blob_threshold_bytes
}

/// The document of a room that was put shows its prefix, whatever is read from the files.
proof fn room_is_kept(
    a: Hako,
    b: Hako,
    name: Seq<char>,
    key: Seq<char>,
    prefix: Seq<char>,
    now_secs: i64,
    now_nanos: i64,
    w: Result<Outcome, HakoError>,
    reads: FileReads,
)
    requires
        written(
            a,
            b,
            Map::empty(),
            now_nanos,
            seq![
                Wish::Put {
                    collection: "__hako_rooms"@,
                    id: room_id(name, key),
                    doc: room_doc(name, key, prefix, now_secs),
                },
            ],
            w,
        ),
        w is Ok,
        room_id(name, key).len() == 64,
        0 < prefix.len(),
        encode_utf8(prefix).len() <= a.config.value_blob_threshold_bytes,
        encode_utf8(prefix).len() < pow256(4),
        encode_utf8(name).len() < pow256(4),
    ensures
        row_prefix(b, reads, room_id(name, key)) == Some(prefix),
{
    let c = "__hako_rooms"@;
    let id = room_id(name, key);
    let d = room_doc(name, key, prefix, now_secs);
    let threshold = a.config.value_blob_threshold_bytes as nat;
    let end = shard_end(a.shards@, c);
    let stamped = Doc { fields: d.fields, time: (now_nanos as int / 1000) as i64 };
    let lean = skeleton_doc(stamped, threshold, end);
    put_lies(a, b, Map::empty(), now_nanos, c, id, d);
    room_doc_holds(name, key, prefix, now_secs);
    assert(stamped.map() =~= d.map());
    small_value_is_found(stamped, threshold, end, "prefix"@);
    skeleton_fits(stamped, threshold, end);
    document_round_trip(lean);
    assert(room_row(b, reads, id) == Some(lean));
}

/// A room was resolved: what the store kept of others it still keeps, it keeps the room with
/// the prefix of the answer, and its rooms can be read by everyone who starts from them.
pub proof fn resolving_keeps(
    r0: Rooms,
    r1: Rooms,
    a: Hako,
    b: Hako,
    reads: FileReads,
    name: Seq<char>,
    key: Seq<char>,
    now_secs: i64,
    now_nanos: i64,
    r: Result<(String, String, Option<Outcome>), HakoError>,
)
    requires
        well_kept(a, reads),
        knows(r0, a, reads),
        agrees(r0, a, reads),
        apart(r0),
        settled_room(r0, r1, a, b, reads, name, key, now_secs, now_nanos, r),
        room_fits(a, name, r),
    ensures
        well_kept(b, reads),
        agrees(r1, b, reads),
        forall|i: Seq<char>| (#[trigger] row_prefix(a, reads, i)) is Some ==> row_prefix(b, reads, i) == row_prefix(
            a,
            reads,
            i,
        ),
        r matches Ok((i, p, _)) ==> i@ == room_id(name, key) && row_prefix(b, reads, i@) == Some(p@),
{
    let id = room_id(name, key);
    resolving_knows(r0, r1, a, b, reads, name, key, now_secs, now_nanos, r);
    assert(row_prefix(a, reads, id) == known_prefix(r0, id));
    if !r0.prefix_by_id.contains_key(id) {
        let (m, row) = choose|m: Hako, row: Result<Option<FireLiteDoc>, HakoError>|
            #![trigger got(a, m, reads, "__hako_rooms"@, id, row)]
            got(a, m, reads, "__hako_rooms"@, id, row) && found_room(
                r0,
                r1,
                m,
                b,
                kept_prefix(row),
                name,
                key,
                now_secs,
                now_nanos,
                r,
            );
        room_is_read(a, m, reads, id, row);
        assert(kept_prefix(row) is None);
        let p = choose|p: Seq<char>|
            #![trigger is_new_prefix(r0.prefixes, sanitized(name), p)]
            is_new_prefix(r0.prefixes, sanitized(name), p) && made_room(
                r0,
                r1,
                m,
                b,
                name,
                key,
                p,
                now_secs,
                now_nanos,
                r,
            );
        new_prefix_is_free(r0.prefixes, sanitized(name), p);
        sanitized_is_plain(name);
        let w = choose|w: Result<Outcome, HakoError>| #[trigger]
            written(
                m,
                b,
                Map::empty(),
                now_nanos,
                seq![Wish::Put { collection: "__hako_rooms"@, id, doc: room_doc(name, key, p, now_secs) }],
                w,
            ) && match w {
                Ok(o) => names_room(r, id, p) && r->Ok_0.2 == Some(o) && r1 == with_room(r0, id, p),
                Err(e) => r == Err::<(String, String, Option<Outcome>), HakoError>(e) && r1 == r0,
            };
        others_are_kept(m, b, now_nanos, id, room_doc(name, key, p, now_secs), reads, w);
        if w is Ok {
            room_is_kept(m, b, name, key, p, now_secs, now_nanos, w, reads);
        }
        assert forall|i: Seq<char>| #[trigger] row_prefix(b, reads, i) == known_prefix(r1, i) by {
            assert(row_prefix(m, reads, i) == row_prefix(a, reads, i));
            assert(row_prefix(a, reads, i) == known_prefix(r0, i));
        }
        assert forall|i: Seq<char>| (#[trigger] row_prefix(a, reads, i)) is Some implies row_prefix(b, reads, i)
            == row_prefix(a, reads, i) by {
            assert(row_prefix(m, reads, i) == row_prefix(a, reads, i));
            assert(i != id);
        }
        assert forall|i: Seq<char>| #[trigger] told(b, reads, i) implies row_prefix(b, reads, i) is Some by {
            if i != id || w is Err {
                assert(told(m, reads, i));
                assert(told(a, reads, i));
                assert(row_prefix(a, reads, i) is Some);
            }
        }
        agreeing_is_well_kept(r1, b, reads);
    }
}

/// Where rooms that are apart are those that the store keeps, no two of these have the same
/// prefix.
proof fn agreeing_is_well_kept(k: Rooms, a: Hako, reads: FileReads)
    requires
        apart(k),
        agrees(k, a, reads),
        forall|i: Seq<char>| #[trigger] told(a, reads, i) ==> row_prefix(a, reads, i) is Some,
    ensures
        well_kept(a, reads),
{
    assert forall|i: Seq<char>, j: Seq<char>| #![trigger row_prefix(a, reads, i), row_prefix(a, reads, j)]
        i != j && row_prefix(a, reads, i) is Some implies row_prefix(a, reads, i) != row_prefix(a, reads, j) by {
        assert(row_prefix(a, reads, i) == known_prefix(k, i));
        assert(row_prefix(a, reads, j) == known_prefix(k, j));
    }
}

/// A room was resolved between two moments, and what was made of it can be read.
pub open spec fn room_settled(
    x: RoomMoment,
    y: RoomMoment,
    name: Seq<char>,
    key: Seq<char>,
    now_secs: i64,
    now_nanos: i64,
    r: Result<(String, String, Option<Outcome>), HakoError>,
) -> bool {
    room_resolved(x, y, name, key, now_secs, now_nanos, r) && room_fits(x.db, name, r)
}

/// What happens between two moments: a room is resolved, the server starts again with the same
/// store, or something else that leaves alone what the store keeps of rooms.
pub open spec fn server_step(x: RoomMoment, y: RoomMoment) -> bool {
    ||| exists|
        name: Seq<char>,
        key: Seq<char>,
        now_secs: i64,
        now_nanos: i64,
        r: Result<(String, String, Option<Outcome>), HakoError>,
    | #[trigger] room_settled(x, y, name, key, now_secs, now_nanos, r)
    ||| !y.rooms.loaded && y.db == x.db && y.reads == x.reads
    ||| y.rooms == x.rooms && rooms_left_alone(x.db, x.reads, y.db, y.reads)
}

/// The moments of a store and the servers on it, from first to last.
pub open spec fn server_history(t: Seq<RoomMoment>) -> bool
    decreases t.len(),
{
    t.len() > 0 && (t.len() > 1 ==> server_history(t.drop_last()) && server_step(t[t.len() - 2], t.last()))
}

/// The rooms of a store can be read. Once a server has read them it knows them with their
/// prefixes, and no others, and they are apart.
pub open spec fn all_in_order(x: RoomMoment) -> bool {
    &&& well_kept(x.db, x.reads)
    &&& x.rooms.loaded ==> knows(x.rooms, x.db, x.reads) && agrees(x.rooms, x.db, x.reads) && apart(x.rooms)
}

/// What is kept at one moment is still kept at another.
pub open spec fn still_kept(x: RoomMoment, y: RoomMoment) -> bool {
    forall|i: Seq<char>| (#[trigger] row_prefix(x.db, x.reads, i)) is Some ==> row_prefix(y.db, y.reads, i) == row_prefix(
        x.db,
        x.reads,
        i,
    )
}

/// A room was resolved: everything stays in order, what was kept is still kept, and the store
/// keeps the room with the prefix of the answer.
pub proof fn settled_in_order(
    x: RoomMoment,
    y: RoomMoment,
    name: Seq<char>,
    key: Seq<char>,
    now_secs: i64,
    now_nanos: i64,
    r: Result<(String, String, Option<Outcome>), HakoError>,
)
    requires
        all_in_order(x),
        room_settled(x, y, name, key, now_secs, now_nanos, r),
    ensures
        all_in_order(y),
        still_kept(x, y),
        r matches Ok((i, p, _)) ==> i@ == room_id(name, key) && row_prefix(y.db, y.reads, i@) == Some(p@),
{
    let (k, m) = choose|k: Rooms, m: Hako| #[trigger]
        rooms_loaded(x.rooms, k, x.db, m, x.reads) && settled_room(
            k,
            y.rooms,
            m,
            y.db,
            x.reads,
            name,
            key,
            now_secs,
            now_nanos,
            r,
        );
    if !x.rooms.loaded {
        loading_knows(x.db, m, x.reads, k);
        assert forall|i: Seq<char>| #[trigger] told(m, x.reads, i) implies row_prefix(m, x.reads, i) is Some by {
            assert(told(x.db, x.reads, i));
            assert(row_prefix(x.db, x.reads, i) is Some);
        }
        agreeing_is_well_kept(k, m, x.reads);
    }
    resolving_knows(k, y.rooms, m, y.db, x.reads, name, key, now_secs, now_nanos, r);
    resolving_keeps(k, y.rooms, m, y.db, x.reads, name, key, now_secs, now_nanos, r);
    assert forall|i: Seq<char>| (#[trigger] row_prefix(x.db, x.reads, i)) is Some implies row_prefix(y.db, y.reads, i)
        == row_prefix(x.db, x.reads, i) by {
        assert(row_prefix(m, x.reads, i) == row_prefix(x.db, x.reads, i));
    }
}

/// What happens between two moments leaves everything in order, and what was kept is still
/// kept.
proof fn step_in_order(x: RoomMoment, y: RoomMoment)
    requires
        all_in_order(x),
        server_step(x, y),
    ensures
        all_in_order(y),
        still_kept(x, y),
{
    if exists|
        name: Seq<char>,
        key: Seq<char>,
        now_secs: i64,
        now_nanos: i64,
        r: Result<(String, String, Option<Outcome>), HakoError>,
    | #[trigger] room_settled(x, y, name, key, now_secs, now_nanos, r) {
        let (name, key, now_secs, now_nanos, r) = choose|
            name: Seq<char>,
            key: Seq<char>,
            now_secs: i64,
            now_nanos: i64,
            r: Result<(String, String, Option<Outcome>), HakoError>,
        | #[trigger] room_settled(x, y, name, key, now_secs, now_nanos, r);
        settled_in_order(x, y, name, key, now_secs, now_nanos, r);
    } else if !(!y.rooms.loaded && y.db == x.db && y.reads == x.reads) {
        left_alone_well_kept(x.db, x.reads, y.db, y.reads);
        if x.rooms.loaded {
            assert forall|i: Seq<char>| #[trigger] row_prefix(y.db, y.reads, i) == known_prefix(y.rooms, i) by {
                assert(row_prefix(x.db, x.reads, i) == known_prefix(x.rooms, i));
            }
        }
    }
}

/// The rooms of a store stay in order whatever happens, and a room that the store keeps it
/// keeps with the same prefix for ever.
pub proof fn rooms_outlive_restarts(t: Seq<RoomMoment>, i: int)
    requires
        server_history(t),
        all_in_order(t[0]),
        0 <= i < t.len(),
    ensures
        all_in_order(t[i]),
        all_in_order(t.last()),
        still_kept(t[i], t.last()),
    decreases t.len(),
{
    if t.len() > 1 {
        let pre = t.drop_last();
        assert(pre[0] == t[0]);
        let (x, y) = (t[t.len() - 2], t.last());
        assert(pre.last() == x);
        let j = if i < pre.len() {
            i
        } else {
            0
        };
        rooms_outlive_restarts(pre, j);
        assert(pre[j] == t[j]);
        step_in_order(x, y);
        assert forall|d: Seq<char>| (#[trigger] row_prefix(t[i].db, t[i].reads, d)) is Some implies row_prefix(
            y.db,
            y.reads,
            d,
        ) == row_prefix(t[i].db, t[i].reads, d) by {
            if i < pre.len() {
                assert(row_prefix(x.db, x.reads, d) == row_prefix(t[i].db, t[i].reads, d));
            }
        }
    }
}

/// Two rooms never share a prefix, and no room ever changes its own, however often the server
/// starts again between: different pairs of a name and a key get different ids and different
/// prefixes, and the same pair gets the same. The lengths of the names fit, and the bytes that
/// stand for the two rooms do not happen to have the same digest.
pub proof fn prefixes_outlive_restarts(
    t: Seq<RoomMoment>,
    i: int,
    j: int,
    name1: Seq<char>,
    key1: Seq<char>,
    secs1: i64,
    nanos1: i64,
    r1: Result<(String, String, Option<Outcome>), HakoError>,
    name2: Seq<char>,
    key2: Seq<char>,
    secs2: i64,
    nanos2: i64,
    r2: Result<(String, String, Option<Outcome>), HakoError>,
)
    requires
        server_history(t),
        all_in_order(t[0]),
        0 <= i < t.len() - 1,
        0 <= j < t.len() - 1,
        room_settled(t[i], t[i + 1], name1, key1, secs1, nanos1, r1),
        room_settled(t[j], t[j + 1], name2, key2, secs2, nanos2, r2),
        r1 is Ok,
        r2 is Ok,
        room_bytes(name1, key1) != room_bytes(name2, key2) ==> sha256_digest(room_bytes(name1, key1)) != sha256_digest(
            room_bytes(name2, key2),
        ),
    ensures
        (name1, key1) == (name2, key2) <==> r1->Ok_0.0@ == r2->Ok_0.0@,
        (name1, key1) == (name2, key2) <==> r1->Ok_0.1@ == r2->Ok_0.1@,
{
    pow256_values();
    if (name1, key1) != (name2, key2) {
        rooms_have_own_bytes(name1, key1, name2, key2);
        hex_injective(sha256_digest(room_bytes(name1, key1)), sha256_digest(room_bytes(name2, key2)));
    }
    rooms_outlive_restarts(t, i);
    rooms_outlive_restarts(t, j);
    settled_in_order(t[i], t[i + 1], name1, key1, secs1, nanos1, r1);
    settled_in_order(t[j], t[j + 1], name2, key2, secs2, nanos2, r2);
    rooms_outlive_restarts(t, i + 1);
    rooms_outlive_restarts(t, j + 1);
    let z = t.last();
    let (id1, id2) = (r1->Ok_0.0@, r2->Ok_0.0@);
    assert(row_prefix(z.db, z.reads, id1) == Some(r1->Ok_0.1@));
    assert(row_prefix(z.db, z.reads, id2) == Some(r2->Ok_0.1@));
}

} // verus!
