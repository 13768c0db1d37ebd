//! Different rooms are kept apart.
use vstd::prelude::*;
use vstd::utf8::encode_utf8;

use crate::cloud_sync::access::text_under;
use crate::cloud_sync::rooms::{room_bytes, rooms_of, with_room, Rooms};
use crate::document::firelite_doc::Doc;
use crate::text::encode_utf8_injective;
use crate::util::fixed::{le_bytes, le_round_trip, pow256};

verus! {

/// In bytes of which none is a NUL, with a NUL between, that is the only one.
proof fn nul_stands_between(n: Seq<u8>, k: Seq<u8>, i: int)
    requires
        !n.contains(0u8),
        !k.contains(0u8),
        0 <= i < n.len() + 1 + k.len(),
        (n + seq![0u8] + k)[i] == 0u8,
    ensures
        i == n.len(),
{
    let s = n + seq![0u8] + k;
    if i < n.len() {
        assert(n[i] == s[i]);
    } else if i > n.len() {
        assert(k[i - n.len() - 1] == s[i]);
    }
}

/// The bytes of a room with a NUL in its name or its key are not those of one without.
proof fn forms_differ(name1: Seq<char>, key1: Seq<char>, name2: Seq<char>, key2: Seq<char>)
    requires
        encode_utf8(name1).contains(0u8) || encode_utf8(key1).contains(0u8),
        !encode_utf8(name2).contains(0u8),
        !encode_utf8(key2).contains(0u8),
    ensures
        room_bytes(name1, key1) != room_bytes(name2, key2),
{
    let (n, k) = (encode_utf8(name1), encode_utf8(key1));
    let (m, l) = (encode_utf8(name2), encode_utf8(key2));
    let a = room_bytes(name1, key1);
    le_round_trip(n.len(), 8);
    if a == room_bytes(name2, key2) {
        assert(a.len() == 9 + n.len() + k.len());
        assert(a.len() == m.len() + 1 + l.len());
        assert(a[0] == 0u8);
        nul_stands_between(m, l, 0);
        if n.contains(0u8) {
            let i = choose|i: int| 0 <= i < n.len() && n[i] == 0u8;
            assert(a[9 + i] == 0u8);
            nul_stands_between(m, l, 9 + i);
        } else {
            let i = choose|i: int| 0 <= i < k.len() && k[i] == 0u8;
            assert(a[9 + n.len() + i] == 0u8);
            nul_stands_between(m, l, 9 + n.len() + i);
        }
    }
}

/// Different pairs of a name and a key stand for different bytes. The lengths of the names
/// fit eight bytes.
pub proof fn rooms_have_own_bytes(name1: Seq<char>, key1: Seq<char>, name2: Seq<char>, key2: Seq<char>)
    requires
        (name1, key1) != (name2, key2),
        encode_utf8(name1).len() < pow256(8),
        encode_utf8(name2).len() < pow256(8),
    ensures
        room_bytes(name1, key1) != room_bytes(name2, key2),
{
    let (n, k) = (encode_utf8(name1), encode_utf8(key1));
    let (m, l) = (encode_utf8(name2), encode_utf8(key2));
    let a = room_bytes(name1, key1);
    let b = room_bytes(name2, key2);
    if a == b {
        let long1 = n.contains(0u8) || k.contains(0u8);
        let long2 = m.contains(0u8) || l.contains(0u8);
        le_round_trip(n.len(), 8);
        le_round_trip(m.len(), 8);
        if long1 && long2 {
            assert(a.subrange(1, 9) =~= le_bytes(n.len(), 8));
            assert(b.subrange(1, 9) =~= le_bytes(m.len(), 8));
            assert(a.subrange(9, 9 + n.len() as int) =~= n);
            assert(b.subrange(9, 9 + m.len() as int) =~= m);
            assert(a.skip(9 + n.len() as int) =~= k);
            assert(b.skip(9 + m.len() as int) =~= l);
        } else if long1 {
            forms_differ(name1, key1, name2, key2);
        } else if long2 {
            forms_differ(name2, key2, name1, key1);
        } else {
            assert(a.len() == n.len() + 1 + k.len());
            assert(b.len() == m.len() + 1 + l.len());
            assert(a[n.len() as int] == 0u8);
            nul_stands_between(m, l, n.len() as int);
            assert(a.take(n.len() as int) =~= n);
            assert(b.take(m.len() as int) =~= m);
            assert(a.skip(n.len() as int + 1) =~= k);
            assert(b.skip(m.len() as int + 1) =~= l);
        }
        encode_utf8_injective(name1, name2);
        encode_utf8_injective(key1, key2);
    }
}

/// Rooms are kept apart: no prefix is that of two rooms, and the prefix of every room is
/// taken.
pub open spec fn apart(r: Rooms) -> bool {
    &&& forall|i: Seq<char>| #[trigger] r.prefix_by_id.contains_key(i) ==> r.prefixes.contains(r.prefix_by_id[i])
    &&& forall|i: Seq<char>, j: Seq<char>| #![trigger r.prefix_by_id[i], r.prefix_by_id[j]]
        r.prefix_by_id.contains_key(i) && r.prefix_by_id.contains_key(j) && i != j ==> r.prefix_by_id[i]
            != r.prefix_by_id[j]
}

/// A room with a prefix that is not taken is apart from all others.
pub proof fn free_prefix_keeps_apart(r: Rooms, id: Seq<char>, p: Seq<char>)
    requires
        apart(r),
        !r.prefix_by_id.contains_key(id),
        !r.prefixes.contains(p),
    ensures
        apart(with_room(r, id, p)),
{
    let t = with_room(r, id, p);
    assert forall|i: Seq<char>, j: Seq<char>| #![trigger t.prefix_by_id[i], t.prefix_by_id[j]]
        t.prefix_by_id.contains_key(i) && t.prefix_by_id.contains_key(j) && i != j implies t.prefix_by_id[i]
        != t.prefix_by_id[j] by {
        if i != id {
            assert(r.prefixes.contains(r.prefix_by_id[i]));
        }
        if j != id {
            assert(r.prefixes.contains(r.prefix_by_id[j]));
        }
    }
}

/// Two documents do not tell of the same prefix, but for an empty one, which is none.
pub open spec fn docs_apart(c: Doc, d: Doc) -> bool {
    text_under(c, "prefix"@) matches Some(p) ==> p.len() > 0 ==> text_under(d, "prefix"@) != Some(p)
}

/// Documents that tell of rooms give no two of them the same prefix, and tell of none twice.
pub open spec fn rows_apart(rows: Seq<(Seq<char>, Doc)>) -> bool {
    forall|i: int, j: int| #![trigger rows[i], rows[j]]
        0 <= i < j < rows.len() ==> rows[i].0 != rows[j].0 && docs_apart(rows[i].1, rows[j].1)
}

/// Rooms that were read from documents without a prefix in common are apart, and each has
/// the prefix that a document tells of.
pub proof fn read_rooms_are_apart(rows: Seq<(Seq<char>, Doc)>)
    requires
        rows_apart(rows),
    ensures
        apart(rooms_of(rows)),
        forall|p: Seq<char>| #[trigger] rooms_of(rows).prefixes.contains(p) ==> p.len() > 0 && exists|i: int|
            0 <= i < rows.len() && text_under((#[trigger] rows[i]).1, "prefix"@) == Some(p),
        forall|d: Seq<char>| #[trigger] rooms_of(rows).prefix_by_id.contains_key(d) ==> exists|i: int|
            0 <= i < rows.len() && (#[trigger] rows[i]).0 == d && text_under(rows[i].1, "prefix"@) == Some(
                rooms_of(rows).prefix_by_id[d],
            ),
    decreases rows.len(),
{
    if rows.len() > 0 {
        let pre = rows.drop_last();
        let last = rows[rows.len() - 1];
        let r = rooms_of(pre);
        assert(rows_apart(pre)) by {
            assert forall|i: int, j: int| #![trigger pre[i], pre[j]] 0 <= i < j < pre.len() implies pre[i].0 != pre[j].0
                && docs_apart(pre[i].1, pre[j].1) by {
                assert(pre[i] == rows[i] && pre[j] == rows[j]);
            }
        }
        read_rooms_are_apart(pre);
        assert forall|d: Seq<char>| #[trigger] r.prefix_by_id.contains_key(d) implies d != last.0 && exists|i: int|
            0 <= i < rows.len() && (#[trigger] rows[i]).0 == d && text_under(rows[i].1, "prefix"@) == Some(
                r.prefix_by_id[d],
            ) by {
            let i = choose|i: int|
                0 <= i < pre.len() && (#[trigger] pre[i]).0 == d && text_under(pre[i].1, "prefix"@) == Some(
                    r.prefix_by_id[d],
                );
            assert(rows[i] == pre[i]);
        }
        assert forall|p: Seq<char>| #[trigger] r.prefixes.contains(p) implies Some(p) != text_under(last.1, "prefix"@)
            && exists|i: int| 0 <= i < rows.len() && text_under((#[trigger] rows[i]).1, "prefix"@) == Some(p) by {
            let i = choose|i: int| 0 <= i < pre.len() && text_under((#[trigger] pre[i]).1, "prefix"@) == Some(p);
            assert(rows[i] == pre[i]);
            assert(docs_apart(rows[i].1, last.1));
        }
        match text_under(last.1, "prefix"@) {
            Some(p) => {
                assert(rows[rows.len() - 1] == last);
                if p.len() > 0 {
                    free_prefix_keeps_apart(r, last.0, p);
                }
            },
            None => {},
        }
    }
}

} // verus!
