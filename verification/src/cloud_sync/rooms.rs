//! The rooms of a server: each has a prefix of its own for its collections.
use vstd::prelude::*;
use vstd::string::*;
use vstd::utf8::encode_utf8;

use crate::cloud_sync::access::{get_text, text_under};
use crate::document::firelite_doc::{
    document_round_trip, names_view, with_field, with_field_fits, with_field_holds, Doc, FireLiteDoc,
};
use crate::document::value::{copy_bytes, parts_view, Val, Value};
use crate::engine::access::{begins, permitted, text_begins};
use crate::engine::engine::{Hako, Outcome};
use crate::engine::files::FileReads;
use crate::engine::store::{got, put_lies, queried, stored_at, written};
use crate::engine::types::{AccessOp, Wish};
use crate::engine::write::{empty_doc, shard_end};
use crate::error::HakoError;
use crate::index::composite::composite_index::docs_view;
use crate::sorted_map::{ascending_dom_len, ascending_entry, SortedMap};
use crate::sync_guard::{hex, hex_len, hex_text, sha256, sha256_digest};
use crate::storage::blob::{skeleton_doc, skeleton_fits, small_value_is_found};
use crate::storage::pointer::Pointer;
use crate::text::{chars_of, encode_utf8_bound, same_text, text_of};
use crate::util::decimal::{digits, digits_differ, push_digits};
use crate::util::fixed::{le_bytes, pow256, pow256_values, put_le};

verus! {

/// The collection that keeps the rooms.
pub fn internal_rooms_collection() -> (s: &'static str)
    ensures
        s@ == "__hako_rooms"@,
{
    "__hako_rooms"
}

/// The bytes that stand for a room: its name and its key with a NUL between. Where one of
/// them holds a NUL itself, a NUL and the length of the name come first.
pub open spec fn room_bytes(name: Seq<char>, key: Seq<char>) -> Seq<u8> {
    let n = encode_utf8(name);
    let k = encode_utf8(key);
    if n.contains(0u8) || k.contains(0u8) {
        seq![0u8] + le_bytes(n.len(), 8) + n + k
    } else {
        n + seq![0u8] + k
    }
}

/// The id of a room: the digest of the bytes that stand for it.
pub open spec fn room_id(name: Seq<char>, key: Seq<char>) -> Seq<char> {
    hex(sha256_digest(room_bytes(name, key)))
}

/// Whether bytes hold a NUL.
fn holds_nul(bytes: &[u8]) -> (r: bool)
    ensures
        r == bytes@.contains(0u8),
{
    let mut i: usize = 0;
    while i < bytes.len()
        invariant
            i <= bytes@.len(),
            forall|j: int| 0 <= j < i ==> bytes@[j] != 0u8,
        decreases bytes@.len() - i,
    {
        if bytes[i] == 0 {
            proof {
                assert(bytes@[i as int] == 0u8);
            }
            return true;
        }
        i = i + 1;
    }
    false
}

/// The id of a room.
pub fn hash_room_id(room_name: &str, room_key: &str) -> (s: String)
    ensures
        s@ == room_id(room_name@, room_key@),
        s@.len() == 64,
{
    let mut name = copy_bytes(room_name.as_bytes());
    let mut key = copy_bytes(room_key.as_bytes());
    let mut data: Vec<u8> = Vec::new();
    if holds_nul(name.as_slice()) || holds_nul(key.as_slice()) {
        data.push(0);
        put_le(&mut data, name.len() as u64, 8);
        data.append(&mut name);
    } else {
        data.append(&mut name);
        data.push(0);
    }
    data.append(&mut key);
    let d = sha256(data.as_slice());
    proof {
        assert(data@ =~= room_bytes(room_name@, room_key@));
        assert(d@.take(32) =~= d@);
        hex_len(d@);
    }
    hex_text(&d, 32)
}

/// Whether a character may stand in a prefix.
pub open spec fn plain_char(c: char) -> bool {
    'a' <= c <= 'z' || 'A' <= c <= 'Z' || '0' <= c <= '9' || c == '_' || c == '-'
}

/// A name with each run of other characters, but for one in front, as an underscore.
pub open spec fn cleaned(s: Seq<char>) -> Seq<char>
    decreases s.len(),
{
    if s.len() == 0 {
        Seq::empty()
    } else {
        let b = cleaned(s.drop_last());
        if plain_char(s.last()) {
            b.push(s.last())
        } else if b.len() > 0 && b.last() != '_' {
            b.push('_')
        } else {
            b
        }
    }
}

/// A name without the underscores behind it.
pub open spec fn stripped(s: Seq<char>) -> Seq<char>
    decreases s.len(),
{
    if s.len() > 0 && s.last() == '_' {
        stripped(s.drop_last())
    } else {
        s
    }
}

/// The prefix that a name of a room suggests: 40 characters of it at most, and `room` where
/// nothing of it is left.
pub open spec fn sanitized(name: Seq<char>) -> Seq<char> {
    let t = stripped(cleaned(name));
    if t.len() == 0 {
        "room"@
    } else if t.len() > 40 {
        t.take(40)
    } else {
        t
    }
}

/// The prefix that a name of a room suggests.
pub fn sanitize_room_name(name: &str) -> (r: String)
    ensures
        r@ == sanitized(name@),
{
    let v = chars_of(name);
    let mut out: Vec<char> = Vec::new();
    let mut i: usize = 0;
    proof {
        assert(v@.take(0) =~= Seq::<char>::empty());
    }
    while i < v.len()
        invariant
            v@ == name@,
            i <= v@.len(),
            out@ == cleaned(v@.take(i as int)),
        decreases v@.len() - i,
    {
        proof {
            assert(v@.take(i + 1).drop_last() =~= v@.take(i as int));
            assert(v@.take(i + 1).last() == v@[i as int]);
        }
        let c: char = v[i];
        if ('a' <= c && c <= 'z') || ('A' <= c && c <= 'Z') || ('0' <= c && c <= '9') || c == '_' || c == '-' {
            out.push(c);
        } else if out.len() > 0 && out[out.len() - 1] != '_' {
            out.push('_');
        }
        i = i + 1;
    }
    proof {
        assert(v@.take(i as int) =~= v@);
    }
    let mut n: usize = out.len();
    proof {
        assert(out@.take(n as int) =~= out@);
    }
    while n > 0 && out[n - 1] == '_'
        invariant
            n <= out@.len(),
            stripped(out@) == stripped(out@.take(n as int)),
        decreases n,
    {
        proof {
            assert(out@.take(n as int).drop_last() =~= out@.take(n - 1));
        }
        n = n - 1;
    }
    proof {
        assert(stripped(out@) == out@.take(n as int));
    }
    if n == 0 {
        return "room".to_owned();
    }
    let m: usize = if n > 40 {
        40
    } else {
        n
    };
    proof {
        assert(out@.subrange(0, m as int) =~= out@.take(n as int).take(m as int));
        assert(out@.take(n as int).take(n as int) =~= out@.take(n as int));
    }
    text_of(&out, 0, m)
}

/// A prefix is never empty nor long, and holds only letters, digits, underscores and
/// hyphens.
pub proof fn sanitized_is_plain(name: Seq<char>)
    ensures
        0 < sanitized(name).len() <= 40,
        forall|i: int| 0 <= i < sanitized(name).len() ==> plain_char(#[trigger] sanitized(name)[i]),
{
    reveal_strlit("room");
    cleaned_is_plain(name);
    let c = cleaned(name);
    stripped_is_front(c);
    let t = stripped(c);
    assert forall|i: int| 0 <= i < t.len() implies plain_char(#[trigger] t[i]) by {
        assert(t[i] == c[i]);
    }
}

proof fn cleaned_is_plain(s: Seq<char>)
    ensures
        forall|i: int| 0 <= i < cleaned(s).len() ==> plain_char(#[trigger] cleaned(s)[i]),
    decreases s.len(),
{
    if s.len() > 0 {
        cleaned_is_plain(s.drop_last());
        let b = cleaned(s.drop_last());
        assert forall|i: int| 0 <= i < cleaned(s).len() implies plain_char(#[trigger] cleaned(s)[i]) by {
            if i < b.len() {
                assert(cleaned(s)[i] == b[i]);
            }
        }
    }
}

proof fn stripped_is_front(s: Seq<char>)
    ensures
        stripped(s).len() <= s.len(),
        stripped(s) == s.take(stripped(s).len() as int),
    decreases s.len(),
{
    if s.len() > 0 && s.last() == '_' {
        stripped_is_front(s.drop_last());
        let n = stripped(s).len() as int;
        assert(s.drop_last().take(n) =~= s.take(n));
    } else {
        assert(s.take(s.len() as int) =~= s);
    }
}

/// The name under which the server keeps a collection of a room.
pub open spec fn storage_name(prefix: Seq<char>, plain: Seq<char>) -> Seq<char> {
    if prefix.len() == 0 {
        plain
    } else {
        prefix + "_"@ + plain
    }
}

/// The name under which the server keeps a collection of a room.
pub fn storage_col_name(prefix: &str, plain_col: &str) -> (s: String)
    ensures
        s@ == storage_name(prefix@, plain_col@),
{
    let blank = same_text(prefix, "");
    proof {
        reveal_strlit("");
        if prefix@.len() == 0 {
            assert(prefix@ =~= ""@);
        }
    }
    if blank {
        plain_col.to_owned()
    } else {
        let mut s = prefix.to_owned();
        s.append("_");
        s.append(plain_col);
        s
    }
}

/// The name of a change among those that came from elsewhere.
pub open spec fn echo_name(prefix: Seq<char>, plain: Seq<char>, key: Seq<char>) -> Seq<char> {
    prefix + ":"@ + plain + ":"@ + key
}

/// The name of a change among those that came from elsewhere.
pub fn echo_key(prefix: &str, plain_col: &str, key: &str) -> (s: String)
    ensures
        s@ == echo_name(prefix@, plain_col@, key@),
{
    let mut s = prefix.to_owned();
    s.append(":");
    s.append(plain_col);
    s.append(":");
    s.append(key);
    s
}

/// Rooms with different prefixes keep collections of the same name apart.
pub proof fn rooms_do_not_mix(p: Seq<char>, q: Seq<char>, collection: Seq<char>)
    requires
        p.len() > 0,
        q.len() > 0,
        p != q,
    ensures
        storage_name(p, collection) != storage_name(q, collection),
{
    reveal_strlit("_");
    if storage_name(p, collection) == storage_name(q, collection) {
        let s = storage_name(p, collection);
        assert(s.len() == p.len() + 1 + collection.len());
        assert(s.take(p.len() as int) =~= p);
        assert(s.take(q.len() as int) =~= q);
    }
}

/// The rooms that are known: the prefix of each by its id, and the prefixes that are taken.
#[verifier::ext_equal]
pub struct Rooms {
    pub prefix_by_id: Map<Seq<char>, Seq<char>>,
    pub prefixes: Set<Seq<char>>,
    pub loaded: bool,
}

/// The rooms of a server.
pub struct RoomRegistry {
    cache: SortedMap<String, String>,
    taken: SortedMap<String, ()>,
    loaded: bool,
}

/// The texts of a map.
pub open spec fn texts(m: Map<Seq<char>, String>) -> Map<Seq<char>, Seq<char>> {
    Map::new(|k: Seq<char>| m.contains_key(k), |k: Seq<char>| m[k]@)
}

impl View for RoomRegistry {
    type V = Rooms;

    closed spec fn view(&self) -> Rooms {
        Rooms { prefix_by_id: texts(self.cache@), prefixes: self.taken@.dom(), loaded: self.loaded }
    }
}

/// The rooms with one more.
pub open spec fn with_room(r: Rooms, id: Seq<char>, prefix: Seq<char>) -> Rooms {
    Rooms { prefix_by_id: r.prefix_by_id.insert(id, prefix), prefixes: r.prefixes.insert(prefix), loaded: r.loaded }
}

/// The rooms that documents tell of: those with a prefix that is not empty.
pub open spec fn rooms_of(docs: Seq<(Seq<char>, Doc)>) -> Rooms
    decreases docs.len(),
{
    if docs.len() == 0 {
        Rooms { prefix_by_id: Map::empty(), prefixes: Set::empty(), loaded: true }
    } else {
        let before = rooms_of(docs.drop_last());
        match text_under(docs.last().1, "prefix"@) {
            Some(p) => if p.len() > 0 {
                with_room(before, docs.last().0, p)
            } else {
                before
            },
            None => before,
        }
    }
}

/// The prefix with a number behind it.
pub open spec fn numbered(base: Seq<char>, n: nat) -> Seq<char> {
    base + "_"@ + digits(n, 10)
}

/// Whether a prefix is the one for a new room: the base itself where it is free, and else
/// the base with the first number that makes it free.
pub open spec fn is_new_prefix(taken: Set<Seq<char>>, base: Seq<char>, p: Seq<char>) -> bool {
    if !taken.contains(base) {
        p == base
    } else {
        exists|n: nat|
            #![trigger numbered(base, n)]
            1 <= n && p == numbered(base, n) && !taken.contains(p) && forall|m: nat|
                1 <= m < n ==> taken.contains(#[trigger] numbered(base, m))
    }
}

/// A new prefix is not taken.
pub proof fn new_prefix_is_free(taken: Set<Seq<char>>, base: Seq<char>, p: Seq<char>)
    requires
        is_new_prefix(taken, base, p),
    ensures
        !taken.contains(p),
{
}

/// The prefixes with the numbers from 1 on.
pub open spec fn numbered_set(base: Seq<char>, k: nat) -> Set<Seq<char>>
    decreases k,
{
    if k == 0 {
        Set::empty()
    } else {
        numbered_set(base, (k - 1) as nat).insert(numbered(base, k))
    }
}

/// Different numbers make different prefixes.
proof fn numbered_differ(base: Seq<char>, a: nat, b: nat)
    requires
        numbered(base, a) == numbered(base, b),
    ensures
        a == b,
{
    reveal_strlit("_");
    let (s, t) = (numbered(base, a), numbered(base, b));
    assert(s.skip(base.len() as int + 1) =~= digits(a, 10));
    assert(t.skip(base.len() as int + 1) =~= digits(b, 10));
    digits_differ(a, b);
}

/// There are as many numbered prefixes as numbers.
proof fn numbered_count(base: Seq<char>, k: nat)
    ensures
        numbered_set(base, k).finite(),
        numbered_set(base, k).len() == k,
        forall|x: Seq<char>| #[trigger]
            numbered_set(base, k).contains(x) ==> exists|n: nat| 1 <= n <= k && x == #[trigger] numbered(base, n),
    decreases k,
{
    if k > 0 {
        let j = (k - 1) as nat;
        numbered_count(base, j);
        if numbered_set(base, j).contains(numbered(base, k)) {
            let n = choose|n: nat| 1 <= n <= j && numbered(base, k) == #[trigger] numbered(base, n);
            numbered_differ(base, k, n);
        }
        assert forall|x: Seq<char>| #[trigger] numbered_set(base, k).contains(x) implies exists|n: nat|
            1 <= n <= k && x == #[trigger] numbered(base, n) by {
            if numbered_set(base, j).contains(x) {
                let n = choose|n: nat| 1 <= n <= j && x == #[trigger] numbered(base, n);
                assert(1 <= n <= k);
            } else {
                assert(x == numbered(base, k));
            }
        }
    }
}

/// A finite set that holds a base has more elements than numbered prefixes of it.
proof fn some_number_is_free(taken: Set<Seq<char>>, base: Seq<char>, k: nat)
    requires
        taken.finite(),
        taken.contains(base),
        forall|m: nat| 1 <= m <= k ==> taken.contains(#[trigger] numbered(base, m)),
    ensures
        k < taken.len(),
{
    reveal_strlit("_");
    numbered_count(base, k);
    if numbered_set(base, k).contains(base) {
        let n = choose|n: nat| 1 <= n <= k && base == #[trigger] numbered(base, n);
        assert(numbered(base, n).len() > base.len());
    }
    let c = numbered_set(base, k).insert(base);
    assert forall|x: Seq<char>| c.contains(x) implies taken.contains(x) by {
        if x != base {
            let n = choose|n: nat| 1 <= n <= k && x == #[trigger] numbered(base, n);
        }
    }
    vstd::set_lib::lemma_len_subset(c, taken);
}

/// The document that keeps a room.
pub open spec fn room_doc(name: Seq<char>, key: Seq<char>, prefix: Seq<char>, now_secs: i64) -> Doc {
    with_field(
        with_field(
            with_field(
                with_field(
                    with_field(empty_doc(), "room_name"@, Val::String(name)),
                    "key_hash"@,
                    Val::String(room_id(name, key)),
                ),
                "prefix"@,
                Val::String(prefix),
            ),
            "created_at"@,
            Val::Int(now_secs),
        ),
        "last_seen"@,
        Val::Int(now_secs),
    )
}

/// The document that keeps a room.
fn make_room_doc(room_name: &str, room_key: &str, prefix: &str, now_secs: i64) -> (d: FireLiteDoc)
    ensures
        d@.wf(),
        d@ == room_doc(room_name@, room_key@, prefix@, now_secs),
{
    let mut d = FireLiteDoc::default();
    let a = Value::String(room_name.to_owned());
    let b = Value::String(hash_room_id(room_name, room_key));
    let c = Value::String(prefix.to_owned());
    proof {
        parts_view(a);
        parts_view(b);
        parts_view(c);
        parts_view(Value::Int(now_secs));
    }
    d.insert("room_name".to_owned(), a);
    d.insert("key_hash".to_owned(), b);
    d.insert("prefix".to_owned(), c);
    d.insert("created_at".to_owned(), Value::Int(now_secs));
    d.insert("last_seen".to_owned(), Value::Int(now_secs));
    d
}

/// A storage name belongs to the room of a prefix, with the name that its clients know.
pub open spec fn belongs(prefix: Seq<char>, storage: Seq<char>) -> bool {
    begins(storage, prefix + "_"@) && storage.len() > prefix.len() + 1
}

/// Which room a collection belongs to, and how its clients know it: the longest prefix wins.
pub open spec fn owner_is(taken: Set<Seq<char>>, storage: Seq<char>, r: Option<(Seq<char>, Seq<char>)>) -> bool {
    match r {
        Some((p, plain)) => {
            &&& taken.contains(p)
            &&& belongs(p, storage)
            &&& plain == storage.skip(p.len() as int + 1)
            &&& forall|q: Seq<char>| #[trigger] taken.contains(q) && belongs(q, storage) ==> q.len() <= p.len()
        },
        None => forall|q: Seq<char>| #[trigger] taken.contains(q) ==> !belongs(q, storage),
    }
}

/// The name under which a collection is kept leads back to its room and to itself, unless
/// it is also a name of a room with a longer prefix.
pub proof fn storage_name_leads_back(
    taken: Set<Seq<char>>,
    prefix: Seq<char>,
    plain: Seq<char>,
    r: Option<(Seq<char>, Seq<char>)>,
)
    requires
        taken.contains(prefix),
        prefix.len() > 0,
        plain.len() > 0,
        owner_is(taken, storage_name(prefix, plain), r),
        forall|q: Seq<char>| #[trigger] taken.contains(q) && q.len() > prefix.len() ==> !belongs(q, storage_name(prefix, plain)),
    ensures
        r == Some((prefix, plain)),
{
    reveal_strlit("_");
    let s = storage_name(prefix, plain);
    assert(s.take((prefix + "_"@).len() as int) =~= prefix + "_"@);
    assert(belongs(prefix, s));
    let (p, x) = r->Some_0;
    assert(p.len() == prefix.len());
    assert(s.take(p.len() as int + 1).take(p.len() as int) =~= s.take(p.len() as int));
    assert((p + "_"@).take(p.len() as int) =~= p);
    assert(s.take(prefix.len() as int) =~= prefix);
    assert(p =~= prefix);
    assert(s.skip(p.len() as int + 1) =~= plain);
}

impl RoomRegistry {
    pub closed spec fn wf(&self) -> bool {
        self.cache.wf() && self.taken.wf()
    }

    /// No rooms are known yet.
    pub fn new() -> (r: RoomRegistry)
        ensures
            r.wf(),
            r@ == (Rooms { prefix_by_id: Map::empty(), prefixes: Set::empty(), loaded: false }),
    {
        let r = RoomRegistry { cache: SortedMap::new(), taken: SortedMap::new(), loaded: false };
        proof {
            assert(r@.prefix_by_id =~= Map::<Seq<char>, Seq<char>>::empty());
            assert(r@.prefixes =~= Set::<Seq<char>>::empty());
        }
        r
    }

    /// Takes note of a room.
    fn remember(&mut self, id: String, prefix: String)
        requires
            old(self).wf(),
        ensures
            final(self).wf(),
            final(self)@ == with_room(old(self)@, id@, prefix@),
    {
        let ghost before = self@;
        let ghost (i, p) = (id@, prefix@);
        let a = self.taken.insert(prefix.clone(), ());
        let b = self.cache.insert(id, prefix);
        proof {
            assert(self@.prefix_by_id =~= before.prefix_by_id.insert(i, p));
            assert(self@.prefixes =~= before.prefixes.insert(p));
        }
    }

    /// Knows the rooms that documents tell of, and no others.
    pub fn load_all(&mut self, rows: &Vec<(String, FireLiteDoc)>)
        ensures
            final(self).wf(),
            final(self)@ == rooms_of(docs_view(rows@)),
    {
        let ghost ds = docs_view(rows@);
        self.cache = SortedMap::new();
        self.taken = SortedMap::new();
        self.loaded = true;
        let mut i: usize = 0;
        proof {
            assert(ds.take(0) =~= Seq::<(Seq<char>, Doc)>::empty());
            assert(self@.prefix_by_id =~= Map::<Seq<char>, Seq<char>>::empty());
            assert(self@.prefixes =~= Set::<Seq<char>>::empty());
        }
        while i < rows.len()
            invariant
                self.wf(),
                ds == docs_view(rows@),
                i <= rows@.len(),
                self@ == rooms_of(ds.take(i as int)),
            decreases rows@.len() - i,
        {
            proof {
                assert(ds.take(i + 1).drop_last() =~= ds.take(i as int));
                assert(ds.take(i + 1).last() == ds[i as int]);
            }
            if let Some(prefix) = get_text(&rows[i].1, "prefix") {
                let blank = same_text(prefix.as_str(), "");
                proof {
                    reveal_strlit("");
                    if prefix@.len() == 0 {
                        assert(prefix@ =~= ""@);
                    }
                }
                if !blank {
                    self.remember(rows[i].0.clone(), prefix);
                }
            }
            i = i + 1;
        }
        proof {
            assert(ds.take(i as int) =~= ds);
        }
    }

    /// Finds the prefix for a new room whose name suggests `base`.
    pub fn new_prefix(&self, base: &str) -> (p: String)
        requires
            self.wf(),
        ensures
            is_new_prefix(self@.prefixes, base@, p@),
    {
        if !self.taken.contains(&base.to_owned()) {
            return base.to_owned();
        }
        let total: usize = self.taken.len();
        proof {
            ascending_dom_len::<String, ()>(self.taken.seq());
        }
        proof {
            some_number_is_free(self@.prefixes, base@, 0);
        }
        let mut n: u64 = 1;
        loop
            invariant
                self.wf(),
                self@.prefixes.contains(base@),
                self@.prefixes.finite(),
                self@.prefixes.len() == total,
                1 <= n <= total,
                forall|m: nat| 1 <= m < n ==> self@.prefixes.contains(#[trigger] numbered(base@, m)),
            decreases total - n,
        {
            let mut candidate = base.to_owned();
            candidate.append("_");
            push_digits(&mut candidate, n, 10);
            proof {
                assert(candidate@ == numbered(base@, n as nat));
            }
            if !self.taken.contains(&candidate) {
                proof {
                    assert(!self@.prefixes.contains(numbered(base@, n as nat)));
                }
                return candidate;
            }
            proof {
                assert(self@.prefixes.contains(numbered(base@, n as nat)));
                some_number_is_free(self@.prefixes, base@, n as nat);
            }
            n = n + 1;
        }
    }

    /// The prefixes that are taken, in order.
    pub fn prefixes(&self) -> (r: Vec<String>)
        requires
            self.wf(),
        ensures
            r@.len() == self@.prefixes.len(),
            forall|p: Seq<char>| #[trigger] self@.prefixes.contains(p) <==> names_view(r@).contains(p),
    {
        let ghost s = self.taken.seq();
        let mut r: Vec<String> = Vec::new();
        let mut i: usize = 0;
        while i < self.taken.len()
            invariant
                s == self.taken.seq(),
                i <= s.len(),
                r@.len() == i,
                forall|k: int| 0 <= k < i ==> (#[trigger] r@[k])@ == s[k].0,
            decreases s.len() - i,
        {
            r.push(self.taken.entry(i).0.clone());
            i = i + 1;
        }
        proof {
            ascending_dom_len::<String, ()>(s);
            assert forall|p: Seq<char>| #[trigger] self@.prefixes.contains(p) <==> names_view(r@).contains(p) by {
                if self@.prefixes.contains(p) {
                    let k = choose|k: int| 0 <= k < s.len() && #[trigger] s[k].0 == p;
                    assert(names_view(r@)[k] == p);
                }
                if names_view(r@).contains(p) {
                    let k = choose|k: int| 0 <= k < r@.len() && names_view(r@)[k] == p;
                    assert(r@[k]@ == s[k].0);
                    ascending_entry::<String, ()>(s, k);
                }
            }
        }
        r
    }

    /// Which room a collection belongs to, and how its clients know it.
    pub fn prefix_of(&self, storage_col: &str) -> (r: Option<(String, String)>)
        requires
            self.wf(),
        ensures
            owner_is(self@.prefixes, storage_col@, match r {
                Some((p, c)) => Some((p@, c@)),
                None => None,
            }),
    {
        let ghost s = self.taken.seq();
        let ghost name = storage_col@;
        let v = chars_of(storage_col);
        let mut best: Option<usize> = None;
        let mut size: usize = 0;
        let mut i: usize = 0;
        proof {
            reveal_strlit("_");
        }
        while i < self.taken.len()
            invariant
                self.wf(),
                "_"@.len() == 1,
                s == self.taken.seq(),
                name == storage_col@,
                v@ == name,
                i <= s.len(),
                match best {
                    Some(b) => {
                        &&& b < i
                        &&& belongs(s[b as int].0, name)
                        &&& size == s[b as int].0.len()
                        &&& forall|k: int| 0 <= k < i && belongs((#[trigger] s[k]).0, name) ==> s[k].0.len() <= size
                    },
                    None => forall|k: int| 0 <= k < i ==> !belongs((#[trigger] s[k]).0, name),
                },
            decreases s.len() - i,
        {
            let p = self.taken.entry(i).0;
            let mut marker = p.clone();
            marker.append("_");
            let n = chars_of(p.as_str()).len();
            let m = chars_of(marker.as_str()).len();
            if text_begins(storage_col, marker.as_str()) && v.len() > m {
                let longer: bool = match best {
                    Some(_) => n > size,
                    None => true,
                };
                if longer {
                    best = Some(i);
                    size = n;
                }
            }
            i = i + 1;
        }
        match best {
            None => {
                proof {
                    assert forall|q: Seq<char>| #[trigger] self@.prefixes.contains(q) implies !belongs(q, name) by {
                        let k = choose|k: int| 0 <= k < s.len() && #[trigger] s[k].0 == q;
                        assert(!belongs(s[k].0, name));
                    }
                }
                None
            },
            Some(b) => {
                let p = self.taken.entry(b).0.clone();
                proof {
                    assert forall|q: Seq<char>| #[trigger] self@.prefixes.contains(q) && belongs(q, name) implies q.len()
                        <= p@.len() by {
                        let k = choose|k: int| 0 <= k < s.len() && #[trigger] s[k].0 == q;
                        assert(belongs(s[k].0, name));
                    }
                    ascending_entry::<String, ()>(s, b as int);
                    assert(v@.subrange(size as int + 1, v@.len() as int) =~= name.skip(size as int + 1));
                }
                let end: usize = v.len();
                let plain = text_of(&v, size + 1, end);
                Some((p, plain))
            },
        }
    }

    /// Knows the rooms that the store keeps.
    pub fn refresh(&mut self, db: &mut Hako, reads: &FileReads)
        requires
            old(db).wf(),
            reads.wf(),
        ensures
            final(db).wf(),
            final(self).wf(),
            rooms_read(*old(db), *final(db), *reads, final(self)@),
    {
        let rows = db.query_all(internal_rooms_collection(), reads);
        let ghost answer = rows;
        match rows {
            Ok(list) => self.load_all(&list),
            Err(_) => {
                let none: Vec<(String, FireLiteDoc)> = Vec::new();
                proof {
                    assert(docs_view(none@) =~= Seq::<(Seq<char>, Doc)>::empty());
                }
                self.load_all(&none);
            },
        }
        proof {
            assert(queried(*old(db), *db, *reads, "__hako_rooms"@, answer));
        }
    }

    /// The id and the prefix of a room. A room that is not known yet gets a prefix, which
    /// the store keeps: what was written comes along.
    pub fn resolve(
        &mut self,
        db: &mut Hako,
        room_name: &str,
        room_key: &str,
        now_secs: i64,
        now_nanos: i64,
        reads: &FileReads,
    ) -> (r: Result<(String, String, Option<Outcome>), HakoError>)
        requires
            old(self).wf(),
            old(db).wf(),
            reads.wf(),
            now_nanos >= 0,
        ensures
            final(self).wf(),
            final(db).wf(),
            resolved(
                old(self)@,
                final(self)@,
                *old(db),
                *final(db),
                *reads,
                room_name@,
                room_key@,
                now_secs,
                now_nanos,
                r,
            ),
            r is Ok ==> final(self)@.prefix_by_id.contains_key(room_id(room_name@, room_key@)),
    {
        let id = hash_room_id(room_name, room_key);
        if !self.loaded {
            self.refresh(db, reads);
        }
        let ghost known = self@;
        let ghost d1 = *db;
        proof {
            assert(rooms_loaded(old(self)@, known, *old(db), d1, *reads));
        }
        if let Some(p) = self.cache.get(&id) {
            let answer = Ok((id, p.clone(), None));
            proof {
                assert(settled_room(known, self@, d1, *db, *reads, room_name@, room_key@, now_secs, now_nanos, answer));
            }
            return answer;
        }
        let row = db.get(internal_rooms_collection(), id.as_str(), reads);
        let ghost seen = row;
        let ghost d2 = *db;
        if let Ok(Some(doc)) = &row {
            if let Some(prefix) = get_text(doc, "prefix") {
                self.remember(id.clone(), prefix.clone());
                let answer = Ok((id, prefix, None));
                proof {
                    assert(got(d1, d2, *reads, "__hako_rooms"@, room_id(room_name@, room_key@), seen));
                    assert(settled_room(known, self@, d1, *db, *reads, room_name@, room_key@, now_secs, now_nanos, answer));
                }
                return answer;
            }
        }
        let base = sanitize_room_name(room_name);
        let prefix = self.new_prefix(base.as_str());
        let doc = make_room_doc(room_name, room_key, prefix.as_str(), now_secs);
        let w = db.put_owned(internal_rooms_collection(), id.as_str(), doc, now_nanos);
        let ghost wrote = w;
        let answer: Result<(String, String, Option<Outcome>), HakoError> = match w {
            Err(e) => Err(e),
            Ok(o) => {
                self.remember(id.clone(), prefix.clone());
                Ok((id, prefix, Some(o)))
            },
        };
        proof {
            assert(got(d1, d2, *reads, "__hako_rooms"@, room_id(room_name@, room_key@), seen));
            assert(is_new_prefix(known.prefixes, sanitized(room_name@), prefix@));
            assert(made_room(known, self@, d2, *db, room_name@, room_key@, prefix@, now_secs, now_nanos, answer)) by {
                assert(written(
                    d2,
                    *db,
                    Map::empty(),
                    now_nanos,
                    seq![
                        Wish::Put {
                            collection: "__hako_rooms"@,
                            id: room_id(room_name@, room_key@),
                            doc: room_doc(room_name@, room_key@, prefix@, now_secs),
                        },
                    ],
                    wrote,
                ));
            }
            assert(settled_room(known, self@, d1, *db, *reads, room_name@, room_key@, now_secs, now_nanos, answer));
        }
        answer
    }
}

/// The documents that a query gave; none where it failed.
pub open spec fn rows_of(r: Result<Vec<(String, FireLiteDoc)>, HakoError>) -> Seq<(Seq<char>, Doc)> {
    match r {
        Ok(rows) => docs_view(rows@),
        Err(_) => Seq::empty(),
    }
}

/// `rooms` are those that the store keeps.
pub open spec fn rooms_read(a: Hako, b: Hako, reads: FileReads, rooms: Rooms) -> bool {
    exists|r: Result<Vec<(String, FireLiteDoc)>, HakoError>| #[trigger]
        queried(a, b, reads, "__hako_rooms"@, r) && rooms == rooms_of(rows_of(r))
}

/// The rooms that are known once they have been read.
pub open spec fn rooms_loaded(r0: Rooms, r1: Rooms, a: Hako, b: Hako, reads: FileReads) -> bool {
    if r0.loaded {
        r1 == r0 && b == a
    } else {
        rooms_read(a, b, reads, r1)
    }
}

/// The prefix of a room as the store keeps it.
pub open spec fn kept_prefix(r: Result<Option<FireLiteDoc>, HakoError>) -> Option<Seq<char>> {
    match r {
        Ok(Some(d)) => text_under(d@, "prefix"@),
        _ => None,
    }
}

/// An answer names a room and its prefix.
pub open spec fn names_room(
    r: Result<(String, String, Option<Outcome>), HakoError>,
    id: Seq<char>,
    prefix: Seq<char>,
) -> bool {
    r matches Ok((i, p, _)) && i@ == id && p@ == prefix
}

/// A room was made with a prefix, which the store keeps; where it could not be kept the
/// room is not known.
pub open spec fn made_room(
    r0: Rooms,
    r1: Rooms,
    a: Hako,
    b: Hako,
    name: Seq<char>,
    key: Seq<char>,
    prefix: Seq<char>,
    now_secs: i64,
    now_nanos: i64,
    r: Result<(String, String, Option<Outcome>), HakoError>,
) -> bool {
    let id = room_id(name, key);
    exists|w: Result<Outcome, HakoError>| #[trigger]
        written(
            a,
            b,
            Map::empty(),
            now_nanos,
            seq![Wish::Put { collection: "__hako_rooms"@, id, doc: room_doc(name, key, prefix, now_secs) }],
            w,
        ) && match w {
            Ok(o) => names_room(r, id, prefix) && r->Ok_0.2 == Some(o) && r1 == with_room(r0, id, prefix),
            Err(e) => r == Err::<(String, String, Option<Outcome>), HakoError>(e) && r1 == r0,
        }
}

/// A room among those that are known, or that the store keeps, or that is made. Its id has 64
/// characters.
pub open spec fn settled_room(
    r0: Rooms,
    r1: Rooms,
    a: Hako,
    b: Hako,
    reads: FileReads,
    name: Seq<char>,
    key: Seq<char>,
    now_secs: i64,
    now_nanos: i64,
    r: Result<(String, String, Option<Outcome>), HakoError>,
) -> bool {
    &&& room_id(name, key).len() == 64
    &&& if r0.prefix_by_id.contains_key(room_id(name, key)) {
        &&& names_room(r, room_id(name, key), r0.prefix_by_id[room_id(name, key)])
        &&& r->Ok_0.2 is None
        &&& r1 == r0
        &&& b == a
    } else {
        exists|m: Hako, row: Result<Option<FireLiteDoc>, HakoError>|
            #![trigger got(a, m, reads, "__hako_rooms"@, room_id(name, key), row)]
            got(a, m, reads, "__hako_rooms"@, room_id(name, key), row) && found_room(
                r0,
                r1,
                m,
                b,
                kept_prefix(row),
                name,
                key,
                now_secs,
                now_nanos,
                r,
            )
    }
}

/// A room that is not known: it has the prefix that the store keeps, and else a new one.
pub open spec fn found_room(
    r0: Rooms,
    r1: Rooms,
    a: Hako,
    b: Hako,
    kept: Option<Seq<char>>,
    name: Seq<char>,
    key: Seq<char>,
    now_secs: i64,
    now_nanos: i64,
    r: Result<(String, String, Option<Outcome>), HakoError>,
) -> bool {
    match kept {
        Some(p) => {
            &&& names_room(r, room_id(name, key), p)
            &&& r->Ok_0.2 is None
            &&& r1 == with_room(r0, room_id(name, key), p)
            &&& b == a
        },
        None => exists|p: Seq<char>|
            #![trigger is_new_prefix(r0.prefixes, sanitized(name), p)]
            is_new_prefix(r0.prefixes, sanitized(name), p) && made_room(
                r0,
                r1,
                a,
                b,
                name,
                key,
                p,
                now_secs,
                now_nanos,
                r,
            ),
    }
}

/// The id and the prefix of a room, once the rooms have been read.
pub open spec fn resolved(
    r0: Rooms,
    r1: Rooms,
    a: Hako,
    b: Hako,
    reads: FileReads,
    name: Seq<char>,
    key: Seq<char>,
    now_secs: i64,
    now_nanos: i64,
    r: Result<(String, String, Option<Outcome>), HakoError>,
) -> bool {
    exists|k: Rooms, m: Hako| #[trigger]
        rooms_loaded(r0, k, a, m, reads) && settled_room(k, r1, m, b, reads, name, key, now_secs, now_nanos, r)
}

/// A room that was resolved has the same prefix the next time, and nothing else happens.
pub proof fn room_stays(
    r1: Rooms,
    r2: Rooms,
    a: Hako,
    b: Hako,
    reads: FileReads,
    name: Seq<char>,
    key: Seq<char>,
    now_secs: i64,
    now_nanos: i64,
    r: Result<(String, String, Option<Outcome>), HakoError>,
)
    requires
        r1.loaded,
        r1.prefix_by_id.contains_key(room_id(name, key)),
        resolved(r1, r2, a, b, reads, name, key, now_secs, now_nanos, r),
    ensures
        names_room(r, room_id(name, key), r1.prefix_by_id[room_id(name, key)]),
        r2 == r1,
        b == a,
{
}

/// What the document that keeps a room holds: the prefix as a text. Its lengths fit.
pub proof fn room_doc_holds(name: Seq<char>, key: Seq<char>, prefix: Seq<char>, now_secs: i64)
    requires
        room_id(name, key).len() == 64,
        encode_utf8(name).len() < pow256(4),
        encode_utf8(prefix).len() < pow256(4),
    ensures
        room_doc(name, key, prefix, now_secs).wf(),
        room_doc(name, key, prefix, now_secs).fits(),
        room_doc(name, key, prefix, now_secs).map().contains_key("prefix"@),
        room_doc(name, key, prefix, now_secs).map()["prefix"@] == Val::String(prefix),
{
    let id = room_id(name, key);
    let d0 = empty_doc();
    let d1 = with_field(d0, "room_name"@, Val::String(name));
    let d2 = with_field(d1, "key_hash"@, Val::String(id));
    let d3 = with_field(d2, "prefix"@, Val::String(prefix));
    let d4 = with_field(d3, "created_at"@, Val::Int(now_secs));
    pow256_values();
    encode_utf8_bound(id);
    reveal_strlit("room_name");
    reveal_strlit("key_hash");
    reveal_strlit("prefix");
    reveal_strlit("created_at");
    reveal_strlit("last_seen");
    encode_utf8_bound("room_name"@);
    encode_utf8_bound("key_hash"@);
    encode_utf8_bound("prefix"@);
    encode_utf8_bound("created_at"@);
    encode_utf8_bound("last_seen"@);
    with_field_holds(d0, "room_name"@, Val::String(name));
    with_field_fits(d0, "room_name"@, Val::String(name));
    with_field_holds(d1, "key_hash"@, Val::String(id));
    with_field_fits(d1, "key_hash"@, Val::String(id));
    with_field_holds(d2, "prefix"@, Val::String(prefix));
    with_field_fits(d2, "prefix"@, Val::String(prefix));
    with_field_holds(d3, "created_at"@, Val::Int(now_secs));
    with_field_fits(d3, "created_at"@, Val::Int(now_secs));
    with_field_holds(d4, "last_seen"@, Val::Int(now_secs));
    with_field_fits(d4, "last_seen"@, Val::Int(now_secs));
    assert("prefix"@.len() != "created_at"@.len());
    assert("prefix"@.len() != "last_seen"@.len());
}

/// A room that a document tells of is known, where no later one has its id.
pub proof fn row_is_known(rows: Seq<(Seq<char>, Doc)>, k: int, p: Seq<char>)
    requires
        0 <= k < rows.len(),
        text_under(rows[k].1, "prefix"@) == Some(p),
        p.len() > 0,
        forall|j: int| k < j < rows.len() ==> (#[trigger] rows[j]).0 != rows[k].0,
    ensures
        rooms_of(rows).prefix_by_id.contains_key(rows[k].0),
        rooms_of(rows).prefix_by_id[rows[k].0] == p,
    decreases rows.len(),
{
    if k < rows.len() - 1 {
        let pre = rows.drop_last();
        assert(pre[k] == rows[k]);
        assert forall|j: int| k < j < pre.len() implies (#[trigger] pre[j]).0 != pre[k].0 by {
            assert(pre[j] == rows[j]);
        }
        row_is_known(pre, k, p);
        assert(rows[rows.len() - 1].0 != rows[k].0);
    }
}

/// A room that was made is known with its prefix to everyone who reads the rooms that the
/// store keeps from then on: a server that starts again gives it the prefix that it had. The
/// prefix is short enough to be kept in the document of the room itself.
pub proof fn room_comes_back(
    r0: Rooms,
    r1: Rooms,
    a: Hako,
    b: Hako,
    name: Seq<char>,
    key: Seq<char>,
    prefix: Seq<char>,
    now_secs: i64,
    now_nanos: i64,
    r: Result<(String, String, Option<Outcome>), HakoError>,
    after: Hako,
    reads: FileReads,
    known: Rooms,
)
    requires
        b.wf(),
        made_room(r0, r1, a, b, name, key, prefix, now_secs, now_nanos, r),
        r is Ok,
        rooms_read(b, after, reads, known),
        permitted(b.security_rules@, "__hako_rooms"@, AccessOp::Query),
        room_id(name, key).len() == 64,
        0 < prefix.len(),
        encode_utf8(prefix).len() <= a.config.value_blob_threshold_bytes,
        encode_utf8(prefix).len() < pow256(4),
        encode_utf8(name).len() < pow256(4),
    ensures
        known.prefix_by_id.contains_key(room_id(name, key)),
        known.prefix_by_id[room_id(name, key)] == prefix,
{
    let c = "__hako_rooms"@;
    let id = room_id(name, key);
    let d = room_doc(name, key, prefix, now_secs);
    let threshold = a.config.value_blob_threshold_bytes as nat;
    let end = shard_end(a.shards@, c);
    let stamped = Doc { fields: d.fields, time: (now_nanos as int / 1000) as i64 };
    let lean = skeleton_doc(stamped, threshold, end);
    let w = choose|w: Result<Outcome, HakoError>| #[trigger]
        written(a, b, Map::empty(), now_nanos, seq![Wish::Put { collection: c, id, doc: d }], w) && match w {
            Ok(o) => names_room(r, id, prefix) && r->Ok_0.2 == Some(o) && r1 == with_room(r0, id, prefix),
            Err(e) => r == Err::<(String, String, Option<Outcome>), HakoError>(e) && r1 == r0,
        };
    assert(w is Ok);
    put_lies(a, b, Map::empty(), now_nanos, c, id, d);
    room_doc_holds(name, key, prefix, now_secs);
    assert(stamped.map() =~= d.map());
    small_value_is_found(stamped, threshold, end, "prefix"@);
    skeleton_fits(stamped, threshold, end);
    document_round_trip(lean);
    let q = choose|q: Result<Vec<(String, FireLiteDoc)>, HakoError>| #[trigger]
        queried(b, after, reads, c, q) && known == rooms_of(rows_of(q));
    let shard = b.shards@[c];
    assert(after.shards@[c] == shard);
    let entries = shard.index.seq();
    let i = choose|i: int| 0 <= i < entries.len() && #[trigger] entries[i].0 == id;
    ascending_entry::<String, Pointer>(entries, i);
    let k = stored_at(entries, reads, i, lean);
    row_is_known(rows_of(q), k, prefix);
}

/// Rooms that were not read yet give a room that the store keeps the prefix that it was made
/// with.
pub proof fn room_is_resolved_again(
    r0: Rooms,
    r1: Rooms,
    a: Hako,
    b: Hako,
    name: Seq<char>,
    key: Seq<char>,
    prefix: Seq<char>,
    now_secs: i64,
    now_nanos: i64,
    r: Result<(String, String, Option<Outcome>), HakoError>,
    fresh: Rooms,
    filled: Rooms,
    after: Hako,
    reads: FileReads,
    later_secs: i64,
    later_nanos: i64,
    x: Result<(String, String, Option<Outcome>), HakoError>,
)
    requires
        b.wf(),
        made_room(r0, r1, a, b, name, key, prefix, now_secs, now_nanos, r),
        r is Ok,
        !fresh.loaded,
        resolved(fresh, filled, b, after, reads, name, key, later_secs, later_nanos, x),
        permitted(b.security_rules@, "__hako_rooms"@, AccessOp::Query),
        0 < prefix.len(),
        encode_utf8(prefix).len() <= a.config.value_blob_threshold_bytes,
        encode_utf8(prefix).len() < pow256(4),
        encode_utf8(name).len() < pow256(4),
    ensures
        names_room(x, room_id(name, key), prefix),
{
    let (k, m) = choose|k: Rooms, m: Hako| #[trigger]
        rooms_loaded(fresh, k, b, m, reads) && settled_room(
            k,
            filled,
            m,
            after,
            reads,
            name,
            key,
            later_secs,
            later_nanos,
            x,
        );
    room_comes_back(r0, r1, a, b, name, key, prefix, now_secs, now_nanos, r, m, reads, k);
}

} // verus!
