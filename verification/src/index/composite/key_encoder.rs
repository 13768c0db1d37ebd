//! The keys of composite indexes: the number of the index, a key for each value, and the
//! id of the document.
use smallvec::SmallVec;
use vstd::prelude::*;
use vstd::utf8::encode_utf8;

use crate::document::compare::val_order;
use crate::document::ordering::floats_stand_in_order;
use crate::document::value::{items_view, Val, Value};
use crate::index::composite::definition::{columns, CompositeIndexDefinition, Definition, SortDirection};
use crate::order::{byte_codes, compare_bytes, lex, lex_common_head, lex_equal, lex_skip, Order};
use crate::sorted_map::Key;
use crate::text::encode_utf8_injective;
use crate::util::fixed::{be_bytes, be_round_trip, i64_bits, pow256, pow256_values, put_be};

verus! {

/// A key: a `smallvec::SmallVec`, which holds the first bytes in place.
#[verifier::external_body]
pub struct KeyBuf {
    items: SmallVec<[u8; 32]>,
}

/// The bytes that a key holds.
pub uninterp spec fn key_bytes(k: KeyBuf) -> Seq<u8>;

/// `smallvec::SmallVec::new`: a vector that holds nothing.
#[verifier::external_body]
pub(crate) fn key_new() -> (k: KeyBuf)
    ensures
        key_bytes(k) == Seq::<u8>::empty(),
{
    KeyBuf { items: SmallVec::new() }
}

/// `smallvec::SmallVec::extend_from_slice`: appends the items of a slice.
#[verifier::external_body]
pub(crate) fn key_extend(k: &mut KeyBuf, bytes: &[u8])
    ensures
        key_bytes(*final(k)) == key_bytes(*old(k)) + bytes@,
{
    k.items.extend_from_slice(bytes);
}

/// `smallvec::SmallVec::as_slice`: the items as a slice.
#[verifier::external_body]
pub(crate) fn key_slice(k: &KeyBuf) -> (s: &[u8])
    ensures
        s@ == key_bytes(*k),
{
    k.items.as_slice()
}

/// A key that holds the given bytes.
pub fn key_of(bytes: &[u8]) -> (k: KeyBuf)
    ensures
        key_bytes(k) == bytes@,
{
    let mut k = key_new();
    key_extend(&mut k, bytes);
    proof {
        assert(Seq::<u8>::empty() + bytes@ =~= bytes@);
    }
    k
}

impl Key for KeyBuf {
    type Model = Seq<u8>;

    open spec fn model(&self) -> Seq<u8> {
        key_bytes(*self)
    }

    open spec fn codes(m: Seq<u8>) -> Seq<int> {
        byte_codes(m)
    }

    proof fn codes_injective(a: Seq<u8>, b: Seq<u8>) {
        <Vec<u8> as Key>::codes_injective(a, b);
    }

    fn compare(&self, other: &Self) -> (o: Order) {
        compare_bytes(key_slice(self), key_slice(other))
    }

    fn copy(&self) -> (r: Self) {
        key_of(key_slice(self))
    }
}

/// The bytes as a direction has them: in descending order each byte is complemented.
pub open spec fn directed(direction: SortDirection, s: Seq<u8>) -> Seq<u8> {
    match direction {
        SortDirection::Asc => s,
        SortDirection::Desc => Seq::new(s.len(), |i: int| (255 - s[i]) as u8),
    }
}

/// The key of a value in a direction. Of values with parts only the type is held.
pub open spec fn value_key(v: Val, direction: SortDirection) -> Seq<u8> {
    match v {
        Val::Null => seq![0u8],
        Val::ServerTimestamp => seq![0u8],
        Val::Bool(b) => seq![
            1u8,
            if b {
                1u8
            } else {
                0u8
            },
        ],
        Val::Int(i) => seq![2u8] + directed(direction, be_bytes((i as u64) as nat, 8)),
        Val::Float(bits) => seq![3u8] + directed(direction, be_bytes(bits as nat, 8)),
        Val::String(s) => seq![4u8] + be_bytes(encode_utf8(s).len(), 4) + directed(direction, encode_utf8(s)),
        Val::Binary(b) => seq![5u8] + be_bytes(b.len(), 4) + directed(direction, b),
        Val::Timestamp(t) => seq![6u8] + directed(direction, be_bytes((t as u64) as nat, 8)),
        Val::Object(_) => seq![8u8],
        Val::Array(_) => seq![9u8],
        Val::Reference { .. } => seq![10u8],
        Val::BlobLink { .. } => seq![11u8],
    }
}

/// The keys of the first `n` values, one behind the other.
pub open spec fn values_key(values: Seq<Val>, columns: Seq<(Seq<char>, SortDirection)>, n: nat) -> Seq<u8>
    decreases n,
{
    if n == 0 {
        Seq::empty()
    } else {
        values_key(values, columns, (n - 1) as nat) + value_key(values[n - 1], columns[n - 1].1)
    }
}

/// How many of the values have a column.
pub open spec fn paired(values: Seq<Val>, columns: Seq<(Seq<char>, SortDirection)>) -> nat {
    if values.len() <= columns.len() {
        values.len()
    } else {
        columns.len()
    }
}

/// The part of a key before the id of the document.
pub open spec fn prefix_bytes(d: Definition, values: Seq<Val>) -> Seq<u8> {
    be_bytes(d.id as nat, 4) + values_key(values, d.columns, paired(values, d.columns))
}

/// The part of a key that holds the id of the document.
pub open spec fn id_bytes(doc_id: Seq<char>) -> Seq<u8> {
    be_bytes(encode_utf8(doc_id).len(), 2) + encode_utf8(doc_id)
}

/// The key of a document.
pub open spec fn composite_key(d: Definition, values: Seq<Val>, doc_id: Seq<char>) -> Seq<u8> {
    prefix_bytes(d, values) + id_bytes(doc_id)
}

/// Numbers written high byte first stand in their own order.
pub proof fn be_order(a: nat, b: nat, n: nat)
    requires
        a < b < pow256(n),
    ensures
        lex(byte_codes(be_bytes(a, n)), byte_codes(be_bytes(b, n))) == Order::Less,
        lex(
            byte_codes(directed(SortDirection::Desc, be_bytes(a, n))),
            byte_codes(directed(SortDirection::Desc, be_bytes(b, n))),
        ) == Order::Greater,
    decreases n,
{
    let x = be_bytes(a, n);
    let y = be_bytes(b, n);
    let d = SortDirection::Desc;
    if n > 0 {
        let k = (n - 1) as nat;
        be_round_trip(a / 256, k);
        be_round_trip(b / 256, k);
        let p = be_bytes(a / 256, k);
        let q = be_bytes(b / 256, k);
        let u = seq![(a % 256) as int];
        let v = seq![(b % 256) as int];
        assert(byte_codes(x) =~= byte_codes(p) + u);
        assert(byte_codes(y) =~= byte_codes(q) + v);
        let du = seq![255 - (a % 256) as int];
        let dv = seq![255 - (b % 256) as int];
        assert(byte_codes(directed(d, x)) =~= byte_codes(directed(d, p)) + du);
        assert(byte_codes(directed(d, y)) =~= byte_codes(directed(d, q)) + dv);
        if a / 256 == b / 256 {
            lex_common_head(byte_codes(p), u, v);
            lex_common_head(byte_codes(directed(d, p)), du, dv);
        } else {
            be_order(a / 256, b / 256, k);
            lex_extend(byte_codes(p), byte_codes(q), u, v);
            lex_extend(byte_codes(directed(d, p)), byte_codes(directed(d, q)), du, dv);
        }
    }
}

/// Sequences of one length that differ compare in the same way whatever follows them.
pub proof fn lex_extend(p: Seq<int>, q: Seq<int>, u: Seq<int>, v: Seq<int>)
    requires
        p.len() == q.len(),
        lex(p, q) != Order::Equal,
    ensures
        lex(p + u, q + v) == lex(p, q),
    decreases p.len(),
{
    if p.len() > 0 {
        assert((p + u).drop_first() =~= p.drop_first() + u);
        assert((q + v).drop_first() =~= q.drop_first() + v);
        if p[0] == q[0] {
            lex_extend(p.drop_first(), q.drop_first(), u, v);
        }
    }
}

/// Integers of one sign stand in the order of their direction, whatever follows their
/// keys.
pub proof fn int_keys_ordered(a: i64, b: i64, direction: SortDirection, u: Seq<u8>, v: Seq<u8>)
    requires
        a < b,
        a >= 0 || b < 0,
    ensures
        lex(
            byte_codes(value_key(Val::Int(a), direction) + u),
            byte_codes(value_key(Val::Int(b), direction) + v),
        ) == (match direction {
            SortDirection::Asc => Order::Less,
            SortDirection::Desc => Order::Greater,
        }),
{
    let x = (a as u64) as nat;
    let y = (b as u64) as nat;
    assert((a as u64) < (b as u64)) by (bit_vector)
        requires
            a < b,
            a >= 0 || b < 0,
    ;
    pow256_values();
    be_order(x, y, 8);
    be_round_trip(x, 8);
    be_round_trip(y, 8);
    let p = byte_codes(directed(direction, be_bytes(x, 8)));
    let q = byte_codes(directed(direction, be_bytes(y, 8)));
    lex_extend(p, q, byte_codes(u), byte_codes(v));
    let t = seq![2int];
    lex_common_head(t, p + byte_codes(u), q + byte_codes(v));
    assert(byte_codes(value_key(Val::Int(a), direction) + u) =~= t + (p + byte_codes(u)));
    assert(byte_codes(value_key(Val::Int(b), direction) + v) =~= t + (q + byte_codes(v)));
}

/// Times of one sign stand in the order of their direction, whatever follows their keys.
pub proof fn time_keys_ordered(a: i64, b: i64, direction: SortDirection, u: Seq<u8>, v: Seq<u8>)
    requires
        a < b,
        a >= 0 || b < 0,
    ensures
        lex(
            byte_codes(value_key(Val::Timestamp(a), direction) + u),
            byte_codes(value_key(Val::Timestamp(b), direction) + v),
        ) == (match direction {
            SortDirection::Asc => Order::Less,
            SortDirection::Desc => Order::Greater,
        }),
{
    int_keys_ordered(a, b, direction, u, v);
    let i = byte_codes(value_key(Val::Int(a), direction) + u);
    let j = byte_codes(value_key(Val::Int(b), direction) + v);
    let p = byte_codes(value_key(Val::Timestamp(a), direction) + u);
    let q = byte_codes(value_key(Val::Timestamp(b), direction) + v);
    lex_common_head(seq![2int], i.skip(1), j.skip(1));
    lex_common_head(seq![6int], i.skip(1), j.skip(1));
    assert(i =~= seq![2int] + i.skip(1));
    assert(j =~= seq![2int] + j.skip(1));
    assert(p =~= seq![6int] + i.skip(1));
    assert(q =~= seq![6int] + j.skip(1));
}

/// How complements of bytes of one length compare is flipped.
proof fn complement_flips(a: Seq<u8>, b: Seq<u8>)
    requires
        a.len() == b.len(),
    ensures
        lex(byte_codes(directed(SortDirection::Desc, a)), byte_codes(directed(SortDirection::Desc, b))) == lex(
            byte_codes(b),
            byte_codes(a),
        ),
    decreases a.len(),
{
    if a.len() > 0 {
        let d = SortDirection::Desc;
        complement_flips(a.drop_first(), b.drop_first());
        assert(byte_codes(directed(d, a)).drop_first() =~= byte_codes(directed(d, a.drop_first())));
        assert(byte_codes(directed(d, b)).drop_first() =~= byte_codes(directed(d, b.drop_first())));
        assert(byte_codes(a).drop_first() =~= byte_codes(a.drop_first()));
        assert(byte_codes(b).drop_first() =~= byte_codes(b.drop_first()));
    }
}

/// Different texts of one length stand in the order of their direction, whatever follows
/// their keys.
pub proof fn text_keys_ordered(a: Seq<char>, b: Seq<char>, direction: SortDirection, u: Seq<u8>, v: Seq<u8>)
    requires
        a != b,
        encode_utf8(a).len() == encode_utf8(b).len(),
    ensures
        lex(
            byte_codes(value_key(Val::String(a), direction) + u),
            byte_codes(value_key(Val::String(b), direction) + v),
        ) == (match direction {
            SortDirection::Asc => lex(byte_codes(encode_utf8(a)), byte_codes(encode_utf8(b))),
            SortDirection::Desc => lex(byte_codes(encode_utf8(b)), byte_codes(encode_utf8(a))),
        }),
{
    let x = encode_utf8(a);
    let y = encode_utf8(b);
    let p = byte_codes(directed(direction, x));
    let q = byte_codes(directed(direction, y));
    let t = byte_codes(seq![4u8] + be_bytes(x.len(), 4));
    if direction is Desc {
        complement_flips(x, y);
    }
    assert(p != q) by {
        if p == q {
            assert forall|i: int| 0 <= i < x.len() implies x[i] == y[i] by {
                assert(p[i] == q[i]);
            }
            assert(x =~= y);
            encode_utf8_injective(a, b);
        }
    }
    lex_equal(p, q);
    lex_extend(p, q, byte_codes(u), byte_codes(v));
    lex_common_head(t, p + byte_codes(u), q + byte_codes(v));
    assert(byte_codes(value_key(Val::String(a), direction) + u) =~= t + (p + byte_codes(u)));
    assert(byte_codes(value_key(Val::String(b), direction) + v) =~= t + (q + byte_codes(v)));
}

/// Whether the length of a value fits the room that its key has for it.
pub open spec fn key_fits(v: Val) -> bool {
    match v {
        Val::String(s) => encode_utf8(s).len() < pow256(4),
        Val::Binary(b) => b.len() < pow256(4),
        _ => true,
    }
}

/// The key of a value tells where it ends.
proof fn value_key_ends(a: Val, b: Val, direction: SortDirection, u: Seq<u8>, v: Seq<u8>)
    requires
        key_fits(a),
        key_fits(b),
        value_key(a, direction) + u == value_key(b, direction) + v,
    ensures
        value_key(a, direction) == value_key(b, direction),
        u == v,
{
    let p = value_key(a, direction);
    let q = value_key(b, direction);
    let s = p + u;
    assert(s[0] == p[0] && s[0] == q[0]);
    match (a, b) {
        (Val::Int(x), Val::Int(y)) => {
            be_round_trip((x as u64) as nat, 8);
            be_round_trip((y as u64) as nat, 8);
        },
        (Val::Float(x), Val::Float(y)) => {
            be_round_trip(x as nat, 8);
            be_round_trip(y as nat, 8);
        },
        (Val::Timestamp(x), Val::Timestamp(y)) => {
            be_round_trip((x as u64) as nat, 8);
            be_round_trip((y as u64) as nat, 8);
        },
        (Val::String(x), Val::String(y)) => {
            let m = encode_utf8(x).len();
            let n = encode_utf8(y).len();
            be_round_trip(m, 4);
            be_round_trip(n, 4);
            assert(s.subrange(1, 5) =~= be_bytes(m, 4));
            assert((q + v).subrange(1, 5) =~= be_bytes(n, 4));
        },
        (Val::Binary(x), Val::Binary(y)) => {
            be_round_trip(x.len(), 4);
            be_round_trip(y.len(), 4);
            assert(s.subrange(1, 5) =~= be_bytes(x.len(), 4));
            assert((q + v).subrange(1, 5) =~= be_bytes(y.len(), 4));
        },
        _ => {},
    }
    assert(p.len() == q.len());
    assert(s.take(p.len() as int) =~= p);
    assert((q + v).take(p.len() as int) =~= q);
    assert(s.skip(p.len() as int) =~= u);
    assert((q + v).skip(p.len() as int) =~= v);
}

/// The keys of values in columns tell where they end.
proof fn values_key_ends(
    a: Seq<Val>,
    b: Seq<Val>,
    columns: Seq<(Seq<char>, SortDirection)>,
    n: nat,
    u: Seq<u8>,
    v: Seq<u8>,
)
    requires
        n <= a.len(),
        n <= b.len(),
        forall|i: int| 0 <= i < n ==> key_fits(#[trigger] a[i]),
        forall|i: int| 0 <= i < n ==> key_fits(#[trigger] b[i]),
        values_key(a, columns, n) + u == values_key(b, columns, n) + v,
    ensures
        forall|i: int|
            0 <= i < n ==> value_key(#[trigger] a[i], columns[i].1) == value_key(b[i], columns[i].1),
        u == v,
    decreases n,
{
    if n > 0 {
        let k = (n - 1) as nat;
        let p = value_key(a[n - 1], columns[n - 1].1);
        let q = value_key(b[n - 1], columns[n - 1].1);
        assert(values_key(a, columns, n) + u =~= values_key(a, columns, k) + (p + u));
        assert(values_key(b, columns, n) + v =~= values_key(b, columns, k) + (q + v));
        values_key_ends(a, b, columns, k, p + u, q + v);
        value_key_ends(a[n - 1], b[n - 1], columns[n - 1].1, u, v);
    } else {
        assert(values_key(a, columns, n) + u =~= u);
        assert(values_key(b, columns, n) + v =~= v);
    }
}

/// Different documents never share an entry of a composite index, and documents with
/// different values stand apart: a key tells the values without parts, the keys of the others,
/// and the id, where the id is shorter than 65536 bytes.
pub proof fn composite_keys_differ(d: Definition, a: Seq<Val>, b: Seq<Val>, x: Seq<char>, y: Seq<char>)
    requires
        a.len() >= d.columns.len(),
        b.len() >= d.columns.len(),
        forall|i: int| 0 <= i < d.columns.len() ==> key_fits(#[trigger] a[i]),
        forall|i: int| 0 <= i < d.columns.len() ==> key_fits(#[trigger] b[i]),
        encode_utf8(x).len() < 0x1_0000,
        encode_utf8(y).len() < 0x1_0000,
        composite_key(d, a, x) == composite_key(d, b, y),
    ensures
        x == y,
        forall|i: int|
            0 <= i < d.columns.len() ==> value_key(#[trigger] a[i], d.columns[i].1) == value_key(b[i], d.columns[i].1),
        forall|i: int|
            0 <= i < d.columns.len() && ((#[trigger] a[i]) is Bool || a[i] is Int || a[i] is Float || a[i] is Timestamp
                || a[i] is String || a[i] is Binary) ==> a[i] == b[i],
{
    let n = d.columns.len();
    let h = be_bytes(d.id as nat, 4);
    let p = values_key(a, d.columns, n) + id_bytes(x);
    let q = values_key(b, d.columns, n) + id_bytes(y);
    be_round_trip(d.id as nat, 4);
    assert(composite_key(d, a, x) =~= h + p);
    assert(composite_key(d, b, y) =~= h + q);
    assert((h + p).skip(4) =~= p);
    assert((h + q).skip(4) =~= q);
    values_key_ends(a, b, d.columns, n, id_bytes(x), id_bytes(y));
    pow256_values();
    be_round_trip(encode_utf8(x).len(), 2);
    be_round_trip(encode_utf8(y).len(), 2);
    assert(id_bytes(x).skip(2) =~= encode_utf8(x));
    assert(id_bytes(y).skip(2) =~= encode_utf8(y));
    encode_utf8_injective(x, y);
    assert forall|i: int|
        0 <= i < d.columns.len() && ((#[trigger] a[i]) is Bool || a[i] is Int || a[i] is Float || a[i] is Timestamp
            || a[i] is String || a[i] is Binary) implies a[i] == b[i] by {
        value_keys_differ(a[i], b[i], d.columns[i].1);
    }
}

/// Bytes in a direction tell the bytes.
proof fn directed_differ(direction: SortDirection, a: Seq<u8>, b: Seq<u8>)
    requires
        directed(direction, a) == directed(direction, b),
    ensures
        a == b,
{
    let (p, q) = (directed(direction, a), directed(direction, b));
    assert(a.len() == p.len() && b.len() == q.len());
    assert forall|i: int| 0 <= i < a.len() implies a[i] == b[i] by {
        assert(p[i] == q[i]);
    }
    assert(a =~= b);
}

/// The key of a value tells the value: values without parts that have the same key in a
/// direction are the same, and so are the types of all others.
pub proof fn value_keys_differ(a: Val, b: Val, direction: SortDirection)
    requires
        key_fits(a),
        key_fits(b),
        value_key(a, direction) == value_key(b, direction),
    ensures
        a is Bool || a is Int || a is Float || a is Timestamp || a is String || a is Binary ==> a == b,
        (a is Null || a is ServerTimestamp) == (b is Null || b is ServerTimestamp),
        a is Object == b is Object,
        a is Array == b is Array,
        a is Reference == b is Reference,
        a is BlobLink == b is BlobLink,
{
    pow256_values();
    let s = value_key(a, direction);
    let t = value_key(b, direction);
    assert(s[0] == t[0]);
    match (a, b) {
        (Val::Int(x), Val::Int(y)) => {
            let (m, n) = ((x as u64) as nat, (y as u64) as nat);
            be_round_trip(m, 8);
            be_round_trip(n, 8);
            i64_bits(x, 0);
            i64_bits(y, 0);
            assert(s.skip(1) =~= directed(direction, be_bytes(m, 8)));
            assert(t.skip(1) =~= directed(direction, be_bytes(n, 8)));
            directed_differ(direction, be_bytes(m, 8), be_bytes(n, 8));
        },
        (Val::Timestamp(x), Val::Timestamp(y)) => {
            let (m, n) = ((x as u64) as nat, (y as u64) as nat);
            be_round_trip(m, 8);
            be_round_trip(n, 8);
            i64_bits(x, 0);
            i64_bits(y, 0);
            assert(s.skip(1) =~= directed(direction, be_bytes(m, 8)));
            assert(t.skip(1) =~= directed(direction, be_bytes(n, 8)));
            directed_differ(direction, be_bytes(m, 8), be_bytes(n, 8));
        },
        (Val::Float(x), Val::Float(y)) => {
            be_round_trip(x as nat, 8);
            be_round_trip(y as nat, 8);
            assert(s.skip(1) =~= directed(direction, be_bytes(x as nat, 8)));
            assert(t.skip(1) =~= directed(direction, be_bytes(y as nat, 8)));
            directed_differ(direction, be_bytes(x as nat, 8), be_bytes(y as nat, 8));
        },
        (Val::Bool(x), Val::Bool(y)) => {
            assert(s[1] == t[1]);
        },
        (Val::String(x), Val::String(y)) => {
            be_round_trip(encode_utf8(x).len(), 4);
            be_round_trip(encode_utf8(y).len(), 4);
            assert(s.skip(5) =~= directed(direction, encode_utf8(x)));
            assert(t.skip(5) =~= directed(direction, encode_utf8(y)));
            directed_differ(direction, encode_utf8(x), encode_utf8(y));
            encode_utf8_injective(x, y);
        },
        (Val::Binary(x), Val::Binary(y)) => {
            be_round_trip(x.len(), 4);
            be_round_trip(y.len(), 4);
            assert(s.skip(5) =~= directed(direction, x));
            assert(t.skip(5) =~= directed(direction, y));
            directed_differ(direction, x, y);
        },
        _ => {},
    }
}

/// Floating-point numbers stand by their bits, in the order of their direction, whatever
/// follows their keys: those that are not negative stand as the numbers do, negative ones behind
/// them and the other way round.
pub proof fn float_keys_ordered(x: u64, y: u64, direction: SortDirection, u: Seq<u8>, v: Seq<u8>)
    requires
        x < y,
    ensures
        lex(
            byte_codes(value_key(Val::Float(x), direction) + u),
            byte_codes(value_key(Val::Float(y), direction) + v),
        ) == (match direction {
            SortDirection::Asc => Order::Less,
            SortDirection::Desc => Order::Greater,
        }),
        y < 0x8000_0000_0000_0000 ==> val_order(Val::Float(x), Val::Float(y)) == Order::Less,
        x >= 0x8000_0000_0000_0000 ==> val_order(Val::Float(x), Val::Float(y)) == Order::Greater,
{
    pow256_values();
    be_order(x as nat, y as nat, 8);
    be_round_trip(x as nat, 8);
    be_round_trip(y as nat, 8);
    let p = byte_codes(directed(direction, be_bytes(x as nat, 8)));
    let q = byte_codes(directed(direction, be_bytes(y as nat, 8)));
    lex_extend(p, q, byte_codes(u), byte_codes(v));
    let t = seq![3int];
    lex_common_head(t, p + byte_codes(u), q + byte_codes(v));
    assert(byte_codes(value_key(Val::Float(x), direction) + u) =~= t + (p + byte_codes(u)));
    assert(byte_codes(value_key(Val::Float(y), direction) + v) =~= t + (q + byte_codes(v)));
    floats_stand_in_order(x, y);
}

/// False stands before true in either direction, whatever follows their keys.
pub proof fn boolean_keys_ordered(direction: SortDirection, u: Seq<u8>, v: Seq<u8>)
    ensures
        lex(
            byte_codes(value_key(Val::Bool(false), direction) + u),
            byte_codes(value_key(Val::Bool(true), direction) + v),
        ) == Order::Less,
{
    let p = byte_codes(value_key(Val::Bool(false), direction) + u);
    let q = byte_codes(value_key(Val::Bool(true), direction) + v);
    lex_skip(p, q, 1);
    assert(p.skip(1)[0] == 0);
    assert(q.skip(1)[0] == 1);
}

/// Different bytes of one length stand in the order of their direction, and of texts and bytes
/// the shorter stand first in either direction, whatever follows their keys.
pub proof fn byte_keys_ordered(a: Seq<u8>, b: Seq<u8>, direction: SortDirection, u: Seq<u8>, v: Seq<u8>)
    requires
        a != b,
        a.len() <= b.len() < pow256(4),
    ensures
        lex(
            byte_codes(value_key(Val::Binary(a), direction) + u),
            byte_codes(value_key(Val::Binary(b), direction) + v),
        ) == (if a.len() < b.len() {
            Order::Less
        } else {
            match direction {
                SortDirection::Asc => lex(byte_codes(a), byte_codes(b)),
                SortDirection::Desc => lex(byte_codes(b), byte_codes(a)),
            }
        }),
        forall|x: Seq<char>, y: Seq<char>|
            #![trigger value_key(Val::String(x), direction), value_key(Val::String(y), direction)]
            encode_utf8(x).len() < encode_utf8(y).len() < pow256(4) ==> lex(
                byte_codes(value_key(Val::String(x), direction) + u),
                byte_codes(value_key(Val::String(y), direction) + v),
            ) == Order::Less,
{
    sized_keys_ordered(5, a, b, direction, u, v);
    assert forall|x: Seq<char>, y: Seq<char>|
        #![trigger value_key(Val::String(x), direction), value_key(Val::String(y), direction)]
        encode_utf8(x).len() < encode_utf8(y).len() < pow256(4) implies lex(
        byte_codes(value_key(Val::String(x), direction) + u),
        byte_codes(value_key(Val::String(y), direction) + v),
    ) == Order::Less by {
        sized_keys_ordered(4, encode_utf8(x), encode_utf8(y), direction, u, v);
    }
}

/// Keys of a tag, a length and bytes.
proof fn sized_keys_ordered(tag: u8, a: Seq<u8>, b: Seq<u8>, direction: SortDirection, u: Seq<u8>, v: Seq<u8>)
    requires
        a != b,
        a.len() <= b.len() < pow256(4),
    ensures
        ({
            let x = seq![tag] + be_bytes(a.len(), 4) + directed(direction, a) + u;
            let y = seq![tag] + be_bytes(b.len(), 4) + directed(direction, b) + v;
            lex(byte_codes(x), byte_codes(y)) == (if a.len() < b.len() {
                Order::Less
            } else {
                match direction {
                    SortDirection::Asc => lex(byte_codes(a), byte_codes(b)),
                    SortDirection::Desc => lex(byte_codes(b), byte_codes(a)),
                }
            })
        }),
{
    let x = seq![tag] + be_bytes(a.len(), 4) + directed(direction, a) + u;
    let y = seq![tag] + be_bytes(b.len(), 4) + directed(direction, b) + v;
    let t = seq![tag as int];
    let (m, n) = (byte_codes(be_bytes(a.len(), 4)), byte_codes(be_bytes(b.len(), 4)));
    let (p, q) = (byte_codes(directed(direction, a)), byte_codes(directed(direction, b)));
    let (f, g) = (byte_codes(u), byte_codes(v));
    be_round_trip(a.len(), 4);
    be_round_trip(b.len(), 4);
    assert(byte_codes(x) =~= t + (m + (p + f)));
    assert(byte_codes(y) =~= t + (n + (q + g)));
    lex_common_head(t, m + (p + f), n + (q + g));
    if a.len() < b.len() {
        be_order(a.len(), b.len(), 4);
        lex_extend(m, n, p + f, q + g);
    } else {
        lex_common_head(m, p + f, q + g);
        if direction is Desc {
            complement_flips(a, b);
        }
        if p == q {
            assert(directed(direction, a) =~= directed(direction, b)) by {
                assert forall|i: int| 0 <= i < a.len() implies directed(direction, a)[i] == directed(direction, b)[i] by {
                    assert(p[i] == q[i]);
                }
            }
            directed_differ(direction, a, b);
        }
        lex_equal(p, q);
        lex_extend(p, q, f, g);
    }
}

/// Values of different types stand in the order of the types in either direction, whatever
/// follows their keys: nothing, truth values, integers, floating-point numbers, texts, bytes,
/// times, objects, lists, references and links.
pub proof fn types_of_keys_ordered(a: Val, b: Val, direction: SortDirection, u: Seq<u8>, v: Seq<u8>)
    requires
        ({
            ||| (a is Null || a is ServerTimestamp) && !(b is Null || b is ServerTimestamp)
            ||| a is Bool && (b is Int || b is Float || b is String || b is Binary || b is Timestamp || b is Object
                || b is Array || b is Reference || b is BlobLink)
            ||| a is Int && (b is Float || b is String || b is Binary || b is Timestamp || b is Object || b is Array
                || b is Reference || b is BlobLink)
            ||| a is Float && (b is String || b is Binary || b is Timestamp || b is Object || b is Array
                || b is Reference || b is BlobLink)
            ||| a is String && (b is Binary || b is Timestamp || b is Object || b is Array || b is Reference
                || b is BlobLink)
            ||| a is Binary && (b is Timestamp || b is Object || b is Array || b is Reference || b is BlobLink)
            ||| a is Timestamp && (b is Object || b is Array || b is Reference || b is BlobLink)
            ||| a is Object && (b is Array || b is Reference || b is BlobLink)
            ||| a is Array && (b is Reference || b is BlobLink)
            ||| a is Reference && b is BlobLink
        }),
    ensures
        lex(byte_codes(value_key(a, direction) + u), byte_codes(value_key(b, direction) + v)) == Order::Less,
{
    let (p, q) = (value_key(a, direction) + u, value_key(b, direction) + v);
    assert(p[0] < q[0]);
    assert(byte_codes(p)[0] == p[0] && byte_codes(q)[0] == q[0]);
}

/// Sequences neither of which begins with the other compare in the same way whatever follows
/// them.
proof fn lex_decided(p: Seq<int>, q: Seq<int>, u: Seq<int>, v: Seq<int>, k: int)
    requires
        0 <= k < p.len(),
        k < q.len(),
        forall|i: int| 0 <= i < k ==> p[i] == q[i],
        p[k] != q[k],
    ensures
        lex(p + u, q + v) == lex(p, q),
        lex(p, q) != Order::Equal,
{
    lex_skip(p, q, k);
    assert forall|i: int| 0 <= i < k implies (p + u)[i] == (q + v)[i] by {}
    lex_skip(p + u, q + v, k);
    assert(p.skip(k)[0] == p[k] && q.skip(k)[0] == q[k]);
    assert((p + u).skip(k)[0] == p[k] && (q + v).skip(k)[0] == q[k]);
}

/// Where keys of values differ there is a first place where they do.
proof fn first_difference(a: Seq<u8>, b: Seq<u8>, n: int) -> (k: int)
    requires
        0 <= n <= a.len(),
        n <= b.len(),
        a.take(n) != b.take(n),
    ensures
        0 <= k < n,
        a[k] != b[k],
        forall|i: int| 0 <= i < k ==> a[i] == b[i],
    decreases n,
{
    if n == 0 {
        assert(a.take(0) =~= b.take(0));
    }
    if a.take(n - 1) == b.take(n - 1) {
        assert forall|i: int| 0 <= i < n - 1 implies a[i] == b[i] by {
            assert(a.take(n - 1)[i] == b.take(n - 1)[i]);
        }
        if a[n - 1] == b[n - 1] {
            assert(a.take(n) =~= b.take(n));
        }
        n - 1
    } else {
        first_difference(a, b, n - 1)
    }
}

/// Keys of values that differ compare in the same way whatever follows them.
pub proof fn value_keys_decide(a: Val, b: Val, direction: SortDirection, u: Seq<u8>, v: Seq<u8>)
    requires
        key_fits(a),
        key_fits(b),
        value_key(a, direction) != value_key(b, direction),
    ensures
        lex(byte_codes(value_key(a, direction) + u), byte_codes(value_key(b, direction) + v)) == lex(
            byte_codes(value_key(a, direction)),
            byte_codes(value_key(b, direction)),
        ),
        lex(byte_codes(value_key(a, direction)), byte_codes(value_key(b, direction))) != Order::Equal,
{
    let (p, q) = (value_key(a, direction), value_key(b, direction));
    let n = if p.len() <= q.len() {
        p.len()
    } else {
        q.len()
    } as int;
    if p.take(n) == q.take(n) {
        let (x, y) = (p.skip(n), q.skip(n));
        assert(p =~= p.take(n) + x);
        assert(q =~= q.take(n) + y);
        if n == p.len() {
            assert(p + y =~= q + Seq::<u8>::empty());
            value_key_ends(a, b, direction, y, Seq::empty());
        } else {
            assert(p + Seq::<u8>::empty() =~= q + x);
            value_key_ends(a, b, direction, Seq::empty(), x);
        }
    }
    let k = first_difference(p, q, n);
    let (s, t) = (byte_codes(p), byte_codes(q));
    assert(s[k] != t[k]);
    assert forall|i: int| 0 <= i < k implies s[i] == t[i] by {
        assert(p[i] == q[i]);
    }
    lex_decided(s, t, byte_codes(u), byte_codes(v), k);
    assert(byte_codes(p + u) =~= s + byte_codes(u));
    assert(byte_codes(q + v) =~= t + byte_codes(v));
}

/// The keys of the first columns, and what is behind them.
proof fn values_key_splits(a: Seq<Val>, columns: Seq<(Seq<char>, SortDirection)>, k: nat, n: nat) -> (rest: Seq<u8>)
    requires
        k <= n,
    ensures
        values_key(a, columns, n) == values_key(a, columns, k) + rest,
        k < n ==> exists|tail: Seq<u8>| rest == #[trigger] (value_key(a[k as int], columns[k as int].1) + tail),
        k == n ==> rest == Seq::<u8>::empty(),
    decreases n - k,
{
    if k == n {
        assert(values_key(a, columns, n) =~= values_key(a, columns, k) + Seq::<u8>::empty());
        Seq::empty()
    } else {
        let behind = values_key_splits(a, columns, k + 1, n);
        let own = value_key(a[k as int], columns[k as int].1);
        assert(values_key(a, columns, k + 1) == values_key(a, columns, k) + own);
        assert(values_key(a, columns, n) =~= values_key(a, columns, k) + (own + behind));
        own + behind
    }
}

proof fn same_values_key(a: Seq<Val>, b: Seq<Val>, columns: Seq<(Seq<char>, SortDirection)>, k: nat)
    requires
        forall|i: int| 0 <= i < k ==> value_key(#[trigger] a[i], columns[i].1) == value_key(b[i], columns[i].1),
    ensures
        values_key(a, columns, k) == values_key(b, columns, k),
    decreases k,
{
    if k > 0 {
        same_values_key(a, b, columns, (k - 1) as nat);
        assert(value_key(a[k - 1], columns[k - 1].1) == value_key(b[k - 1], columns[k - 1].1));
    }
}

/// Documents stand in an index in the order of the first column in which their keys differ.
pub proof fn first_column_decides(d: Definition, a: Seq<Val>, b: Seq<Val>, x: Seq<char>, y: Seq<char>, k: int)
    requires
        a.len() >= d.columns.len(),
        b.len() >= d.columns.len(),
        0 <= k < d.columns.len(),
        forall|i: int| 0 <= i < k ==> value_key(#[trigger] a[i], d.columns[i].1) == value_key(b[i], d.columns[i].1),
        value_key(a[k], d.columns[k].1) != value_key(b[k], d.columns[k].1),
        key_fits(a[k]),
        key_fits(b[k]),
    ensures
        lex(byte_codes(composite_key(d, a, x)), byte_codes(composite_key(d, b, y))) == lex(
            byte_codes(value_key(a[k], d.columns[k].1)),
            byte_codes(value_key(b[k], d.columns[k].1)),
        ),
        lex(byte_codes(composite_key(d, a, x)), byte_codes(composite_key(d, b, y))) != Order::Equal,
{
    let n = d.columns.len();
    let h = be_bytes(d.id as nat, 4);
    let dir = d.columns[k].1;
    same_values_key(a, b, d.columns, k as nat);
    let ra = values_key_splits(a, d.columns, k as nat, n);
    let rb = values_key_splits(b, d.columns, k as nat, n);
    let ta = choose|t: Seq<u8>| ra == #[trigger] (value_key(a[k], dir) + t);
    let tb = choose|t: Seq<u8>| rb == #[trigger] (value_key(b[k], dir) + t);
    let head = h + values_key(a, d.columns, k as nat);
    let (u, v) = (ta + id_bytes(x), tb + id_bytes(y));
    let (p, q) = (value_key(a[k], dir) + u, value_key(b[k], dir) + v);
    assert(composite_key(d, a, x) =~= head + p);
    assert(composite_key(d, b, y) =~= head + q);
    assert(byte_codes(head + p) =~= byte_codes(head) + byte_codes(p));
    assert(byte_codes(head + q) =~= byte_codes(head) + byte_codes(q));
    lex_common_head(byte_codes(head), byte_codes(p), byte_codes(q));
    value_keys_decide(a[k], b[k], dir, u, v);
}

/// The key of a document begins with the keys of given values exactly when the keys of its own
/// first values are those.
pub proof fn prefix_is_of_values(d: Definition, vs: Seq<Val>, w: Seq<Val>, id: Seq<char>)
    requires
        vs.len() == d.columns.len(),
        w.len() <= d.columns.len(),
        forall|i: int| 0 <= i < w.len() ==> key_fits(#[trigger] w[i]),
        forall|i: int| 0 <= i < w.len() ==> key_fits(#[trigger] vs[i]),
    ensures
        prefix_bytes(d, w).is_prefix_of(composite_key(d, vs, id)) <==> forall|i: int|
            0 <= i < w.len() ==> value_key(#[trigger] w[i], d.columns[i].1) == value_key(vs[i], d.columns[i].1),
{
    let n = w.len();
    let h = be_bytes(d.id as nat, 4);
    let rest = values_key_splits(vs, d.columns, n, d.columns.len());
    let p = prefix_bytes(d, w);
    let k = composite_key(d, vs, id);
    let behind = rest + id_bytes(id);
    assert(k =~= h + (values_key(vs, d.columns, n) + behind));
    assert(p =~= h + values_key(w, d.columns, n));
    if p.is_prefix_of(k) {
        let u = k.skip(p.len() as int);
        assert(k =~= p + u) by {
            assert(k.subrange(0, p.len() as int) =~= p);
        }
        assert((h + (values_key(w, d.columns, n) + u)) =~= k);
        assert((h + (values_key(w, d.columns, n) + u)).skip(h.len() as int) =~= values_key(w, d.columns, n) + u);
        assert((h + (values_key(vs, d.columns, n) + behind)).skip(h.len() as int) =~= values_key(vs, d.columns, n)
            + behind);
        values_key_ends(w, vs, d.columns, n, u, behind);
    }
    if forall|i: int| 0 <= i < w.len() ==> value_key(#[trigger] w[i], d.columns[i].1) == value_key(vs[i], d.columns[i].1) {
        same_values_key(w, vs, d.columns, n);
        assert(k.subrange(0, p.len() as int) =~= p);
    }
}

/// Appends the key of a value in a direction.
pub fn encode_value(value: &Value, direction: SortDirection, out: &mut KeyBuf)
    ensures
        key_bytes(*final(out)) == key_bytes(*old(out)) + value_key(value@, direction),
{
    let mut buf: Vec<u8> = Vec::new();
    match value {
        Value::Null => buf.push(0),
        Value::ServerTimestamp => buf.push(0),
        Value::Bool(b) => {
            buf.push(1);
            buf.push(
                if *b {
                    1
                } else {
                    0
                },
            );
        },
        Value::Int(i) => {
            buf.push(2);
            let mut bytes: Vec<u8> = Vec::new();
            put_be(&mut bytes, *i as u64, 8);
            put_directed(&mut buf, direction, bytes.as_slice());
        },
        Value::Float(bits) => {
            buf.push(3);
            let mut bytes: Vec<u8> = Vec::new();
            put_be(&mut bytes, *bits, 8);
            put_directed(&mut buf, direction, bytes.as_slice());
        },
        Value::String(s) => {
            let bytes = s.as_str().as_bytes();
            buf.push(4);
            put_be(&mut buf, bytes.len() as u64, 4);
            put_directed(&mut buf, direction, bytes);
        },
        Value::Binary(b) => {
            buf.push(5);
            put_be(&mut buf, b.len() as u64, 4);
            put_directed(&mut buf, direction, b.as_slice());
        },
        Value::Timestamp(t) => {
            buf.push(6);
            let mut bytes: Vec<u8> = Vec::new();
            put_be(&mut bytes, *t as u64, 8);
            put_directed(&mut buf, direction, bytes.as_slice());
        },
        Value::Object(_) => buf.push(8),
        Value::Array(_) => buf.push(9),
        Value::Reference { .. } => buf.push(10),
        Value::BlobLink { .. } => buf.push(11),
    }
    proof {
        assert(buf@ =~= value_key(value@, direction));
    }
    key_extend(out, buf.as_slice());
}

/// Appends bytes as a direction has them.
fn put_directed(out: &mut Vec<u8>, direction: SortDirection, bytes: &[u8])
    ensures
        final(out)@ == old(out)@ + directed(direction, bytes@),
{
    match direction {
        SortDirection::Asc => {
            out.extend_from_slice(bytes);
            proof {
                assert(out@ =~= old(out)@ + bytes@);
            }
        },
        SortDirection::Desc => {
            let ghost d = directed(direction, bytes@);
            let mut i: usize = 0;
            while i < bytes.len()
                invariant
                    i <= bytes@.len(),
                    d == directed(SortDirection::Desc, bytes@),
                    out@ == old(out)@ + d.take(i as int),
                decreases bytes@.len() - i,
            {
                out.push(255 - bytes[i]);
                proof {
                    assert(out@ =~= old(out)@ + d.take(i + 1));
                }
                i = i + 1;
            }
            proof {
                assert(d.take(d.len() as int) =~= d);
            }
        },
    }
}

/// The part of a key before the id of the document.
pub fn encode_prefix(def: &CompositeIndexDefinition, values: &Vec<Value>) -> (out: KeyBuf)
    ensures
        key_bytes(out) == prefix_bytes(def@, items_view(values@)),
{
    let mut head: Vec<u8> = Vec::new();
    put_be(&mut head, def.id as u64, 4);
    let mut out = key_of(head.as_slice());
    let ghost vs = items_view(values@);
    let ghost cs = columns(def.fields@);
    let ghost start = be_bytes(def.id as nat, 4);
    let mut i: usize = 0;
    proof {
        assert(head@ =~= start);
        assert(start + values_key(vs, cs, 0) =~= start);
    }
    while i < values.len() && i < def.fields.len()
        invariant
            i <= values@.len(),
            i <= def.fields@.len(),
            vs == items_view(values@),
            cs == columns(def.fields@),
            key_bytes(out) == start + values_key(vs, cs, i as nat),
        decreases values@.len() - i,
    {
        encode_value(&values[i], def.fields[i].direction, &mut out);
        proof {
            assert(key_bytes(out) =~= start + values_key(vs, cs, i as nat + 1));
        }
        i = i + 1;
    }
    out
}

/// The key of a document.
pub fn encode_composite_key(def: &CompositeIndexDefinition, values: &Vec<Value>, doc_id: &str) -> (out: KeyBuf)
    ensures
        key_bytes(out) == composite_key(def@, items_view(values@), doc_id@),
{
    let mut out = encode_prefix(def, values);
    let bytes = doc_id.as_bytes();
    let mut tail: Vec<u8> = Vec::new();
    put_be(&mut tail, bytes.len() as u64, 2);
    tail.extend_from_slice(bytes);
    proof {
        assert(tail@ =~= id_bytes(doc_id@));
    }
    key_extend(&mut out, tail.as_slice());
    out
}

} // verus!
