//! How values stand to each other: what their order means for each type, and between types.
use vstd::prelude::*;

use crate::document::compare::{fields_order, items_order, val_eq, val_order, val_order_flips};
use crate::document::number::{bits_of_int, greater_is_not_below, integers_keep_their_order, nearest_number};
use crate::document::value::Val;
use crate::order::{byte_codes, char_codes, lex_equal, lex_flip, lex_skip, lex_trans, Order};
use crate::sorted_map::Key;

verus! {

/// Floating-point numbers stand in the order of the numbers: of two that are not negative the
/// one with the greater bits is greater, of two negative ones the one with the smaller bits,
/// and a negative one is below every other. Only the same bits are equal.
pub proof fn floats_stand_in_order(x: u64, y: u64)
    ensures
        x < 0x8000_0000_0000_0000 && y < 0x8000_0000_0000_0000 ==> (val_order(Val::Float(x), Val::Float(y))
            == Order::Less <==> x < y),
        x >= 0x8000_0000_0000_0000 && y >= 0x8000_0000_0000_0000 ==> (val_order(Val::Float(x), Val::Float(y))
            == Order::Less <==> x > y),
        x >= 0x8000_0000_0000_0000 && y < 0x8000_0000_0000_0000 ==> val_order(Val::Float(x), Val::Float(y))
            == Order::Less,
        val_order(Val::Float(x), Val::Float(y)) == Order::Equal <==> x == y,
{
}

/// Integers stand in their own order, and so do times.
pub proof fn integers_stand_in_order(i: i64, j: i64)
    ensures
        val_order(Val::Int(i), Val::Int(j)) == Order::Less <==> i < j,
        val_order(Val::Int(i), Val::Int(j)) == Order::Equal <==> i == j,
        val_order(Val::Timestamp(i), Val::Timestamp(j)) == Order::Less <==> i < j,
        val_order(Val::Timestamp(i), Val::Timestamp(j)) == Order::Equal <==> i == j,
{
}

/// False is below true.
pub proof fn booleans_stand_in_order(a: bool, b: bool)
    ensures
        val_order(Val::Bool(a), Val::Bool(b)) == Order::Less <==> !a && b,
        val_order(Val::Bool(a), Val::Bool(b)) == Order::Equal <==> a == b,
{
}

/// An integer stands to a floating-point number as the number that it becomes, on either side.
/// Those below a number are below those above it; an integer of up to 53 digits equals just
/// the number that it is, and stands to any other such integer as their numbers do.
pub proof fn integers_stand_among_floats(i: i64, j: i64, y: u64)
    ensures
        val_order(Val::Int(i), Val::Float(y)) == val_order(Val::Float(bits_of_int(i as int) as u64), Val::Float(y)),
        val_order(Val::Float(y), Val::Int(i)) == val_order(Val::Float(y), Val::Float(bits_of_int(i as int) as u64)),
        val_order(Val::Int(i), Val::Float(y)) == Order::Less && val_order(Val::Float(y), Val::Int(j)) != Order::Greater
            ==> i < j,
        val_order(Val::Int(i), Val::Float(y)) != Order::Greater && val_order(Val::Float(y), Val::Int(j)) == Order::Less
            ==> i < j,
        i < j ==> val_order(Val::Float(bits_of_int(i as int) as u64), Val::Float(bits_of_int(j as int) as u64))
            != Order::Greater,
        i < j && -0x20_0000_0000_0000 <= i && j <= 0x20_0000_0000_0000 ==> val_order(
            Val::Float(bits_of_int(i as int) as u64),
            Val::Float(bits_of_int(j as int) as u64),
        ) == Order::Less,
        i < 0 && y < 0x8000_0000_0000_0000 ==> val_order(Val::Int(i), Val::Float(y)) == Order::Less,
        i >= 0 && y >= 0x8000_0000_0000_0000 ==> val_order(Val::Float(y), Val::Int(i)) == Order::Less,
{
    integers_keep_their_order(i, i);
    integers_keep_their_order(j, j);
    if i >= 0 {
        greater_is_not_below(i as nat, i as nat);
    } else {
        greater_is_not_below(-i as nat, -i as nat);
    }
    if i <= j {
        integers_keep_their_order(i, j);
    } else {
        integers_keep_their_order(j, i);
    }
    if i < j && -0x20_0000_0000_0000 <= i && j <= 0x20_0000_0000_0000 {
        small_integers_differ(i as int, j as int);
    }
}

/// Different integers of up to 53 digits become different numbers.
proof fn small_integers_differ(i: int, j: int)
    requires
        i != j,
        -0x20_0000_0000_0000 <= i <= 0x20_0000_0000_0000,
        -0x20_0000_0000_0000 <= j <= 0x20_0000_0000_0000,
    ensures
        bits_of_int(i) != bits_of_int(j),
{
    let m = if i < 0 {
        -i
    } else {
        i
    } as nat;
    let n = if j < 0 {
        -j
    } else {
        j
    } as nat;
    greater_is_not_below(m, m);
    greater_is_not_below(n, n);
    if m > 0 {
        nearest_number(m);
    }
    if n > 0 {
        nearest_number(n);
    }
}

/// Values of different types stand in the order of the types: nothing, truth values, numbers,
/// times, texts, bytes, references, lists, objects, and the time that is still to come.
pub proof fn types_stand_in_order(a: Val, b: Val)
    ensures
        a is Null && !(b is Null) ==> val_order(a, b) == Order::Less,
        a is Bool && !(b is Null || b is Bool) ==> val_order(a, b) == Order::Less,
        (a is Int || a is Float) && !(b is Null || b is Bool || b is Int || b is Float) ==> val_order(a, b)
            == Order::Less,
        a is Timestamp && (b is String || b is Binary || b is BlobLink || b is Reference || b is Array || b is Object
            || b is ServerTimestamp) ==> val_order(a, b) == Order::Less,
        a is String && (b is Binary || b is BlobLink || b is Reference || b is Array || b is Object
            || b is ServerTimestamp) ==> val_order(a, b) == Order::Less,
        (a is Binary || a is BlobLink) && (b is Reference || b is Array || b is Object || b is ServerTimestamp)
            ==> val_order(a, b) == Order::Less,
        a is Reference && (b is Array || b is Object || b is ServerTimestamp) ==> val_order(a, b) == Order::Less,
        a is Array && (b is Object || b is ServerTimestamp) ==> val_order(a, b) == Order::Less,
        a is Object && b is ServerTimestamp ==> val_order(a, b) == Order::Less,
        a is BlobLink && (b is Binary || b is BlobLink) ==> val_order(a, b) == Order::Equal,
{
}

/// Texts stand in the order of their first characters that differ; where there are none the
/// shorter one comes first. So do bytes.
pub proof fn texts_stand_in_order(a: Seq<char>, b: Seq<char>, k: int)
    requires
        0 <= k <= a.len(),
        k <= b.len(),
        forall|i: int| 0 <= i < k ==> a[i] == b[i],
    ensures
        k < a.len() && k < b.len() && a[k] < b[k] ==> val_order(Val::String(a), Val::String(b)) == Order::Less,
        k < a.len() && k < b.len() && a[k] > b[k] ==> val_order(Val::String(a), Val::String(b)) == Order::Greater,
        k == a.len() && k < b.len() ==> val_order(Val::String(a), Val::String(b)) == Order::Less,
        k < a.len() && k == b.len() ==> val_order(Val::String(a), Val::String(b)) == Order::Greater,
        val_order(Val::String(a), Val::String(b)) == Order::Equal <==> a == b,
{
    let (x, y) = (char_codes(a), char_codes(b));
    lex_skip(x, y, k);
    lex_equal(x, y);
    same_codes(a, b);
    if k < a.len() {
        assert(x.skip(k)[0] == a[k] as int);
    }
    if k < b.len() {
        assert(y.skip(k)[0] == b[k] as int);
    }
}

/// Only a text itself has its codes.
proof fn same_codes(a: Seq<char>, b: Seq<char>)
    ensures
        char_codes(a) == char_codes(b) <==> a == b,
{
    if char_codes(a) == char_codes(b) {
        <String as Key>::codes_injective(a, b);
    }
}

/// Bytes stand in the order of the first that differ; where there are none the shorter run
/// comes first.
pub proof fn bytes_stand_in_order(a: Seq<u8>, b: Seq<u8>, k: int)
    requires
        0 <= k <= a.len(),
        k <= b.len(),
        forall|i: int| 0 <= i < k ==> a[i] == b[i],
    ensures
        k < a.len() && k < b.len() && a[k] < b[k] ==> val_order(Val::Binary(a), Val::Binary(b)) == Order::Less,
        k < a.len() && k < b.len() && a[k] > b[k] ==> val_order(Val::Binary(a), Val::Binary(b)) == Order::Greater,
        k == a.len() && k < b.len() ==> val_order(Val::Binary(a), Val::Binary(b)) == Order::Less,
        k < a.len() && k == b.len() ==> val_order(Val::Binary(a), Val::Binary(b)) == Order::Greater,
        val_order(Val::Binary(a), Val::Binary(b)) == Order::Equal <==> a == b,
{
    let (x, y) = (byte_codes(a), byte_codes(b));
    lex_skip(x, y, k);
    lex_equal(x, y);
    if x == y {
        assert forall|i: int| 0 <= i < a.len() implies a[i] == b[i] by {
            assert(x[i] == y[i]);
        }
        assert(a =~= b);
    }
    if k < a.len() {
        assert(x.skip(k)[0] == a[k] as int);
    }
    if k < b.len() {
        assert(y.skip(k)[0] == b[k] as int);
    }
}

/// References stand in the order of their collections, and those into one collection in the
/// order of the ids.
pub proof fn references_stand_in_order(c: Seq<char>, i: Seq<char>, d: Seq<char>, j: Seq<char>)
    ensures
        val_order(
            Val::Reference { collection: c, doc_id: i },
            Val::Reference { collection: d, doc_id: j },
        ) == (if c != d {
            val_order(Val::String(c), Val::String(d))
        } else {
            val_order(Val::String(i), Val::String(j))
        }),
{
    lex_equal(char_codes(c), char_codes(d));
    same_codes(c, d);
}

/// Of two lists the shorter comes first. Lists of one length stand as the first items in them
/// do that are not equal, and are equal where there are none.
pub proof fn lists_stand_in_order(a: Seq<Val>, b: Seq<Val>, k: int)
    requires
        a.len() == b.len() ==> 0 <= k <= a.len() && forall|i: int| 0 <= i < k ==> val_eq(#[trigger] a[i], b[i]),
    ensures
        a.len() < b.len() ==> val_order(Val::Array(a), Val::Array(b)) == Order::Less,
        a.len() > b.len() ==> val_order(Val::Array(a), Val::Array(b)) == Order::Greater,
        a.len() == b.len() && k < a.len() && !val_eq(a[k], b[k]) ==> val_order(Val::Array(a), Val::Array(b))
            == val_order(a[k], b[k]),
        a.len() == b.len() && k == a.len() ==> val_order(Val::Array(a), Val::Array(b)) == Order::Equal,
{
    if a.len() == b.len() {
        items_first_differ(a, b, k);
    }
}

proof fn items_first_differ(a: Seq<Val>, b: Seq<Val>, k: int)
    requires
        a.len() == b.len(),
        0 <= k <= a.len(),
        forall|i: int| 0 <= i < k ==> val_eq(#[trigger] a[i], b[i]),
    ensures
        k < a.len() && !val_eq(a[k], b[k]) ==> items_order(a, b) == val_order(a[k], b[k]),
        k == a.len() ==> items_order(a, b) == Order::Equal,
    decreases a.len(),
{
    if a.len() > 0 && k > 0 {
        let (x, y) = (a.drop_first(), b.drop_first());
        assert(val_eq(a[0], b[0]));
        assert forall|i: int| 0 <= i < k - 1 implies val_eq(#[trigger] x[i], y[i]) by {
            assert(val_eq(a[i + 1], b[i + 1]));
        }
        items_first_differ(x, y, k - 1);
        if k < a.len() {
            assert(x[k - 1] == a[k] && y[k - 1] == b[k]);
        }
    }
}

/// Of two objects the one with fewer fields comes first. Those with as many stand as the first
/// fields in them do that are not equal: as their keys, and under one key as their values.
/// They are equal where there are none.
pub proof fn objects_stand_in_order(a: Seq<(Seq<char>, Val)>, b: Seq<(Seq<char>, Val)>, k: int)
    requires
        a.len() == b.len() ==> 0 <= k <= a.len() && forall|i: int|
            0 <= i < k ==> (#[trigger] a[i]).0 == b[i].0 && val_eq(a[i].1, b[i].1),
    ensures
        a.len() < b.len() ==> val_order(Val::Object(a), Val::Object(b)) == Order::Less,
        a.len() > b.len() ==> val_order(Val::Object(a), Val::Object(b)) == Order::Greater,
        a.len() == b.len() && k < a.len() && a[k].0 != b[k].0 ==> val_order(Val::Object(a), Val::Object(b))
            == val_order(Val::String(a[k].0), Val::String(b[k].0)),
        a.len() == b.len() && k < a.len() && a[k].0 == b[k].0 && !val_eq(a[k].1, b[k].1) ==> val_order(
            Val::Object(a),
            Val::Object(b),
        ) == val_order(a[k].1, b[k].1),
        a.len() == b.len() && k == a.len() ==> val_order(Val::Object(a), Val::Object(b)) == Order::Equal,
{
    if a.len() == b.len() {
        fields_first_differ(a, b, k);
    }
}

proof fn fields_first_differ(a: Seq<(Seq<char>, Val)>, b: Seq<(Seq<char>, Val)>, k: int)
    requires
        a.len() == b.len(),
        0 <= k <= a.len(),
        forall|i: int| 0 <= i < k ==> (#[trigger] a[i]).0 == b[i].0 && val_eq(a[i].1, b[i].1),
    ensures
        k < a.len() && a[k].0 != b[k].0 ==> fields_order(a, b) == val_order(
            Val::String(a[k].0),
            Val::String(b[k].0),
        ),
        k < a.len() && a[k].0 == b[k].0 && !val_eq(a[k].1, b[k].1) ==> fields_order(a, b) == val_order(
            a[k].1,
            b[k].1,
        ),
        k == a.len() ==> fields_order(a, b) == Order::Equal,
    decreases a.len(),
{
    if a.len() > 0 {
        lex_equal(char_codes(a[0].0), char_codes(b[0].0));
        same_codes(a[0].0, b[0].0);
        if k > 0 {
            let (x, y) = (a.drop_first(), b.drop_first());
            assert(a[0].0 == b[0].0);
            assert forall|i: int| 0 <= i < k - 1 implies (#[trigger] x[i]).0 == y[i].0 && val_eq(x[i].1, y[i].1) by {
                assert(a[i + 1].0 == b[i + 1].0 && val_eq(a[i + 1].1, b[i + 1].1));
            }
            fields_first_differ(x, y, k - 1);
            if k < a.len() {
                assert(x[k - 1] == a[k] && y[k - 1] == b[k]);
            }
        }
    }
}

/// The order of values without parts is transitive, integers and floating-point numbers
/// together.
pub proof fn order_is_transitive(a: Val, b: Val, c: Val)
    requires
        !(a is Array || a is Object),
        !(c is Array || c is Object),
        val_order(a, b) == Order::Less,
        val_order(b, c) == Order::Less,
    ensures
        val_order(a, c) == Order::Less,
{
    match (a, b, c) {
        (Val::String(x), Val::String(y), Val::String(z)) => {
            lex_trans(char_codes(x), char_codes(y), char_codes(z));
        },
        (Val::Binary(x), Val::Binary(y), Val::Binary(z)) => {
            lex_trans(byte_codes(x), byte_codes(y), byte_codes(z));
        },
        (
            Val::Reference { collection: c1, doc_id: i1 },
            Val::Reference { collection: c2, doc_id: i2 },
            Val::Reference { collection: c3, doc_id: i3 },
        ) => {
            references_stand_in_order(c1, i1, c2, i2);
            references_stand_in_order(c2, i2, c3, i3);
            references_stand_in_order(c1, i1, c3, i3);
            if c1 != c2 && c2 != c3 {
                lex_trans(char_codes(c1), char_codes(c2), char_codes(c3));
                lex_flip(char_codes(c1), char_codes(c3));
                lex_equal(char_codes(c1), char_codes(c3));
                same_codes(c1, c3);
            } else if c1 == c2 && c2 == c3 {
                lex_trans(char_codes(i1), char_codes(i2), char_codes(i3));
            }
        },
        (Val::Int(x), Val::Int(y), Val::Float(_)) => {
            integers_keep_their_order(x, y);
        },
        (Val::Float(_), Val::Int(y), Val::Int(z)) => {
            integers_keep_their_order(y, z);
        },
        (Val::Int(x), Val::Float(y), Val::Int(z)) => {
            integers_stand_among_floats(x, z, y);
        },
        _ => {},
    }
}

/// Of two values one is not above the other, and each stands to the other as the opposite.
pub proof fn order_is_total(a: Val, b: Val)
    ensures
        val_order(a, b) == Order::Less <==> val_order(b, a) == Order::Greater,
        val_order(a, b) == Order::Equal <==> val_order(b, a) == Order::Equal,
        a == b ==> val_order(a, b) == Order::Equal,
{
    val_order_flips(a, b);
}

} // verus!
