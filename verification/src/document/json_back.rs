//! What comes back of a value that was turned into JSON, and of JSON that was turned into a
//! value.
use vstd::prelude::*;

use crate::document::firelite_doc::Doc;
use crate::document::json::{
    blob_round_trip, doc_json, fields_json, int_number, items_json, json_val, lookup, put, put_fields,
    reference_round_trip, special_val, val_json, Js, JsonNumber,
};
use crate::document::compare::text_order;
use crate::document::number::greater_is_not_below;
use crate::document::value::Val;
use crate::order::{char_codes, lex_equal, lex_flip, lex_trans, Order};
use crate::sorted_map::Key;

verus! {

/// Whether bits are those of a finite number: the exponent is not the greatest.
pub open spec fn finite(bits: u64) -> bool {
    bits % 0x8000_0000_0000_0000 < 0x7FF0_0000_0000_0000
}

/// Whether a value has a form of its own in JSON: nothing, truth values, integers, finite
/// numbers, texts, and lists and objects of such values. The keys of an object ascend, and none
/// of them is one by which references and links are told.
pub open spec fn has_own_form(v: Val) -> bool
    decreases v,
{
    match v {
        Val::Null => true,
        Val::Bool(_) => true,
        Val::Int(_) => true,
        Val::Float(bits) => finite(bits),
        Val::String(_) => true,
        Val::Array(items) => forall|i: int| 0 <= i < items.len() ==> has_own_form(#[trigger] items[i]),
        Val::Object(fields) => {
            &&& forall|i: int| 0 <= i < fields.len() ==> has_own_form((#[trigger] fields[i]).1)
            &&& forall|i: int|
                0 <= i < fields.len() ==> (#[trigger] fields[i]).0 != "__ref__"@ && fields[i].0 != "__blob__"@
            &&& forall|i: int, j: int| #![trigger fields[i], fields[j]]
                0 <= i < j < fields.len() ==> text_order(fields[i].0, fields[j].0) == Order::Less
        },
        _ => false,
    }
}

/// The keys of entries ascend.
pub open spec fn keys_ascend(entries: Seq<(Seq<char>, Js)>) -> bool {
    forall|i: int, j: int| #![trigger entries[i], entries[j]]
        0 <= i < j < entries.len() ==> text_order(entries[i].0, entries[j].0) == Order::Less
}

/// Texts compare as equal exactly when they are the same, and exchanged the other way round.
proof fn texts_compare(a: Seq<char>, b: Seq<char>)
    ensures
        text_order(a, b) == Order::Equal <==> a == b,
        text_order(b, a) == text_order(a, b).flip(),
{
    lex_equal(char_codes(a), char_codes(b));
    lex_flip(char_codes(a), char_codes(b));
    if char_codes(a) == char_codes(b) {
        <String as Key>::codes_injective(a, b);
    }
}

proof fn texts_compare_on(a: Seq<char>, b: Seq<char>, c: Seq<char>)
    requires
        text_order(a, b) == Order::Less,
        text_order(b, c) == Order::Less,
    ensures
        text_order(a, c) == Order::Less,
{
    lex_trans(char_codes(a), char_codes(b), char_codes(c));
}

/// What is not among entries is not found in them.
proof fn not_found(entries: Seq<(Seq<char>, Js)>, k: Seq<char>)
    requires
        forall|i: int| 0 <= i < entries.len() ==> (#[trigger] entries[i]).0 != k,
    ensures
        lookup(entries, k) is None,
    decreases entries.len(),
{
    if entries.len() > 0 {
        let rest = entries.drop_first();
        assert(entries[0].0 != k);
        assert forall|i: int| 0 <= i < rest.len() implies (#[trigger] rest[i]).0 != k by {
            assert(entries[i + 1].0 != k);
        }
        not_found(rest, k);
    }
}

/// What is put under a key is found under it, and everything else as before. Keys that ascend
/// still do.
pub proof fn put_is_found(entries: Seq<(Seq<char>, Js)>, k: Seq<char>, v: Js, x: Seq<char>)
    requires
        keys_ascend(entries),
    ensures
        keys_ascend(put(entries, k, v)),
        lookup(put(entries, k, v), x) == (if x == k {
            Some(v)
        } else {
            lookup(entries, x)
        }),
        forall|i: int|
            0 <= i < put(entries, k, v).len() ==> (#[trigger] put(entries, k, v)[i]).0 == k || exists|j: int|
                0 <= j < entries.len() && put(entries, k, v)[i].0 == (#[trigger] entries[j]).0,
    decreases entries.len(),
{
    let p = put(entries, k, v);
    if entries.len() == 0 {
        assert(p =~= seq![(k, v)]);
        assert(p.drop_first() =~= Seq::<(Seq<char>, Js)>::empty());
        assert(lookup(p.drop_first(), x) is None);
        assert(p[0].0 == k);
    } else {
        let e = entries[0];
        let rest = entries.drop_first();
        assert(keys_ascend(rest)) by {
            assert forall|i: int, j: int| #![trigger rest[i], rest[j]] 0 <= i < j < rest.len() implies text_order(
                rest[i].0,
                rest[j].0,
            ) == Order::Less by {
                assert(text_order(entries[i + 1].0, entries[j + 1].0) == Order::Less);
            }
        }
        texts_compare(e.0, k);
        match text_order(e.0, k) {
            Order::Less => {
                put_is_found(rest, k, v, x);
                let q = put(rest, k, v);
                assert(p =~= seq![e] + q);
                assert(p.drop_first() =~= q);
                assert forall|i: int| 0 <= i < q.len() implies text_order(e.0, (#[trigger] q[i]).0) == Order::Less by {
                    if q[i].0 != k {
                        let j = choose|j: int| 0 <= j < rest.len() && q[i].0 == (#[trigger] rest[j]).0;
                        assert(text_order(entries[0].0, entries[j + 1].0) == Order::Less);
                    }
                }
                assert forall|i: int, j: int| #![trigger p[i], p[j]] 0 <= i < j < p.len() implies text_order(
                    p[i].0,
                    p[j].0,
                ) == Order::Less by {
                    assert(p[j] == q[j - 1]);
                    if i > 0 {
                        assert(p[i] == q[i - 1]);
                    }
                }
                assert forall|i: int| 0 <= i < p.len() implies (#[trigger] p[i]).0 == k || exists|j: int|
                    0 <= j < entries.len() && p[i].0 == (#[trigger] entries[j]).0 by {
                    if i == 0 {
                        assert(p[0].0 == entries[0].0);
                    } else if p[i].0 != k {
                        assert(p[i] == q[i - 1]);
                        let j = choose|j: int| 0 <= j < rest.len() && q[i - 1].0 == (#[trigger] rest[j]).0;
                        assert(entries[j + 1].0 == p[i].0);
                    }
                }
            },
            Order::Equal => {
                assert(p =~= seq![(k, v)] + rest);
                assert(p.drop_first() =~= rest);
                assert forall|i: int, j: int| #![trigger p[i], p[j]] 0 <= i < j < p.len() implies text_order(
                    p[i].0,
                    p[j].0,
                ) == Order::Less by {
                    assert(text_order(entries[i].0, entries[j].0) == Order::Less);
                }
                assert forall|i: int| 0 <= i < p.len() implies (#[trigger] p[i]).0 == k || exists|j: int|
                    0 <= j < entries.len() && p[i].0 == (#[trigger] entries[j]).0 by {
                    assert(entries[i].0 == p[i].0);
                }
            },
            Order::Greater => {
                assert(p =~= seq![(k, v)] + entries);
                assert(p.drop_first() =~= entries);
                assert forall|i: int, j: int| #![trigger p[i], p[j]] 0 <= i < j < p.len() implies text_order(
                    p[i].0,
                    p[j].0,
                ) == Order::Less by {
                    assert(p[j] == entries[j - 1]);
                    if i > 0 {
                        assert(p[i] == entries[i - 1]);
                    } else if j > 1 {
                        assert(text_order(entries[0].0, entries[j - 1].0) == Order::Less);
                        texts_compare_on(k, e.0, entries[j - 1].0);
                    }
                }
                assert forall|i: int| 0 <= i < p.len() implies (#[trigger] p[i]).0 == k || exists|j: int|
                    0 <= j < entries.len() && p[i].0 == (#[trigger] entries[j]).0 by {
                    if i > 0 {
                        assert(entries[i - 1].0 == p[i].0);
                    }
                }
            },
        }
    }
}

/// What is put behind all keys comes last.
proof fn put_last(entries: Seq<(Seq<char>, Js)>, k: Seq<char>, v: Js)
    requires
        forall|i: int| 0 <= i < entries.len() ==> text_order((#[trigger] entries[i]).0, k) == Order::Less,
    ensures
        put(entries, k, v) == entries.push((k, v)),
    decreases entries.len(),
{
    if entries.len() > 0 {
        let rest = entries.drop_first();
        assert(text_order(entries[0].0, k) == Order::Less);
        assert forall|i: int| 0 <= i < rest.len() implies text_order((#[trigger] rest[i]).0, k) == Order::Less by {
            assert(text_order(entries[i + 1].0, k) == Order::Less);
        }
        put_last(rest, k, v);
        assert(seq![entries[0]] + rest.push((k, v)) =~= entries.push((k, v)));
    } else {
        assert(seq![(k, v)] =~= entries.push((k, v)));
    }
}

/// Fields whose keys ascend become entries one by one.
proof fn ascending_fields_stay(fields: Seq<(Seq<char>, Val)>)
    requires
        forall|i: int, j: int| #![trigger fields[i], fields[j]]
            0 <= i < j < fields.len() ==> text_order(fields[i].0, fields[j].0) == Order::Less,
    ensures
        fields_json(fields).len() == fields.len(),
        forall|i: int|
            0 <= i < fields.len() ==> #[trigger] fields_json(fields)[i] == (fields[i].0, val_json(fields[i].1)),
    decreases fields.len(),
{
    if fields.len() > 0 {
        let pre = fields.drop_last();
        let last = fields[fields.len() - 1];
        assert forall|i: int, j: int| #![trigger pre[i], pre[j]] 0 <= i < j < pre.len() implies text_order(
            pre[i].0,
            pre[j].0,
        ) == Order::Less by {
            assert(text_order(fields[i].0, fields[j].0) == Order::Less);
        }
        ascending_fields_stay(pre);
        let e = fields_json(pre);
        assert forall|i: int| 0 <= i < e.len() implies text_order((#[trigger] e[i]).0, last.0) == Order::Less by {
            assert(text_order(fields[i].0, fields[fields.len() - 1].0) == Order::Less);
        }
        put_last(e, last.0, val_json(last.1));
        assert forall|i: int| 0 <= i < fields.len() implies #[trigger] fields_json(fields)[i] == (
            fields[i].0,
            val_json(fields[i].1),
        ) by {
            if i < pre.len() {
                assert(fields_json(fields)[i] == e[i]);
            }
        }
    }
}

/// Values become items one by one.
proof fn items_stay(items: Seq<Val>)
    ensures
        items_json(items).len() == items.len(),
        forall|i: int| 0 <= i < items.len() ==> #[trigger] items_json(items)[i] == val_json(items[i]),
    decreases items.len(),
{
    if items.len() > 0 {
        let pre = items.drop_last();
        items_stay(pre);
        assert forall|i: int| 0 <= i < items.len() implies #[trigger] items_json(items)[i] == val_json(items[i]) by {
            if i < pre.len() {
                assert(items_json(items)[i] == items_json(pre)[i]);
            }
        }
    }
}

/// A value that has a form of its own in JSON comes back from it as it was.
pub proof fn value_comes_back(v: Val)
    requires
        has_own_form(v),
    ensures
        json_val(val_json(v)) == v,
    decreases v,
{
    reveal_with_fuel(json_val, 2);
    match v {
        Val::Array(items) => {
            items_stay(items);
            let list = items_json(items);
            let back = json_val(Js::List(list))->Array_0;
            assert forall|i: int| 0 <= i < items.len() implies #[trigger] back[i] == items[i] by {
                assert(has_own_form(items[i]));
                value_comes_back(items[i]);
                assert(list[i] == val_json(items[i]));
            }
            assert(back =~= items);
        },
        Val::Object(fields) => {
            ascending_fields_stay(fields);
            let e = fields_json(fields);
            assert forall|i: int| 0 <= i < e.len() implies (#[trigger] e[i]).0 != "__ref__"@ && e[i].0 != "__blob__"@ by {
                assert(fields[i].0 != "__ref__"@);
            }
            not_found(e, "__ref__"@);
            not_found(e, "__blob__"@);
            assert(special_val(e) is None);
            let back = json_val(Js::Object(e))->Object_0;
            assert forall|i: int| 0 <= i < fields.len() implies #[trigger] back[i] == fields[i] by {
                assert(has_own_form(fields[i].1));
                value_comes_back(fields[i].1);
                assert(e[i] == (fields[i].0, val_json(fields[i].1)));
            }
            assert(back =~= fields);
        },
        _ => {},
    }
}

/// Different values that have a form of their own in JSON have different ones.
pub proof fn forms_differ(a: Val, b: Val)
    requires
        has_own_form(a),
        has_own_form(b),
        a != b,
    ensures
        val_json(a) != val_json(b),
{
    value_comes_back(a);
    value_comes_back(b);
}

/// What JSON a plain value is: nothing is nothing, a truth value is itself, a text is itself,
/// an integer is an integer, and a list has an item for each of its items, an object an entry
/// for each of its keys.
pub proof fn value_keeps_its_kind(v: Val)
    ensures
        v is Null <==> val_json(v) is Null && !(v is ServerTimestamp) && !(v is Float),
        val_json(v) is Bool <==> v is Bool,
        v matches Val::Bool(b) ==> val_json(v) == Js::Bool(b),
        val_json(v) is Text <==> v is String,
        v matches Val::String(s) ==> val_json(v) == Js::Text(s),
        v matches Val::Int(i) ==> (i >= 0 ==> val_json(v) == Js::Number(JsonNumber::PosInt(i as u64))) && (i < 0
            ==> val_json(v) == Js::Number(JsonNumber::NegInt(i))),
        v matches Val::Float(b) ==> (finite(b) ==> val_json(v) == Js::Number(JsonNumber::Float(b))) && (!finite(b)
            ==> val_json(v) is Null),
        v matches Val::Array(items) ==> (val_json(v) matches Js::List(list) && list.len() == items.len()),
        val_json(v) is Object <==> v is Object || v is Reference || v is BlobLink,
{
    if let Val::Array(items) = v {
        items_stay(items);
    }
}

/// What comes back of the values that have no form of their own in JSON: a time as the integer
/// that it is, bytes as the list of them, and of a time still to come, and of a number that is
/// not finite, nothing. A reference and a link come back as they were, but for a collection
/// with a slash in its name.
pub proof fn other_values_come_back(v: Val)
    ensures
        v matches Val::Timestamp(t) ==> json_val(val_json(v)) == Val::Int(t),
        v matches Val::Binary(b) ==> (json_val(val_json(v)) matches Val::Array(items) && items.len() == b.len()
            && forall|i: int| 0 <= i < b.len() ==> #[trigger] items[i] == Val::Int(b[i] as i64)),
        v is ServerTimestamp ==> json_val(val_json(v)) is Null,
        v matches Val::Float(b) ==> !finite(b) ==> json_val(val_json(v)) is Null,
        v matches Val::Reference { collection, doc_id } ==> !collection.contains('/') ==> json_val(val_json(v)) == v,
        v is BlobLink ==> json_val(val_json(v)) == v,
{
    reveal_with_fuel(json_val, 2);
    match v {
        Val::Binary(b) => {
            let list = val_json(v)->List_0;
            let items = json_val(val_json(v))->Array_0;
            assert forall|i: int| 0 <= i < b.len() implies #[trigger] items[i] == Val::Int(b[i] as i64) by {
                assert(list[i] == Js::Number(JsonNumber::PosInt(b[i] as u64)));
            }
        },
        Val::Reference { collection, doc_id } => {
            if !collection.contains('/') {
                reference_round_trip(collection, doc_id);
            }
        },
        Val::BlobLink { offset, len } => {
            blob_round_trip(offset, len);
        },
        _ => {},
    }
}

/// Whether JSON has a value of its own: its numbers are integers of 64 bits with a sign, in
/// the one way that these are written, or finite numbers; its objects tell of no reference and
/// no link, and their keys ascend.
pub open spec fn has_own_value(j: Js) -> bool
    decreases j,
{
    match j {
        Js::Null => true,
        Js::Bool(_) => true,
        Js::Number(JsonNumber::PosInt(u)) => u <= i64::MAX,
        Js::Number(JsonNumber::NegInt(i)) => i < 0,
        Js::Number(JsonNumber::Float(b)) => finite(b),
        Js::Text(_) => true,
        Js::List(items) => forall|i: int| 0 <= i < items.len() ==> has_own_value(#[trigger] items[i]),
        Js::Object(entries) => {
            &&& forall|i: int| 0 <= i < entries.len() ==> has_own_value((#[trigger] entries[i]).1)
            &&& forall|i: int|
                0 <= i < entries.len() ==> (#[trigger] entries[i]).0 != "__ref__"@ && entries[i].0 != "__blob__"@
            &&& keys_ascend(entries)
        },
    }
}

/// JSON that has a value of its own comes back from it as it was.
pub proof fn json_comes_back(j: Js)
    requires
        has_own_value(j),
    ensures
        val_json(json_val(j)) == j,
    decreases j,
{
    reveal_with_fuel(json_val, 2);
    match j {
        Js::List(items) => {
            let vals = json_val(j)->Array_0;
            items_stay(vals);
            let back = items_json(vals);
            assert forall|i: int| 0 <= i < items.len() implies #[trigger] back[i] == items[i] by {
                assert(has_own_value(items[i]));
                json_comes_back(items[i]);
                assert(vals[i] == json_val(items[i]));
            }
            assert(back =~= items);
        },
        Js::Object(entries) => {
            not_found(entries, "__ref__"@);
            not_found(entries, "__blob__"@);
            assert(special_val(entries) is None);
            let fields = json_val(j)->Object_0;
            assert forall|i: int, k: int| #![trigger fields[i], fields[k]] 0 <= i < k < fields.len() implies text_order(
                fields[i].0,
                fields[k].0,
            ) == Order::Less by {
                assert(text_order(entries[i].0, entries[k].0) == Order::Less);
            }
            ascending_fields_stay(fields);
            let back = fields_json(fields);
            assert forall|i: int| 0 <= i < entries.len() implies #[trigger] back[i] == entries[i] by {
                assert(has_own_value(entries[i].1));
                json_comes_back(entries[i].1);
                assert(fields[i] == (entries[i].0, json_val(entries[i].1)));
            }
            assert(back =~= entries);
        },
        _ => {},
    }
}

/// An integer that does not fit 64 bits with a sign is read as the nearest number, which is
/// positive and finite, and the greater of two as no smaller one.
pub proof fn great_integers_are_numbers(u: u64, w: u64)
    requires
        i64::MAX < u <= w,
    ensures
        json_val(Js::Number(JsonNumber::PosInt(u))) matches Val::Float(b) && json_val(
            Js::Number(JsonNumber::PosInt(w)),
        ) matches Val::Float(c) && b <= c && c < 0x7FF0_0000_0000_0000,
{
    greater_is_not_below(u as nat, w as nat);
}

/// What an object holds of fields that were put in turn: under each key the value of the last
/// field with it, and what was there before under the others.
pub proof fn fields_are_found(entries: Seq<(Seq<char>, Js)>, fields: Seq<(Seq<char>, Val)>, x: Seq<char>)
    requires
        keys_ascend(entries),
    ensures
        keys_ascend(put_fields(entries, fields)),
        forall|i: int|
            0 <= i < fields.len() && (#[trigger] fields[i]).0 == x && (forall|j: int|
                i < j < fields.len() ==> (#[trigger] fields[j]).0 != x) ==> lookup(put_fields(entries, fields), x)
                == Some(val_json(fields[i].1)),
        (forall|i: int| 0 <= i < fields.len() ==> (#[trigger] fields[i]).0 != x) ==> lookup(
            put_fields(entries, fields),
            x,
        ) == lookup(entries, x),
    decreases fields.len(),
{
    if fields.len() > 0 {
        let pre = fields.drop_last();
        let last = fields[fields.len() - 1];
        fields_are_found(entries, pre, x);
        put_is_found(put_fields(entries, pre), last.0, val_json(last.1), x);
        assert forall|i: int|
            0 <= i < fields.len() && (#[trigger] fields[i]).0 == x && (forall|j: int|
                i < j < fields.len() ==> (#[trigger] fields[j]).0 != x) implies lookup(put_fields(entries, fields), x)
            == Some(val_json(fields[i].1)) by {
            if i < pre.len() {
                assert(fields[fields.len() - 1].0 != x);
                assert(pre[i] == fields[i]);
                assert forall|j: int| i < j < pre.len() implies (#[trigger] pre[j]).0 != x by {
                    assert(fields[j].0 != x);
                }
            }
        }
        if forall|i: int| 0 <= i < fields.len() ==> (#[trigger] fields[i]).0 != x {
            assert forall|i: int| 0 <= i < pre.len() implies (#[trigger] pre[i]).0 != x by {
                assert(fields[i].0 != x);
            }
            assert(fields[fields.len() - 1].0 != x);
        }
    }
}

/// The JSON of a document holds its fields, each under its key with the JSON of its value, and
/// the time of the document under `_time` unless a field has that key. It holds nothing else,
/// and with an id it holds that under `id`, and all else as without.
pub proof fn document_is_found(d: Doc, id: Seq<char>, x: Seq<char>)
    ensures
        forall|i: int|
            0 <= i < d.fields.len() && (#[trigger] d.fields[i]).0 == x && (forall|j: int|
                i < j < d.fields.len() ==> (#[trigger] d.fields[j]).0 != x) ==> lookup(doc_json(d), x) == Some(
                val_json(d.fields[i].1),
            ),
        (forall|i: int| 0 <= i < d.fields.len() ==> (#[trigger] d.fields[i]).0 != x) ==> (if x == "_time"@ {
            lookup(doc_json(d), x) matches Some(j) && json_val(j) == Val::Int(d.time)
        } else {
            lookup(doc_json(d), x) is None
        }),
        lookup(put(doc_json(d), "id"@, Js::Text(id)), "id"@) == Some(Js::Text(id)),
        x != "id"@ ==> lookup(put(doc_json(d), "id"@, Js::Text(id)), x) == lookup(doc_json(d), x),
        keys_ascend(doc_json(d)),
        keys_ascend(put(doc_json(d), "id"@, Js::Text(id))),
{
    let start = seq![("_time"@, Js::Number(int_number(d.time)))];
    assert(keys_ascend(start));
    fields_are_found(start, d.fields, x);
    assert(start.drop_first() =~= Seq::<(Seq<char>, Js)>::empty());
    assert(lookup(start.drop_first(), x) is None);
    assert(start[0].0 == "_time"@);
    put_is_found(doc_json(d), "id"@, Js::Text(id), x);
    put_is_found(doc_json(d), "id"@, Js::Text(id), "id"@);
}

/// Objects of values hold their fields as documents do.
pub proof fn object_is_found(fields: Seq<(Seq<char>, Val)>, x: Seq<char>)
    ensures
        forall|i: int|
            0 <= i < fields.len() && (#[trigger] fields[i]).0 == x && (forall|j: int|
                i < j < fields.len() ==> (#[trigger] fields[j]).0 != x) ==> (val_json(
                Val::Object(fields),
            ) matches Js::Object(entries) && lookup(entries, x) == Some(val_json(fields[i].1))),
        (forall|i: int| 0 <= i < fields.len() ==> (#[trigger] fields[i]).0 != x) ==> (val_json(
            Val::Object(fields),
        ) matches Js::Object(entries) && lookup(entries, x) is None),
{
    let none = Seq::<(Seq<char>, Js)>::empty();
    fields_are_found(none, fields, x);
    from_nothing(fields);
}

proof fn from_nothing(fields: Seq<(Seq<char>, Val)>)
    ensures
        put_fields(Seq::empty(), fields) == fields_json(fields),
    decreases fields.len(),
{
    if fields.len() > 0 {
        from_nothing(fields.drop_last());
    }
}

} // verus!
