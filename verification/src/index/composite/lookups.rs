//! What lookups in a composite index find: the documents with the given values, in the order of
//! the columns.
use vstd::prelude::*;
use vstd::utf8::encode_utf8;

use crate::document::firelite_doc::Doc;
use crate::document::value::Val;
use crate::index::completeness::{filled_composite_is_complete, is_entry};
use crate::index::composite::composite_index::{
    column_value, column_values, document_key, range_ids, with_documents, CompositeIndex,
};
use crate::index::composite::definition::{Definition, SortDirection};
use crate::index::composite::key_encoder::{
    composite_key, composite_keys_differ, id_bytes, key_fits, prefix_bytes, prefix_is_of_values, value_key,
    value_keys_differ, values_key, KeyBuf,
};
use crate::index::composite::manager::prefix_ids;
use crate::index::composite::range_builder::{in_range, prefix_range_exact, upper};
use crate::order::{byte_codes, lex, Order};
use crate::sorted_map::{ascending, ascending_entry, key_lt, key_order_total};
use crate::util::fixed::{be_bytes, be_round_trip};

verus! {

/// What an index takes from a document: the id under the name `id`, the time under `_time`, and
/// what a search finds under any other name.
pub proof fn columns_are_of_the_document(name: Seq<char>, id: Seq<char>, doc: Doc)
    ensures
        name == "id"@ ==> column_value(name, id, doc) == Some(Val::String(id)),
        name == "_time"@ ==> column_value(name, id, doc) == Some(Val::Int(doc.time)),
        name != "id"@ && name != "_time"@ ==> column_value(name, id, doc) == (if doc.map().contains_key(name) {
            Some(doc.map()[name])
        } else {
            None
        }),
{
    reveal_strlit("id");
    reveal_strlit("_time");
    assert("id"@.len() != "_time"@.len());
}

/// A document is in an index exactly when it has all of its columns, with the values of these
/// in their order.
pub proof fn values_are_of_the_columns(columns: Seq<(Seq<char>, SortDirection)>, id: Seq<char>, doc: Doc)
    ensures
        column_values(columns, id, doc) is Some <==> forall|i: int|
            0 <= i < columns.len() ==> column_value((#[trigger] columns[i]).0, id, doc) is Some,
        column_values(columns, id, doc) matches Some(vs) ==> vs.len() == columns.len() && forall|i: int|
            0 <= i < vs.len() ==> column_value(columns[i].0, id, doc) == Some(#[trigger] vs[i]),
    decreases columns.len(),
{
    if columns.len() > 0 {
        let pre = columns.drop_last();
        values_are_of_the_columns(pre, id, doc);
        let last = columns[columns.len() - 1];
        if forall|i: int| 0 <= i < columns.len() ==> column_value((#[trigger] columns[i]).0, id, doc) is Some {
            assert forall|i: int| 0 <= i < pre.len() implies column_value((#[trigger] pre[i]).0, id, doc) is Some by {
                assert(column_value(columns[i].0, id, doc) is Some);
            }
            assert(column_value(last.0, id, doc) is Some);
        }
        if let Some(vs) = column_values(columns, id, doc) {
            let us = column_values(pre, id, doc)->Some_0;
            assert forall|i: int| 0 <= i < columns.len() implies column_value((#[trigger] columns[i]).0, id, doc) == Some(
                vs[i],
            ) by {
                if i < pre.len() {
                    assert(us[i] == vs[i]);
                    assert(pre[i] == columns[i]);
                }
            }
        }
    }
}

/// Whether a value has no parts, so that its key tells it.
pub open spec fn without_parts(v: Val) -> bool {
    v is Bool || v is Int || v is Float || v is Timestamp || v is String || v is Binary
}

/// Whether a document has all columns of an index, and in the first of them the given values.
pub open spec fn shows(d: Definition, doc: (Seq<char>, Doc), values: Seq<Val>) -> bool {
    &&& forall|i: int| 0 <= i < d.columns.len() ==> column_value((#[trigger] d.columns[i]).0, doc.0, doc.1) is Some
    &&& forall|i: int|
        0 <= i < values.len() ==> column_value(d.columns[i].0, doc.0, doc.1) == Some(#[trigger] values[i])
}

/// The lengths in the key of a document fit: of its id, and of the values in its columns.
pub open spec fn doc_fits(d: Definition, doc: (Seq<char>, Doc)) -> bool {
    &&& encode_utf8(doc.0).len() < 65280
    &&& forall|i: int|
        0 <= i < d.columns.len() ==> (column_value((#[trigger] d.columns[i]).0, doc.0, doc.1) matches Some(v)
            ==> key_fits(v))
}

/// A key lies in the range of given values exactly when its document shows them.
proof fn in_range_of_values(d: Definition, doc: (Seq<char>, Doc), values: Seq<Val>)
    requires
        doc_fits(d, doc),
        values.len() <= d.columns.len(),
        forall|i: int| 0 <= i < values.len() ==> without_parts(#[trigger] values[i]) && key_fits(values[i]),
        document_key(d, doc.0, doc.1) is Some,
    ensures
        in_range(
            document_key(d, doc.0, doc.1)->Some_0,
            prefix_bytes(d, values),
            upper(prefix_bytes(d, values)),
        ) <==> shows(d, doc, values),
{
    let vs = column_values(d.columns, doc.0, doc.1)->Some_0;
    values_are_of_the_columns(d.columns, doc.0, doc.1);
    assert forall|i: int| 0 <= i < vs.len() implies key_fits(#[trigger] vs[i]) by {
        assert(column_value(d.columns[i].0, doc.0, doc.1) == Some(vs[i]));
    }
    let k = composite_key(d, vs, doc.0);
    let p = prefix_bytes(d, values);
    prefix_is_of_values(d, vs, values, doc.0);
    prefix_range_exact(p, k);
    if p.is_prefix_of(k) {
        next_byte_is_low(d, vs, values, doc.0);
        assert forall|i: int| 0 <= i < values.len() implies column_value(d.columns[i].0, doc.0, doc.1) == Some(
            #[trigger] values[i],
        ) by {
            assert(value_key(values[i], d.columns[i].1) == value_key(vs[i], d.columns[i].1));
            value_keys_differ(values[i], vs[i], d.columns[i].1);
        }
    }
    if shows(d, doc, values) {
        assert forall|i: int| 0 <= i < values.len() implies value_key(#[trigger] values[i], d.columns[i].1)
            == value_key(vs[i], d.columns[i].1) by {
            assert(column_value(d.columns[i].0, doc.0, doc.1) == Some(values[i]));
            assert(column_value(d.columns[i].0, doc.0, doc.1) == Some(vs[i]));
        }
    }
}

/// Behind the keys of the first values comes a byte below 255.
proof fn next_byte_is_low(d: Definition, vs: Seq<Val>, values: Seq<Val>, id: Seq<char>)
    requires
        vs.len() == d.columns.len(),
        values.len() <= d.columns.len(),
        encode_utf8(id).len() < 65280,
        forall|i: int| 0 <= i < values.len() ==> value_key(#[trigger] values[i], d.columns[i].1) == value_key(
            vs[i],
            d.columns[i].1,
        ),
    ensures
        prefix_bytes(d, values).len() < composite_key(d, vs, id).len(),
        composite_key(d, vs, id)[prefix_bytes(d, values).len() as int] < 255,
{
    let n = values.len();
    let h = be_bytes(d.id as nat, 4);
    let k = composite_key(d, vs, id);
    equal_heads(vs, values, d.columns, n);
    let m = encode_utf8(id).len();
    be_round_trip(m, 2);
    assert(be_bytes(m, 2)[0] == (m / 256) as u8) by {
        assert(be_bytes(m, 2)[0] == be_bytes(m / 256, 1)[0]);
        assert(be_bytes(m / 256, 1) =~= seq![(m / 256) as u8]) by {
            assert(be_bytes(m / 256 / 256, 0) =~= Seq::<u8>::empty());
        }
    }
    if n < d.columns.len() {
        let own = value_key(vs[n as int], d.columns[n as int].1);
        let tail = head_of_rest(vs, d.columns, n, d.columns.len());
        assert(k =~= h + values_key(vs, d.columns, n) + own + tail + id_bytes(id));
        assert(k[(h + values_key(vs, d.columns, n)).len() as int] == own[0]);
    } else {
        assert(k =~= h + values_key(vs, d.columns, n) + id_bytes(id));
        assert(k[(h + values_key(vs, d.columns, n)).len() as int] == id_bytes(id)[0]);
    }
}

proof fn equal_heads(a: Seq<Val>, b: Seq<Val>, columns: Seq<(Seq<char>, SortDirection)>, n: nat)
    requires
        forall|i: int| 0 <= i < n ==> value_key(#[trigger] b[i], columns[i].1) == value_key(a[i], columns[i].1),
    ensures
        values_key(a, columns, n) == values_key(b, columns, n),
    decreases n,
{
    if n > 0 {
        equal_heads(a, b, columns, (n - 1) as nat);
        assert(value_key(b[n - 1], columns[n - 1].1) == value_key(a[n - 1], columns[n - 1].1));
    }
}

proof fn head_of_rest(a: Seq<Val>, columns: Seq<(Seq<char>, SortDirection)>, k: nat, n: nat) -> (tail: Seq<u8>)
    requires
        k < n,
    ensures
        values_key(a, columns, n) == values_key(a, columns, k) + value_key(a[k as int], columns[k as int].1) + tail,
    decreases n,
{
    if k + 1 == n {
        assert(values_key(a, columns, n) =~= values_key(a, columns, k) + value_key(
            a[k as int],
            columns[k as int].1,
        ) + Seq::<u8>::empty());
        Seq::empty()
    } else {
        let t = head_of_rest(a, columns, k, (n - 1) as nat);
        let own = value_key(a[n - 1], columns[n - 1].1);
        assert(values_key(a, columns, n) =~= values_key(a, columns, k) + value_key(
            a[k as int],
            columns[k as int].1,
        ) + (t + own));
        t + own
    }
}

/// What a scan gives is of the entries whose keys lie in the range, and of all of them.
proof fn scanned(entries: Seq<(Seq<u8>, String)>, a: Seq<u8>, b: Seq<u8>, id: Seq<char>)
    ensures
        range_ids(entries, a, b).contains(id) <==> exists|i: int|
            0 <= i < entries.len() && in_range((#[trigger] entries[i]).0, a, b) && entries[i].1@ == id,
    decreases entries.len(),
{
    if entries.len() > 0 {
        let pre = entries.drop_last();
        let (r, s) = (range_ids(pre, a, b), range_ids(entries, a, b));
        let last = entries[entries.len() - 1];
        scanned(pre, a, b, id);
        if r.contains(id) {
            let k = choose|k: int| 0 <= k < r.len() && r[k] == id;
            assert(s[k] == id);
            let i = choose|i: int| 0 <= i < pre.len() && in_range((#[trigger] pre[i]).0, a, b) && pre[i].1@ == id;
            assert(entries[i] == pre[i]);
        }
        if in_range(last.0, a, b) && last.1@ == id {
            assert(s[r.len() as int] == id);
            assert(in_range(entries[entries.len() - 1].0, a, b));
        }
        if s.contains(id) {
            let k = choose|k: int| 0 <= k < s.len() && s[k] == id;
            if k < r.len() {
                assert(r[k] == id);
            }
        }
        if exists|i: int| 0 <= i < entries.len() && in_range((#[trigger] entries[i]).0, a, b) && entries[i].1@ == id {
            let i = choose|i: int|
                0 <= i < entries.len() && in_range((#[trigger] entries[i]).0, a, b) && entries[i].1@ == id;
            if i < pre.len() {
                assert(pre[i] == entries[i]);
            }
        }
    }
}

/// A lookup in an index that was filled with documents finds the ones that have the given
/// values in its first columns, all of them and no others.
pub proof fn lookup_is_exact(
    x: CompositeIndex,
    docs: Seq<(Seq<char>, Doc)>,
    values: Seq<Val>,
    id: Seq<char>,
)
    requires
        x.wf(),
        x.entries() == with_documents(Map::empty(), x.definition@, docs),
        forall|i: int| 0 <= i < docs.len() ==> doc_fits(x.definition@, #[trigger] docs[i]),
        values.len() <= x.definition@.columns.len(),
        forall|i: int| 0 <= i < values.len() ==> without_parts(#[trigger] values[i]) && key_fits(values[i]),
    ensures
        prefix_ids(x, values).contains(id) <==> exists|i: int|
            0 <= i < docs.len() && (#[trigger] docs[i]).0 == id && shows(x.definition@, docs[i], values),
{
    let d = x.definition@;
    let s = x.tree.seq();
    let (a, b) = (prefix_bytes(d, values), upper(prefix_bytes(d, values)));
    scanned(s, a, b, id);
    if prefix_ids(x, values).contains(id) {
        let n = choose|n: int| 0 <= n < s.len() && in_range((#[trigger] s[n]).0, a, b) && s[n].1@ == id;
        ascending_entry::<KeyBuf, String>(s, n);
        let k = s[n].0;
        assert(x.entries().contains_key(k) && x.entries()[k] == id);
        filled_composite_is_complete(d, docs, k);
        let i = choose|i: int| 0 <= i < docs.len() && is_entry(#[trigger] docs[i], d, k, id);
        in_range_of_values(d, docs[i], values);
        assert(docs[i].0 == id && shows(d, docs[i], values));
    }
    if exists|i: int| 0 <= i < docs.len() && (#[trigger] docs[i]).0 == id && shows(d, docs[i], values) {
        let i = choose|i: int| 0 <= i < docs.len() && (#[trigger] docs[i]).0 == id && shows(d, docs[i], values);
        values_are_of_the_columns(d.columns, id, docs[i].1);
        let k = document_key(d, id, docs[i].1)->Some_0;
        in_range_of_values(d, docs[i], values);
        filled_composite_is_complete(d, docs, k);
        assert(is_entry(docs[i], d, k, docs[i].0));
        assert(x.entries().contains_key(k));
        let other = x.entries()[k];
        let j = choose|j: int| 0 <= j < docs.len() && is_entry(#[trigger] docs[j], d, k, other);
        values_are_of_the_columns(d.columns, other, docs[j].1);
        let (u, v) = (column_values(d.columns, id, docs[i].1)->Some_0, column_values(d.columns, other, docs[j].1)->Some_0);
        assert forall|c: int| 0 <= c < d.columns.len() implies key_fits(#[trigger] u[c]) by {
            assert(column_value(d.columns[c].0, docs[i].0, docs[i].1) == Some(u[c]));
            assert(doc_fits(d, docs[i]));
        }
        assert forall|c: int| 0 <= c < d.columns.len() implies key_fits(#[trigger] v[c]) by {
            assert(column_value(d.columns[c].0, docs[j].0, docs[j].1) == Some(v[c]));
            assert(doc_fits(d, docs[j]));
        }
        composite_keys_differ(d, u, v, id, other);
        let n = choose|n: int| 0 <= n < s.len() && (#[trigger] s[n]).0 == k;
        ascending_entry::<KeyBuf, String>(s, n);
        assert(in_range(s[n].0, a, b) && s[n].1@ == id);
    }
}

/// A scan gives documents in the order of their keys: of two entries in the range the one with
/// the lower key comes first.
pub proof fn scan_is_ordered(
    entries: Seq<(Seq<u8>, String)>,
    a: Seq<u8>,
    b: Seq<u8>,
    i: int,
    j: int,
) -> (r: (int, int))
    requires
        ascending::<KeyBuf, String>(entries),
        0 <= i < entries.len(),
        0 <= j < entries.len(),
        lex(byte_codes(entries[i].0), byte_codes(entries[j].0)) == Order::Less,
        in_range(entries[i].0, a, b),
        in_range(entries[j].0, a, b),
    ensures
        0 <= r.0 < r.1 < range_ids(entries, a, b).len(),
        range_ids(entries, a, b)[r.0] == entries[i].1@,
        range_ids(entries, a, b)[r.1] == entries[j].1@,
{
    if i >= j {
        key_order_total::<KeyBuf>(entries[i].0, entries[j].0);
        if i > j {
            assert(key_lt::<KeyBuf>(entries[j].0, entries[i].0));
        }
    }
    placed(entries, a, b, i, j)
}

proof fn placed(entries: Seq<(Seq<u8>, String)>, a: Seq<u8>, b: Seq<u8>, i: int, j: int) -> (r: (int, int))
    requires
        0 <= i < j < entries.len(),
        in_range(entries[i].0, a, b),
        in_range(entries[j].0, a, b),
    ensures
        0 <= r.0 < r.1 < range_ids(entries, a, b).len(),
        range_ids(entries, a, b)[r.0] == entries[i].1@,
        range_ids(entries, a, b)[r.1] == entries[j].1@,
    decreases entries.len(),
{
    let pre = entries.drop_last();
    let (x, y) = (range_ids(pre, a, b), range_ids(entries, a, b));
    if j < pre.len() {
        assert(pre[i] == entries[i] && pre[j] == entries[j]);
        let r = placed(pre, a, b, i, j);
        assert(y[r.0] == x[r.0] && y[r.1] == x[r.1]);
        r
    } else {
        assert(pre[i] == entries[i]);
        scanned_at(pre, a, b, i);
        let k = choose|k: int| 0 <= k < x.len() && x[k] == pre[i].1@;
        assert(y[k] == x[k]);
        (k, x.len() as int)
    }
}

proof fn scanned_at(entries: Seq<(Seq<u8>, String)>, a: Seq<u8>, b: Seq<u8>, i: int)
    requires
        0 <= i < entries.len(),
        in_range(entries[i].0, a, b),
    ensures
        range_ids(entries, a, b).contains(entries[i].1@),
{
    scanned(entries, a, b, entries[i].1@);
}

} // verus!
