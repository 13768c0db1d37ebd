//! What the keys of composite indexes keep apart and in order, and what the indexes hold.
use vstd::prelude::*;
use vstd::utf8::encode_utf8;

use crate::composite::composite_index::{field_values, CompositeIndex};
use crate::composite::composite_matcher::serves;
use crate::composite::composite_planner::first_serving;
use crate::composite::definition::{Definition, SortDirection};
use crate::composite::key_encoder::{composite_key, directed, value_key, values_key};
use crate::composite::manager::{all_changed, changed};
use crate::composite::range_builder::{range_parts, range_start};
use crate::document::firelite_doc::Doc;
use crate::document::format::short_text;
use crate::document::value::Val;
use crate::index::composite::key_encoder::{be_order, lex_extend};
use crate::order::{byte_codes, lex, lex_common_head, Order};
use crate::query::Filter;
use crate::text::encode_utf8_injective;
use crate::util::fixed::{be_bytes, be_round_trip, be_value, i64_bits, pow256_values};

verus! {

/// Whether a value has a key of its own: a number, or a text whose length fits.
pub open spec fn has_key(v: Val) -> bool {
    match v {
        Val::Int(_) => true,
        Val::Float(_) => true,
        Val::String(s) => encode_utf8(s).len() < 0x1_0000,
        _ => false,
    }
}

proof fn numbers_in_order(x: u64, y: u64, tag: u8, direction: SortDirection, u: Seq<u8>, v: Seq<u8>)
    requires
        x < y,
    ensures
        lex(
            byte_codes(seq![tag] + directed(direction, be_bytes(x as nat, 8)) + u),
            byte_codes(seq![tag] + directed(direction, be_bytes(y as nat, 8)) + v),
        ) == (match direction {
            SortDirection::Asc => Order::Less,
            SortDirection::Desc => Order::Greater,
        }),
{
    pow256_values();
    be_order(x as nat, y as nat, 8);
    be_round_trip(x as nat, 8);
    be_round_trip(y as nat, 8);
    let (a, b) = (be_bytes(x as nat, 8), be_bytes(y as nat, 8));
    let d = crate::index::composite::definition::SortDirection::Desc;
    assert(directed(SortDirection::Desc, a) =~= crate::index::composite::key_encoder::directed(d, a));
    assert(directed(SortDirection::Desc, b) =~= crate::index::composite::key_encoder::directed(d, b));
    let p = byte_codes(directed(direction, a));
    let q = byte_codes(directed(direction, b));
    lex_extend(p, q, byte_codes(u), byte_codes(v));
    let t = seq![tag as int];
    lex_common_head(t, p + byte_codes(u), q + byte_codes(v));
    assert(byte_codes(seq![tag] + directed(direction, a) + u) =~= t + (p + byte_codes(u)));
    assert(byte_codes(seq![tag] + directed(direction, b) + v) =~= t + (q + byte_codes(v)));
}

/// Integers of one sign stand in the order of their direction, whatever follows their keys.
pub proof fn integer_keys_in_order(a: i64, b: i64, direction: SortDirection, u: Seq<u8>, v: Seq<u8>)
    requires
        a < b,
        a >= 0 || b < 0,
    ensures
        lex(
            byte_codes(value_key(Val::Int(a), direction) + u),
            byte_codes(value_key(Val::Int(b), direction) + v),
        ) == (match direction {
            SortDirection::Asc => Order::Less,
            SortDirection::Desc => Order::Greater,
        }),
{
    assert((a as u64) < (b as u64)) by (bit_vector)
        requires
            a < b,
            a >= 0 || b < 0,
    ;
    numbers_in_order(a as u64, b as u64, 1u8, direction, u, v);
}

/// Floating-point numbers stand in the order of their bits and their direction, whatever
/// follows their keys.
pub proof fn float_keys_in_order(x: u64, y: u64, direction: SortDirection, u: Seq<u8>, v: Seq<u8>)
    requires
        x < y,
    ensures
        lex(
            byte_codes(value_key(Val::Float(x), direction) + u),
            byte_codes(value_key(Val::Float(y), direction) + v),
        ) == (match direction {
            SortDirection::Asc => Order::Less,
            SortDirection::Desc => Order::Greater,
        }),
{
    numbers_in_order(x, y, 2u8, direction, u, v);
}

/// Integers stand before floating-point numbers and these before texts, in either direction and
/// whatever follows their keys.
pub proof fn kinds_of_keys_in_order(
    i: i64,
    f: u64,
    s: Seq<char>,
    d: SortDirection,
    e: SortDirection,
    u: Seq<u8>,
    v: Seq<u8>,
)
    ensures
        lex(byte_codes(value_key(Val::Int(i), d) + u), byte_codes(value_key(Val::Float(f), e) + v)) == Order::Less,
        lex(byte_codes(value_key(Val::Float(f), d) + u), byte_codes(value_key(Val::String(s), e) + v)) == Order::Less,
{
    assert(byte_codes(value_key(Val::Int(i), d) + u)[0] == 1);
    assert(byte_codes(value_key(Val::Float(f), e) + v)[0] == 2);
    assert(byte_codes(value_key(Val::Float(f), d) + u)[0] == 2);
    assert(byte_codes(value_key(Val::String(s), e) + v)[0] == 3);
}

proof fn directed_decides(direction: SortDirection, a: Seq<u8>, b: Seq<u8>)
    requires
        directed(direction, a) == directed(direction, b),
    ensures
        a == b,
{
    if direction is Desc {
        let (x, y) = (directed(direction, a), directed(direction, b));
        assert(a.len() == x.len() && b.len() == y.len());
        assert forall|i: int| 0 <= i < a.len() implies a[i] == b[i] by {
            assert(x[i] == (255 - a[i]) as u8);
            assert(y[i] == (255 - b[i]) as u8);
        }
        assert(a =~= b);
    }
}

/// The key of a value tells the value, and where what follows it begins.
pub proof fn key_tells_value(a: Val, b: Val, direction: SortDirection, u: Seq<u8>, v: Seq<u8>)
    requires
        has_key(a),
        has_key(b),
        value_key(a, direction) + u == value_key(b, direction) + v,
    ensures
        a == b,
        u == v,
{
    let (k, l) = (value_key(a, direction), value_key(b, direction));
    let s = k + u;
    assert(s[0] == k[0] && s[0] == l[0]);
    pow256_values();
    match (a, b) {
        (Val::Int(i), Val::Int(j)) => {
            be_round_trip((i as u64) as nat, 8);
            be_round_trip((j as u64) as nat, 8);
            assert(s.subrange(1, 9) =~= directed(direction, be_bytes((i as u64) as nat, 8)));
            assert((l + v).subrange(1, 9) =~= directed(direction, be_bytes((j as u64) as nat, 8)));
            directed_decides(direction, be_bytes((i as u64) as nat, 8), be_bytes((j as u64) as nat, 8));
            i64_bits(i, 0);
            i64_bits(j, 0);
            assert(s.skip(9) =~= u);
            assert((l + v).skip(9) =~= v);
        },
        (Val::Float(i), Val::Float(j)) => {
            be_round_trip(i as nat, 8);
            be_round_trip(j as nat, 8);
            assert(s.subrange(1, 9) =~= directed(direction, be_bytes(i as nat, 8)));
            assert((l + v).subrange(1, 9) =~= directed(direction, be_bytes(j as nat, 8)));
            directed_decides(direction, be_bytes(i as nat, 8), be_bytes(j as nat, 8));
            assert(s.skip(9) =~= u);
            assert((l + v).skip(9) =~= v);
        },
        (Val::String(x), Val::String(y)) => {
            let (p, q) = (encode_utf8(x), encode_utf8(y));
            be_round_trip(p.len(), 2);
            be_round_trip(q.len(), 2);
            assert(s.subrange(1, 3) =~= be_bytes(p.len(), 2));
            assert((l + v).subrange(1, 3) =~= be_bytes(q.len(), 2));
            assert(p.len() == q.len());
            let n = 3 + p.len() as int;
            assert(s.subrange(3, n) =~= directed(direction, p));
            assert((l + v).subrange(3, n) =~= directed(direction, q));
            directed_decides(direction, p, q);
            encode_utf8_injective(x, y);
            assert(s.skip(n) =~= u);
            assert((l + v).skip(n) =~= v);
        },
        _ => {},
    }
}

proof fn values_tell(
    a: Seq<Val>,
    b: Seq<Val>,
    columns: Seq<(Seq<char>, SortDirection)>,
    from: nat,
    u: Seq<u8>,
    v: Seq<u8>,
    n: nat,
)
    requires
        from <= n,
        n <= a.len(),
        n <= b.len(),
        n <= columns.len(),
        forall|i: int| 0 <= i < n ==> has_key(#[trigger] a[i]) && has_key(b[i]),
        forall|i: int| 0 <= i < from ==> #[trigger] a[i] == b[i],
        values_key(a, columns, n) + u == values_key(b, columns, n) + v,
    ensures
        forall|i: int| 0 <= i < n ==> #[trigger] a[i] == b[i],
        u == v,
    decreases n - from,
{
    if from == n {
        same_values(a, b, columns, n);
        let k = values_key(a, columns, n);
        assert((k + u).skip(k.len() as int) =~= u);
        assert((k + v).skip(k.len() as int) =~= v);
    } else {
        same_values(a, b, columns, from);
        let h = values_key(a, columns, from);
        parts(a, columns, from, n);
        parts(b, columns, from, n);
        let (x, y) = (value_key(a[from as int], columns[from as int].1), value_key(b[from as int], columns[from as int].1));
        let (p, q) = (
            behind(a, columns, from + 1, n) + u,
            behind(b, columns, from + 1, n) + v,
        );
        assert(values_key(a, columns, n) + u =~= h + (x + p));
        assert(values_key(b, columns, n) + v =~= h + (y + q));
        assert((h + (x + p)).skip(h.len() as int) =~= x + p);
        assert((h + (y + q)).skip(h.len() as int) =~= y + q);
        assert(has_key(a[from as int]) && has_key(b[from as int]));
        key_tells_value(a[from as int], b[from as int], columns[from as int].1, p, q);
        values_tell(a, b, columns, from + 1, u, v, n);
    }
}

/// The keys of values from one place on.
spec fn behind(a: Seq<Val>, columns: Seq<(Seq<char>, SortDirection)>, from: nat, n: nat) -> Seq<u8>
    decreases n,
{
    if n <= from {
        Seq::empty()
    } else {
        behind(a, columns, from, (n - 1) as nat) + value_key(a[n - 1], columns[n - 1].1)
    }
}

proof fn parts(a: Seq<Val>, columns: Seq<(Seq<char>, SortDirection)>, from: nat, n: nat)
    requires
        from < n,
    ensures
        values_key(a, columns, n) == values_key(a, columns, from) + value_key(a[from as int], columns[from as int].1)
            + behind(a, columns, from + 1, n),
    decreases n,
{
    if n == from + 1 {
        assert(values_key(a, columns, n) + behind(a, columns, from + 1, n) =~= values_key(a, columns, n));
    } else {
        parts(a, columns, from, (n - 1) as nat);
        assert(values_key(a, columns, n) =~= values_key(a, columns, from) + value_key(
            a[from as int],
            columns[from as int].1,
        ) + behind(a, columns, from + 1, n));
    }
}

proof fn same_values(a: Seq<Val>, b: Seq<Val>, columns: Seq<(Seq<char>, SortDirection)>, n: nat)
    requires
        forall|i: int| 0 <= i < n ==> #[trigger] a[i] == b[i],
    ensures
        values_key(a, columns, n) == values_key(b, columns, n),
    decreases n,
{
    if n > 0 {
        same_values(a, b, columns, (n - 1) as nat);
        assert(a[n - 1] == b[n - 1]);
    }
}

/// Documents with the same key have the same values in the columns of the index, and the same
/// id.
pub proof fn keys_tell_documents(d: Definition, a: Seq<Val>, b: Seq<Val>, x: Seq<char>, y: Seq<char>)
    requires
        a.len() == d.columns.len(),
        b.len() == d.columns.len(),
        forall|i: int| 0 <= i < a.len() ==> has_key(#[trigger] a[i]) && has_key(b[i]),
        composite_key(d, a, x) == composite_key(d, b, y),
    ensures
        a == b,
        x == y,
{
    pow256_values();
    be_round_trip(d.collection_id as nat, 4);
    let n = d.columns.len();
    let h = be_bytes(d.collection_id as nat, 4);
    let (p, q) = (values_key(a, d.columns, n), values_key(b, d.columns, n));
    let (u, v) = (short_text(x), short_text(y));
    assert(composite_key(d, a, x) =~= h + (p + u));
    assert(composite_key(d, b, y) =~= h + (q + v));
    assert((h + (p + u)).skip(4) =~= p + u);
    assert((h + (q + v)).skip(4) =~= q + v);
    values_tell(a, b, d.columns, 0, u, v, n);
    assert(a =~= b);
    assert(u.skip(1) =~= encode_utf8(x));
    assert(v.skip(1) =~= encode_utf8(y));
    encode_utf8_injective(x, y);
}

/// A key begins with the number of the collection of its index.
pub proof fn key_tells_collection(d: Definition, values: Seq<Val>, id: Seq<char>)
    ensures
        be_value(composite_key(d, values, id).subrange(0, 4)) == d.collection_id,
        be_value(range_start(d, values).subrange(0, 4)) == d.collection_id,
{
    pow256_values();
    be_round_trip(d.collection_id as nat, 4);
    assert(composite_key(d, values, id).subrange(0, 4) =~= be_bytes(d.collection_id as nat, 4));
    assert(range_start(d, values).subrange(0, 4) =~= be_bytes(d.collection_id as nat, 4));
}

/// An index takes from a document what it holds under the name of each column, in the order of
/// the columns, and the document stands in it exactly when it has them all.
pub proof fn values_are_of_fields(columns: Seq<(Seq<char>, SortDirection)>, doc: Doc)
    ensures
        field_values(columns, doc) is Some <==> forall|i: int|
            0 <= i < columns.len() ==> doc.map().contains_key((#[trigger] columns[i]).0),
        field_values(columns, doc) matches Some(vs) ==> vs.len() == columns.len() && forall|i: int|
            0 <= i < vs.len() ==> #[trigger] vs[i] == doc.map()[columns[i].0],
    decreases columns.len(),
{
    if columns.len() > 0 {
        let pre = columns.drop_last();
        let n = columns.len() - 1;
        values_are_of_fields(pre, doc);
        assert(columns[n] == columns.last());
        if forall|i: int| 0 <= i < columns.len() ==> doc.map().contains_key((#[trigger] columns[i]).0) {
            assert forall|i: int| 0 <= i < pre.len() implies doc.map().contains_key((#[trigger] pre[i]).0) by {
                assert(pre[i] == columns[i]);
            }
            assert(doc.map().contains_key(columns[n].0));
        }
        if field_values(columns, doc) is Some {
            assert forall|i: int| 0 <= i < columns.len() implies doc.map().contains_key((#[trigger] columns[i]).0) by {
                if i < n {
                    assert(pre[i] == columns[i]);
                }
            }
            let vs = field_values(columns, doc)->Some_0;
            assert forall|i: int| 0 <= i < vs.len() implies #[trigger] vs[i] == doc.map()[columns[i].0] by {
                if i < n {
                    assert(pre[i] == columns[i]);
                }
            }
        }
    }
}

/// A document that is put into the indexes of a collection stands in each under its key, where
/// it has all fields, and one that is taken out does not; every other key keeps what it had,
/// and no index changes what it is about.
pub proof fn documents_come_and_go(
    a: Seq<CompositeIndex>,
    b: Seq<CompositeIndex>,
    put: bool,
    id: Seq<char>,
    doc: Doc,
    i: int,
    other: Seq<u8>,
)
    requires
        all_changed(a, b, put, id, doc),
        0 <= i < a.len(),
    ensures
        b.len() == a.len(),
        b[i].definition == a[i].definition,
        field_values(a[i].definition@.columns, doc) matches Some(vs) ==> {
            let k = composite_key(a[i].definition@, vs, id);
            &&& put ==> b[i].entries().contains_key(k) && b[i].entries()[k] == id
            &&& !put ==> !b[i].entries().contains_key(k)
            &&& other != k ==> b[i].entries().contains_key(other) == a[i].entries().contains_key(other) && (
            a[i].entries().contains_key(other) ==> b[i].entries()[other] == a[i].entries()[other])
        },
        field_values(a[i].definition@.columns, doc) is None ==> b[i].entries() == a[i].entries(),
{
    assert(changed(a[i], b[i], put, id, doc));
}

/// Whether the filters of a query are on the first fields of an index, in their order.
pub open spec fn filters_lead(x: CompositeIndex, filters: Seq<Filter>) -> bool {
    &&& filters.len() <= x.definition.fields@.len()
    &&& forall|i: int| 0 <= i < filters.len() ==> (#[trigger] filters[i]).field@ == x.definition.fields@[i].field@
}

/// A query is served by the first index whose first fields its filters are on, and by none
/// exactly where there is no such index.
pub proof fn first_index_serves(list: Seq<CompositeIndex>, filters: Seq<Filter>)
    ensures
        match first_serving(list, filters) {
            Some(x) => exists|k: int|
                0 <= k < list.len() && #[trigger] list[k] == x && filters_lead(x, filters) && forall|j: int|
                    0 <= j < k ==> !filters_lead(#[trigger] list[j], filters),
            None => forall|k: int| 0 <= k < list.len() ==> !filters_lead(#[trigger] list[k], filters),
        },
    decreases list.len(),
{
    if list.len() > 0 {
        let x = list[0];
        let d = x.definition@;
        assert(d.columns.len() == x.definition.fields@.len());
        assert(filters_lead(x, filters) == serves(filters, d));
        let t = list.drop_first();
        first_index_serves(t, filters);
        if !filters_lead(x, filters) {
            match first_serving(t, filters) {
                Some(y) => {
                    let k = choose|k: int|
                        0 <= k < t.len() && #[trigger] t[k] == y && filters_lead(y, filters) && forall|j: int|
                            0 <= j < k ==> !filters_lead(#[trigger] t[j], filters);
                    assert(list[k + 1] == y);
                    assert forall|j: int| 0 <= j < k + 1 implies !filters_lead(#[trigger] list[j], filters) by {
                        if j > 0 {
                            assert(t[j - 1] == list[j]);
                        }
                    }
                },
                None => {
                    assert forall|k: int| 0 <= k < list.len() implies !filters_lead(#[trigger] list[k], filters) by {
                        if k > 0 {
                            assert(t[k - 1] == list[k]);
                        }
                    }
                },
            }
        }
    }
}

/// The range of integers begins every key that holds them first, in columns that ascend.
pub proof fn range_begins_keys(d: Definition, values: Seq<Val>, more: Seq<Val>, id: Seq<char>)
    requires
        values.len() + more.len() <= d.columns.len(),
        forall|i: int| 0 <= i < values.len() ==> (#[trigger] values[i]) is Int && d.columns[i].1 is Asc,
    ensures
        range_start(d, values).is_prefix_of(composite_key(d, values + more, id)),
{
    let all = values + more;
    let (m, n) = (values.len(), all.len());
    range_is_of_values(d, values, more, m);
    assert(values.take(m as int) =~= values);
    let h = be_bytes(d.collection_id as nat, 4);
    let k = composite_key(d, all, id);
    let r = range_start(d, values);
    if m < n {
        parts(all, d.columns, m, n);
    }
    assert(values_key(all, d.columns, m).is_prefix_of(values_key(all, d.columns, n))) by {
        if m < n {
            let x = values_key(all, d.columns, m);
            assert(values_key(all, d.columns, n).subrange(0, x.len() as int) =~= x);
        } else {
            let x = values_key(all, d.columns, m);
            assert(x.subrange(0, x.len() as int) =~= x);
        }
    }
    assert(k.subrange(0, r.len() as int) =~= r);
}

proof fn range_is_of_values(d: Definition, values: Seq<Val>, more: Seq<Val>, m: nat)
    requires
        m <= values.len(),
        values.len() + more.len() <= d.columns.len(),
        forall|i: int| 0 <= i < values.len() ==> (#[trigger] values[i]) is Int && d.columns[i].1 is Asc,
    ensures
        range_parts(values.take(m as int)) == values_key(values + more, d.columns, m),
    decreases m,
{
    let t = values.take(m as int);
    if m > 0 {
        range_is_of_values(d, values, more, (m - 1) as nat);
        assert(t.drop_last() =~= values.take(m - 1));
        assert(t.last() == values[m - 1]);
        assert((values + more)[m - 1] == values[m - 1]);
        assert(values[m - 1] is Int && d.columns[m - 1].1 is Asc);
    }
}

} // verus!
