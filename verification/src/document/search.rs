//! The search by halves for a key among the fields of a document.
use vstd::prelude::*;

use crate::document::value::Val;
use crate::order::Order;
use crate::sorted_map::{
    ascending, ascending_entry, entries_map, key_lt, key_order, key_order_total, key_order_trans,
};

verus! {

/// Where a search by halves ends that goes on among the `size` fields from `base` on.
pub open spec fn halved(fields: Seq<(Seq<char>, Val)>, base: int, size: int, key: Seq<char>) -> int
    decreases size,
{
    if size <= 1 {
        base
    } else {
        let half = size / 2;
        halved(
            fields,
            if key_order::<String>(fields[base + half].0, key) == Order::Greater {
                base
            } else {
                base + half
            },
            size - half,
            key,
        )
    }
}

/// What a search by halves finds: where a key stands, or else where it would be put. Only
/// where the keys ascend does it find every key.
pub open spec fn sought(fields: Seq<(Seq<char>, Val)>, key: Seq<char>) -> Result<int, int> {
    if fields.len() == 0 {
        Err(0)
    } else {
        let at = halved(fields, 0, fields.len() as int, key);
        match key_order::<String>(fields[at].0, key) {
            Order::Equal => Ok(at),
            Order::Less => Err(at + 1),
            Order::Greater => Err(at),
        }
    }
}

/// A search looks at nothing but the keys.
proof fn halved_by_keys(a: Seq<(Seq<char>, Val)>, b: Seq<(Seq<char>, Val)>, base: int, size: int, key: Seq<char>)
    requires
        a.len() == b.len(),
        forall|i: int| 0 <= i < a.len() ==> (#[trigger] a[i]).0 == b[i].0,
        0 <= base,
        base + size <= a.len(),
    ensures
        halved(a, base, size, key) == halved(b, base, size, key),
    decreases size,
{
    if size > 1 {
        let half = size / 2;
        assert(a[base + half].0 == b[base + half].0);
        if key_order::<String>(a[base + half].0, key) == Order::Greater {
            halved_by_keys(a, b, base, size - half, key);
        } else {
            halved_by_keys(a, b, base + half, size - half, key);
        }
    }
}

/// What a search finds depends on the keys alone.
pub proof fn sought_by_keys(a: Seq<(Seq<char>, Val)>, b: Seq<(Seq<char>, Val)>, key: Seq<char>)
    requires
        a.len() == b.len(),
        forall|i: int| 0 <= i < a.len() ==> (#[trigger] a[i]).0 == b[i].0,
    ensures
        sought(a, key) == sought(b, key),
        sought(a, key) matches Ok(i) ==> 0 <= i < a.len(),
{
    if a.len() > 0 {
        halved_by_keys(a, b, 0, a.len() as int, key);
        halved_inside(a, 0, a.len() as int, key);
        assert(a[halved(a, 0, a.len() as int, key)].0 == b[halved(a, 0, a.len() as int, key)].0);
    }
}

/// A search ends among the fields that it goes over.
pub proof fn halved_inside(fields: Seq<(Seq<char>, Val)>, base: int, size: int, key: Seq<char>)
    requires
        1 <= size,
    ensures
        base <= halved(fields, base, size, key) < base + size,
    decreases size,
{
    if size > 1 {
        let half = size / 2;
        if key_order::<String>(fields[base + half].0, key) == Order::Greater {
            halved_inside(fields, base, size - half, key);
        } else {
            halved_inside(fields, base + half, size - half, key);
        }
    }
}

/// Whatever the order of the fields, what is found is a field with the key, and what is not
/// found has a place among them.
pub proof fn sought_is_there(fields: Seq<(Seq<char>, Val)>, key: Seq<char>)
    ensures
        match sought(fields, key) {
            Ok(i) => 0 <= i < fields.len() && fields[i].0 == key,
            Err(i) => 0 <= i <= fields.len(),
        },
{
    if fields.len() > 0 {
        halved_inside(fields, 0, fields.len() as int, key);
        key_order_total::<String>(fields[halved(fields, 0, fields.len() as int, key)].0, key);
    }
}

/// Among ascending keys a search keeps the place between those that are too small and those
/// that are too great.
proof fn halved_between(fields: Seq<(Seq<char>, Val)>, base: int, size: int, key: Seq<char>)
    requires
        ascending::<String, Val>(fields),
        0 <= base,
        1 <= size,
        base + size <= fields.len(),
        forall|j: int| 0 <= j < base ==> key_lt::<String>(#[trigger] fields[j].0, key),
        forall|j: int| base + size <= j < fields.len() ==> key_lt::<String>(key, #[trigger] fields[j].0),
    ensures
        ({
            let at = halved(fields, base, size, key);
            &&& 0 <= at < fields.len()
            &&& forall|j: int| 0 <= j < at ==> key_lt::<String>(#[trigger] fields[j].0, key)
            &&& forall|j: int| at < j < fields.len() ==> key_lt::<String>(key, #[trigger] fields[j].0)
        }),
    decreases size,
{
    if size > 1 {
        let half = size / 2;
        let mid = base + half;
        key_order_total::<String>(fields[mid].0, key);
        if key_order::<String>(fields[mid].0, key) == Order::Greater {
            assert forall|j: int| base + size - half <= j < fields.len() implies key_lt::<String>(
                key,
                #[trigger] fields[j].0,
            ) by {
                if mid < j {
                    assert(key_lt::<String>(fields[mid].0, fields[j].0));
                    key_order_trans::<String>(key, fields[mid].0, fields[j].0);
                }
            }
            halved_between(fields, base, size - half, key);
        } else {
            assert forall|j: int| 0 <= j < mid implies key_lt::<String>(#[trigger] fields[j].0, key) by {
                assert(key_lt::<String>(fields[j].0, fields[mid].0));
                if fields[mid].0 != key {
                    key_order_trans::<String>(fields[j].0, fields[mid].0, key);
                }
            }
            halved_between(fields, mid, size - half, key);
        }
    }
}

/// Among ascending keys a search finds every key, and nothing else.
pub proof fn sought_in_order(fields: Seq<(Seq<char>, Val)>, key: Seq<char>)
    requires
        ascending::<String, Val>(fields),
    ensures
        match sought(fields, key) {
            Ok(i) => {
                &&& 0 <= i < fields.len()
                &&& fields[i].0 == key
                &&& entries_map(fields).contains_key(key)
                &&& entries_map(fields)[key] == fields[i].1
            },
            Err(i) => {
                &&& 0 <= i <= fields.len()
                &&& !entries_map(fields).contains_key(key)
                &&& forall|j: int| 0 <= j < i ==> key_lt::<String>(#[trigger] fields[j].0, key)
                &&& forall|j: int| i <= j < fields.len() ==> key_lt::<String>(key, #[trigger] fields[j].0)
            },
        },
{
    sought_is_there(fields, key);
    if fields.len() > 0 {
        halved_between(fields, 0, fields.len() as int, key);
        let at = halved(fields, 0, fields.len() as int, key);
        key_order_total::<String>(fields[at].0, key);
        match sought(fields, key) {
            Ok(i) => {
                ascending_entry::<String, Val>(fields, i);
            },
            Err(_) => {
                assert forall|j: int| 0 <= j < fields.len() implies #[trigger] fields[j].0 != key by {
                    key_order_total::<String>(key, key);
                }
            },
        }
    }
}

} // verus!
