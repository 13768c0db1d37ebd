//! Texts in order.
use vstd::prelude::*;

use crate::document::firelite_doc::names_view;
use crate::order::Order;
use crate::sorted_map::{key_lt, key_order, key_order_total, key_order_trans};
use crate::text::compare_text;

verus! {

/// No text stands behind one that comes after it.
pub open spec fn in_order(s: Seq<Seq<char>>) -> bool {
    forall|i: int, j: int|
        #![trigger s[i], s[j]]
        0 <= i < j < s.len() ==> key_order::<String>(s[i], s[j]) != Order::Greater
}

/// `r` holds the texts of `s` in order, each as often as `s` does.
pub open spec fn sorted_from(r: Seq<Seq<char>>, s: Seq<Seq<char>>) -> bool {
    in_order(r) && r.to_multiset() == s.to_multiset()
}

/// What is in order is nothing else.
pub proof fn sorted_holds(r: Seq<Seq<char>>, s: Seq<Seq<char>>, x: Seq<char>)
    requires
        sorted_from(r, s),
    ensures
        r.contains(x) == s.contains(x),
        r.len() == s.len(),
{
    broadcast use vstd::seq_lib::group_to_multiset_ensures;

    assert(r.to_multiset().count(x) == s.to_multiset().count(x));
    assert(r.to_multiset().len() == s.to_multiset().len());
}

/// If `b` does not come before `a`, nor `c` before `b`, then `c` does not come before `a`.
proof fn order_chain(a: Seq<char>, b: Seq<char>, c: Seq<char>)
    requires
        key_order::<String>(a, b) != Order::Greater,
        key_order::<String>(b, c) != Order::Greater,
    ensures
        key_order::<String>(a, c) != Order::Greater,
{
    key_order_total::<String>(a, b);
    key_order_total::<String>(b, c);
    if a != b && b != c {
        key_order_trans::<String>(a, b, c);
    }
}

/// The texts in order.
pub fn sort_texts(v: &Vec<String>) -> (r: Vec<String>)
    ensures
        sorted_from(names_view(r@), names_view(v@)),
{
    let ghost s = names_view(v@);
    let mut r: Vec<String> = Vec::new();
    let mut i: usize = 0;
    proof {
        assert(s.take(0) =~= names_view(r@));
    }
    while i < v.len()
        invariant
            s == names_view(v@),
            i <= v@.len(),
            r@.len() == i,
            sorted_from(names_view(r@), s.take(i as int)),
        decreases v@.len() - i,
    {
        let ghost before = names_view(r@);
        let ghost x = v@[i as int]@;
        let mut at: usize = r.len();
        while at > 0 && is_greater(r[at - 1].as_str(), v[i].as_str())
            invariant
                at <= r@.len(),
                before == names_view(r@),
                in_order(before),
                i < v@.len(),
                x == v@[i as int]@,
                forall|k: int| at <= k < before.len() ==> key_order::<String>(#[trigger] before[k], x) == Order::Greater,
            decreases at,
        {
            proof {
                assert(before[at - 1] == r@[at - 1]@);
            }
            at = at - 1;
        }
        r.insert(at, v[i].clone());
        proof {
            let now = names_view(r@);
            assert(now =~= before.insert(at as int, x));
            vstd::seq_lib::to_multiset_insert(before, at as int, x);
            assert(s.take(i + 1) =~= s.take(i as int).push(x));
            vstd::seq_lib::to_multiset_build(s.take(i as int), x);
            assert forall|a: int, b: int| #![trigger now[a], now[b]] 0 <= a < b < now.len() implies key_order::<String>(
                now[a],
                now[b],
            ) != Order::Greater by {
                if a < at && b == at {
                    assert(now[a] == before[a]);
                    if a < at - 1 {
                        assert(key_order::<String>(before[a], before[at - 1]) != Order::Greater);
                        order_chain(before[a], before[at - 1], x);
                    }
                } else if a == at {
                    assert(now[b] == before[b - 1]);
                    assert(key_order::<String>(before[b - 1], x) == Order::Greater);
                    key_order_total::<String>(before[b - 1], x);
                } else if a < at {
                    if b < at {
                        assert(now[a] == before[a] && now[b] == before[b]);
                    } else {
                        assert(now[a] == before[a] && now[b] == before[b - 1]);
                    }
                } else {
                    assert(now[a] == before[a - 1] && now[b] == before[b - 1]);
                }
            }
        }
        i = i + 1;
    }
    proof {
        assert(s.take(i as int) =~= s);
    }
    r
}

/// Whether a text comes after another.
pub fn is_greater(a: &str, b: &str) -> (r: bool)
    ensures
        r == (key_order::<String>(a@, b@) == Order::Greater),
{
    match compare_text(a, b) {
        Order::Greater => true,
        _ => false,
    }
}

/// Of texts in order none comes before one that stands ahead of it, and each is there as often as
/// it was before.
pub proof fn sorted_stands_in_order(r: Seq<Seq<char>>, s: Seq<Seq<char>>, i: int, j: int, x: Seq<char>)
    requires
        sorted_from(r, s),
        0 <= i < j < r.len(),
    ensures
        !key_lt::<String>(r[j], r[i]),
        r.to_multiset().count(x) == s.to_multiset().count(x),
{
    key_order_total::<String>(r[i], r[j]);
}

} // verus!
