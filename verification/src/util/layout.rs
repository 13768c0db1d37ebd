//! Values laid out in bytes one behind the other: texts and lists behind their lengths.
use vstd::prelude::*;
use vstd::utf8::encode_utf8;

use crate::text::encode_utf8_injective;
use crate::util::fixed::{le_bytes, le_round_trip, pow256};

verus! {

/// Bytes behind their length of eight bytes.
pub open spec fn long_bytes(b: Seq<u8>) -> Seq<u8> {
    le_bytes(b.len(), 8) + b
}

/// A text behind its length of eight bytes.
pub open spec fn long_text(s: Seq<char>) -> Seq<u8> {
    long_bytes(encode_utf8(s))
}

/// How bytes are laid out.
pub open spec fn of_bytes() -> spec_fn(Seq<u8>) -> Seq<u8> {
    |b: Seq<u8>| long_bytes(b)
}

/// How a text is laid out.
pub open spec fn of_text() -> spec_fn(Seq<char>) -> Seq<u8> {
    |s: Seq<char>| long_text(s)
}

/// Things one behind the other, each laid out by `f`.
pub open spec fn joined<A>(s: Seq<A>, f: spec_fn(A) -> Seq<u8>) -> Seq<u8>
    decreases s.len(),
{
    if s.len() == 0 {
        Seq::empty()
    } else {
        f(s[0]) + joined(s.drop_first(), f)
    }
}

/// How a list of things is laid out: behind their number of eight bytes.
pub open spec fn in_list<A>(f: spec_fn(A) -> Seq<u8>) -> spec_fn(Seq<A>) -> Seq<u8> {
    |s: Seq<A>| le_bytes(s.len(), 8) + joined(s, f)
}

/// How a pair of things is laid out: the second behind the first.
pub open spec fn in_pair<A, B>(f: spec_fn(A) -> Seq<u8>, g: spec_fn(B) -> Seq<u8>) -> spec_fn((A, B)) -> Seq<u8> {
    |p: (A, B)| f(p.0) + g(p.1)
}

/// Bytes begin with no more than one thing.
pub open spec fn begins_once<A>(f: spec_fn(A) -> Seq<u8>) -> bool {
    forall|s: Seq<u8>, x: A, y: A| #![trigger f(x).is_prefix_of(s), f(y).is_prefix_of(s)]
        s.len() < pow256(8) && f(x).is_prefix_of(s) && f(y).is_prefix_of(s) ==> x == y
}

/// Nothing is laid out in no bytes.
pub open spec fn takes_room<A>(f: spec_fn(A) -> Seq<u8>) -> bool {
    forall|x: A| (#[trigger] f(x)).len() > 0
}

/// What follows a beginning, where more was at the beginning.
pub proof fn behind(s: Seq<u8>, a: Seq<u8>, b: Seq<u8>)
    requires
        (a + b).is_prefix_of(s),
    ensures
        a.is_prefix_of(s),
        b.is_prefix_of(s.skip(a.len() as int)),
{
    let n = (a + b).len() as int;
    assert(s.take(n) =~= a + b);
    assert(a =~= s.take(a.len() as int));
    let t = s.skip(a.len() as int).take(b.len() as int);
    assert forall|i: int| 0 <= i < b.len() implies #[trigger] t[i] == b[i] by {
        assert(s.take(n)[a.len() + i] == (a + b)[a.len() + i]);
    }
    assert(b =~= t);
}

/// Bytes begin with no more than one number of eight bytes.
proof fn one_number(s: Seq<u8>, m: nat, n: nat)
    requires
        m < pow256(8),
        n < pow256(8),
        le_bytes(m, 8).is_prefix_of(s),
        le_bytes(n, 8).is_prefix_of(s),
    ensures
        m == n,
{
    le_round_trip(m, 8);
    le_round_trip(n, 8);
    assert(le_bytes(m, 8) =~= s.take(8));
    assert(le_bytes(n, 8) =~= s.take(8));
}

/// Bytes begin with no more than one run of bytes behind its length.
proof fn one_run(s: Seq<u8>, a: Seq<u8>, b: Seq<u8>)
    requires
        s.len() < pow256(8),
        long_bytes(a).is_prefix_of(s),
        long_bytes(b).is_prefix_of(s),
    ensures
        a == b,
        long_bytes(a).len() == 8 + a.len(),
{
    le_round_trip(a.len(), 8);
    le_round_trip(b.len(), 8);
    behind(s, le_bytes(a.len(), 8), a);
    behind(s, le_bytes(b.len(), 8), b);
    one_number(s, a.len(), b.len());
    assert(a =~= s.skip(8).take(a.len() as int));
    assert(b =~= s.skip(8).take(b.len() as int));
}

/// Bytes begin with no more than one text.
pub proof fn one_text(s: Seq<u8>, x: Seq<char>, y: Seq<char>)
    requires
        s.len() < pow256(8),
        long_text(x).is_prefix_of(s),
        long_text(y).is_prefix_of(s),
    ensures
        x == y,
        long_text(x).len() == 8 + encode_utf8(x).len(),
{
    one_run(s, encode_utf8(x), encode_utf8(y));
    encode_utf8_injective(x, y);
}

/// Pairs of things of which bytes begin with no more than one are such things.
pub proof fn pair_begins_once<A, B>(f: spec_fn(A) -> Seq<u8>, g: spec_fn(B) -> Seq<u8>)
    requires
        begins_once(f),
        begins_once(g),
        takes_room(f),
    ensures
        begins_once(in_pair(f, g)),
        takes_room(in_pair(f, g)),
{
    let h = in_pair(f, g);
    assert forall|s: Seq<u8>, x: (A, B), y: (A, B)| #![trigger h(x).is_prefix_of(s), h(y).is_prefix_of(s)]
        s.len() < pow256(8) && h(x).is_prefix_of(s) && h(y).is_prefix_of(s) implies x == y by {
        behind(s, f(x.0), g(x.1));
        behind(s, f(y.0), g(y.1));
        assert(x.0 == y.0);
        let t = s.skip(f(x.0).len() as int);
        assert(g(x.1).is_prefix_of(t) && g(y.1).is_prefix_of(t));
    }
    assert forall|x: (A, B)| (#[trigger] h(x)).len() > 0 by {
        assert(f(x.0).len() > 0);
    }
}

/// Things one behind the other take at least as many bytes as they are.
proof fn joined_is_long<A>(s: Seq<A>, f: spec_fn(A) -> Seq<u8>)
    requires
        takes_room(f),
    ensures
        joined(s, f).len() >= s.len(),
    decreases s.len(),
{
    if s.len() > 0 {
        assert(f(s[0]).len() > 0);
        joined_is_long(s.drop_first(), f);
    }
}

/// Bytes begin with no more than one row of things of a length.
proof fn one_row<A>(s: Seq<u8>, x: Seq<A>, y: Seq<A>, f: spec_fn(A) -> Seq<u8>)
    requires
        begins_once(f),
        s.len() < pow256(8),
        x.len() == y.len(),
        joined(x, f).is_prefix_of(s),
        joined(y, f).is_prefix_of(s),
    ensures
        x == y,
    decreases x.len(),
{
    if x.len() > 0 {
        behind(s, f(x[0]), joined(x.drop_first(), f));
        behind(s, f(y[0]), joined(y.drop_first(), f));
        assert(x[0] == y[0]);
        one_row(s.skip(f(x[0]).len() as int), x.drop_first(), y.drop_first(), f);
        assert(x =~= seq![x[0]] + x.drop_first());
        assert(y =~= seq![y[0]] + y.drop_first());
    } else {
        assert(x =~= y);
    }
}

/// Lists of things of which bytes begin with no more than one are such things.
pub proof fn list_begins_once<A>(f: spec_fn(A) -> Seq<u8>)
    requires
        begins_once(f),
        takes_room(f),
    ensures
        begins_once(in_list(f)),
        takes_room(in_list(f)),
{
    let h = in_list(f);
    assert forall|s: Seq<u8>, x: Seq<A>, y: Seq<A>| #![trigger h(x).is_prefix_of(s), h(y).is_prefix_of(s)]
        s.len() < pow256(8) && h(x).is_prefix_of(s) && h(y).is_prefix_of(s) implies x == y by {
        le_round_trip(x.len(), 8);
        le_round_trip(y.len(), 8);
        behind(s, le_bytes(x.len(), 8), joined(x, f));
        behind(s, le_bytes(y.len(), 8), joined(y, f));
        joined_is_long(x, f);
        joined_is_long(y, f);
        one_number(s, x.len(), y.len());
        one_row(s.skip(8), x, y, f);
    }
    assert forall|x: Seq<A>| (#[trigger] h(x)).len() > 0 by {
        le_round_trip(x.len(), 8);
    }
}

/// Bytes begin with no more than one text, and with no more than one run of bytes.
pub proof fn texts_begin_once()
    ensures
        begins_once(of_text()),
        takes_room(of_text()),
        begins_once(of_bytes()),
        takes_room(of_bytes()),
{
    let f = of_text();
    let g = of_bytes();
    assert forall|s: Seq<u8>, x: Seq<char>, y: Seq<char>| #![trigger f(x).is_prefix_of(s), f(y).is_prefix_of(s)]
        s.len() < pow256(8) && f(x).is_prefix_of(s) && f(y).is_prefix_of(s) implies x == y by {
        one_text(s, x, y);
    }
    assert forall|x: Seq<char>| (#[trigger] f(x)).len() > 0 by {
        le_round_trip(encode_utf8(x).len(), 8);
    }
    assert forall|s: Seq<u8>, x: Seq<u8>, y: Seq<u8>| #![trigger g(x).is_prefix_of(s), g(y).is_prefix_of(s)]
        s.len() < pow256(8) && g(x).is_prefix_of(s) && g(y).is_prefix_of(s) implies x == y by {
        one_run(s, x, y);
    }
    assert forall|x: Seq<u8>| (#[trigger] g(x)).len() > 0 by {
        le_round_trip(x.len(), 8);
    }
}

} // verus!
