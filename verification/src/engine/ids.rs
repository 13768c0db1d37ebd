//! Ids that sort by the time at which they were made.
use vstd::prelude::*;
use vstd::string::*;

use crate::order::{char_codes, lex, lex_common_head, Order};
use crate::util::decimal::{digit, padded, push_padded};

verus! {

/// The id made at a time with a number: both in hexadecimal, 16 and 4 digits.
pub open spec fn sortable_id(nanos: i64, seq: u16) -> Seq<char> {
    padded((nanos as u64) as nat, 16, 16) + padded(seq as nat, 16, 4)
}

/// Makes an id from a time and a number.
pub fn generate_sortable_id(timestamp_nanos: i64, seq: u16) -> (s: String)
    ensures
        s@ == sortable_id(timestamp_nanos, seq),
{
    let mut s = String::new();
    push_padded(&mut s, timestamp_nanos as u64, 16, 16);
    push_padded(&mut s, seq as u64, 16, 4);
    proof {
        assert(s@ =~= sortable_id(timestamp_nanos, seq));
    }
    s
}

/// Digits of a larger number are larger in the first place where they differ.
proof fn padded_order(a: nat, b: nat, width: nat)
    requires
        a < b,
        b < pow16(width),
    ensures
        lex(char_codes(padded(a, 16, width)), char_codes(padded(b, 16, width))) == Order::Less,
        padded(a, 16, width).len() == width,
        padded(b, 16, width).len() == width,
    decreases width,
{
    if width == 0 {
        assert(false);
    } else {
        let w = (width - 1) as nat;
        let p = padded(a / 16, 16, w);
        let q = padded(b / 16, 16, w);
        padded_len(a / 16, w);
        padded_len(b / 16, w);
        let x = char_codes(padded(a, 16, width));
        let y = char_codes(padded(b, 16, width));
        if a / 16 < b / 16 {
            padded_order(a / 16, b / 16, w);
            lex_extends(char_codes(p), char_codes(q), seq![digit(a % 16) as int], seq![digit(b % 16) as int]);
            assert(x =~= char_codes(p) + seq![digit(a % 16) as int]);
            assert(y =~= char_codes(q) + seq![digit(b % 16) as int]);
        } else {
            assert(a / 16 == b / 16);
            lex_common_head(char_codes(p), seq![digit(a % 16) as int], seq![digit(b % 16) as int]);
            assert(x =~= char_codes(p) + seq![digit(a % 16) as int]);
            assert(y =~= char_codes(p) + seq![digit(b % 16) as int]);
        }
    }
}

/// The number of digits.
proof fn padded_len(n: nat, width: nat)
    ensures
        padded(n, 16, width).len() == width,
    decreases width,
{
    if width > 0 {
        padded_len(n / 16, (width - 1) as nat);
    }
}

/// What differs early differs the same with more behind it.
proof fn lex_extends(a: Seq<int>, b: Seq<int>, u: Seq<int>, v: Seq<int>)
    requires
        a.len() == b.len(),
        lex(a, b) == Order::Less,
    ensures
        lex(a + u, b + v) == Order::Less,
    decreases a.len(),
{
    if a.len() > 0 {
        assert((a + u).drop_first() =~= a.drop_first() + u);
        assert((b + v).drop_first() =~= b.drop_first() + v);
        if a[0] == b[0] {
            lex_extends(a.drop_first(), b.drop_first(), u, v);
        }
    }
}

/// How many numbers have a given number of hexadecimal digits.
pub open spec fn pow16(n: nat) -> nat
    decreases n,
{
    if n == 0 {
        1
    } else {
        16 * pow16((n - 1) as nat)
    }
}

/// Ids sort by the time at which they were made, and those of one time by their numbers.
pub proof fn ids_sort_by_time(t1: i64, s1: u16, t2: i64, s2: u16)
    requires
        0 <= t1,
        t1 < t2 || t1 == t2 && s1 < s2,
    ensures
        lex(char_codes(sortable_id(t1, s1)), char_codes(sortable_id(t2, s2))) == Order::Less,
{
    reveal_with_fuel(pow16, 17);
    let (p1, p2) = (padded((t1 as u64) as nat, 16, 16), padded((t2 as u64) as nat, 16, 16));
    let (q1, q2) = (padded(s1 as nat, 16, 4), padded(s2 as nat, 16, 4));
    assert(char_codes(p1 + q1) =~= char_codes(p1) + char_codes(q1));
    assert(char_codes(p2 + q2) =~= char_codes(p2) + char_codes(q2));
    if t1 < t2 {
        padded_order((t1 as u64) as nat, (t2 as u64) as nat, 16);
        lex_extends(char_codes(p1), char_codes(p2), char_codes(q1), char_codes(q2));
    } else {
        padded_order(s1 as nat, s2 as nat, 4);
        lex_common_head(char_codes(p1), char_codes(q1), char_codes(q2));
    }
}

/// The name of a collection inside a document.
pub open spec fn subcollection(doc_id: Seq<char>, name: Seq<char>) -> Seq<char> {
    doc_id + "/"@ + name
}

/// Collections inside different documents are different, whatever their names are, and so are
/// collections of different names inside one document: what stands before the first slash is
/// the id. None of them is a collection outside of documents, whose name has no slash.
pub proof fn subcollections_differ(x: Seq<char>, m: Seq<char>, y: Seq<char>, n: Seq<char>)
    requires
        !x.contains('/'),
        !y.contains('/'),
    ensures
        (x, m) != (y, n) ==> subcollection(x, m) != subcollection(y, n),
        subcollection(x, m).contains('/'),
        x.is_prefix_of(subcollection(x, m)),
        subcollection(x, m).len() == x.len() + 1 + m.len(),
        subcollection(x, m).skip(x.len() as int + 1) == m,
{
    reveal_strlit("/");
    let (s, t) = (subcollection(x, m), subcollection(y, n));
    assert(s[x.len() as int] == '/');
    assert(t[y.len() as int] == '/');
    assert(s.take(x.len() as int) =~= x);
    assert(s.skip(x.len() as int + 1) =~= m);
    assert(t.take(y.len() as int) =~= y);
    assert(t.skip(y.len() as int + 1) =~= n);
    if s == t {
        if x.len() < y.len() {
            assert(y[x.len() as int] == t[x.len() as int]);
        } else if y.len() < x.len() {
            assert(x[y.len() as int] == s[y.len() as int]);
        }
    }
}

/// The name of a collection inside a document of a collection: the id of the document, a slash
/// and the name.
pub fn subcollection_prefix(_collection: &str, doc_id: &str, subcollection: &str) -> (s: String)
    ensures
        s@ == self::subcollection(doc_id@, subcollection@),
        s@ == doc_id@.push('/') + subcollection@,
{
    let mut s = doc_id.to_owned();
    s.append("/");
    s.append(subcollection);
    proof {
        reveal_strlit("/");
        assert(s@ =~= doc_id@.push('/') + subcollection@);
    }
    s
}

} // verus!
