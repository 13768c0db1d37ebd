//! Operations on strings, stated over their characters and their UTF-8 bytes.
use vstd::prelude::*;
use vstd::string::*;
use vstd::utf8::{decode_utf8, encode_utf8, valid_utf8};

use crate::order::{char_codes, lex, lex_skip, Order};

verus! {

/// `std::string::String::push`: appends one character.
pub assume_specification[ std::string::String::push ](s: &mut std::string::String, c: char)
    ensures
        final(s)@ == old(s)@.push(c),
;

/// `std::str::from_utf8`: the text that the bytes encode, or nothing where they are
/// not valid UTF-8.
#[verifier::external_body]
pub(crate) fn text_of_utf8(bytes: &[u8]) -> (r: Option<String>)
    ensures
        r is Some <==> valid_utf8(bytes@),
        r is Some ==> r->Some_0@ == decode_utf8(bytes@),
{
    match std::str::from_utf8(bytes) {
        Ok(s) => Some(s.to_owned()),
        Err(_) => None,
    }
}

/// Whether a character is white space.
pub open spec fn white_space(c: char) -> bool {
    let n = c as nat;
    ||| 0x9 <= n <= 0xd
    ||| n == 0x20
    ||| n == 0x85
    ||| n == 0xa0
    ||| n == 0x1680
    ||| 0x2000 <= n <= 0x200a
    ||| 0x2028 <= n <= 0x2029
    ||| n == 0x202f
    ||| n == 0x205f
    ||| n == 0x3000
}

/// `char::is_whitespace`: whether a character has the Unicode property `White_Space`.
pub assume_specification[ char::is_whitespace ](c: char) -> (r: bool)
    ensures
        r == white_space(c),
;

/// The characters of a string, one by one.
pub fn chars_of(s: &str) -> (v: Vec<char>)
    ensures
        v@ == s@,
{
    broadcast use axiom_spec_iter;

    let mut v: Vec<char> = Vec::new();
    for c in it: s.chars()
        invariant
            v@ == it.seq().take(it.index() as int),
            it.seq() == s@,
    {
        v.push(c);
        proof {
            assert(it.seq().take(it.index() as int + 1) =~= it.seq().take(it.index() as int).push(c));
        }
    }
    proof {
        assert(s@.take(s@.len() as int) =~= s@);
    }
    v
}

/// The string made of the characters `from..to`.
pub fn text_of(v: &Vec<char>, from: usize, to: usize) -> (s: String)
    requires
        from <= to <= v@.len(),
    ensures
        s@ == v@.subrange(from as int, to as int),
{
    let mut s = String::new();
    let mut i: usize = from;
    while i < to
        invariant
            from <= i <= to <= v@.len(),
            s@ == v@.subrange(from as int, i as int),
        decreases to - i,
    {
        s.push(v[i]);
        i = i + 1;
        proof {
            assert(v@.subrange(from as int, i as int) =~= v@.subrange(from as int, i - 1).push(v@[i - 1]));
        }
    }
    s
}

/// Two character sequences with the same encoding are the same.
pub proof fn encode_utf8_injective(a: Seq<char>, b: Seq<char>)
    requires
        encode_utf8(a) == encode_utf8(b),
    ensures
        a == b,
{
    vstd::utf8::encode_utf8_decode_utf8(a);
    vstd::utf8::encode_utf8_decode_utf8(b);
}

/// No character takes more than four bytes.
pub proof fn encode_utf8_bound(s: Seq<char>)
    ensures
        encode_utf8(s).len() <= 4 * s.len(),
    decreases s.len(),
{
    if s.len() > 0 {
        encode_utf8_bound(s.drop_first());
    }
}

/// Whether two strings hold the same characters.
pub fn same_text(a: &str, b: &str) -> (r: bool)
    ensures
        r == (a@ == b@),
{
    let x = a.as_bytes();
    let y = b.as_bytes();
    proof {
        if x@ == y@ {
            encode_utf8_injective(a@, b@);
        }
    }
    if x.len() != y.len() {
        return false;
    }
    let mut i: usize = 0;
    while i < x.len()
        invariant
            x@ == encode_utf8(a@),
            y@ == encode_utf8(b@),
            x@.len() == y@.len(),
            i <= x@.len(),
            forall|k: int| 0 <= k < i ==> x@[k] == y@[k],
        decreases x@.len() - i,
    {
        if x[i] != y[i] {
            return false;
        }
        i = i + 1;
    }
    proof {
        assert(x@ =~= y@);
    }
    true
}

/// Compares two strings by their code points.
pub fn compare_text(a: &str, b: &str) -> (o: Order)
    ensures
        o == lex(char_codes(a@), char_codes(b@)),
{
    let x = chars_of(a);
    let y = chars_of(b);
    let ghost p = char_codes(x@);
    let ghost q = char_codes(y@);
    let mut i: usize = 0;
    while i < x.len() && i < y.len()
        invariant
            i <= x@.len(),
            i <= y@.len(),
            p == char_codes(x@),
            q == char_codes(y@),
            x@ == a@,
            y@ == b@,
            forall|k: int| 0 <= k < i ==> p[k] == q[k],
        decreases x@.len() - i,
    {
        if x[i] != y[i] {
            proof {
                lex_skip(p, q, i as int);
                assert(p.skip(i as int)[0] == x@[i as int] as int);
                assert(q.skip(i as int)[0] == y@[i as int] as int);
            }
            return if x[i] < y[i] { Order::Less } else { Order::Greater };
        }
        i = i + 1;
    }
    proof {
        lex_skip(p, q, i as int);
    }
    if i < y.len() {
        Order::Less
    } else if i < x.len() {
        Order::Greater
    } else {
        Order::Equal
    }
}

/// A text without the white space in front of it.
pub open spec fn trimmed_front(s: Seq<char>) -> Seq<char>
    decreases s.len(),
{
    if s.len() > 0 && white_space(s[0]) {
        trimmed_front(s.drop_first())
    } else {
        s
    }
}

/// A text without the white space behind it.
pub open spec fn trimmed_back(s: Seq<char>) -> Seq<char>
    decreases s.len(),
{
    if s.len() > 0 && white_space(s.last()) {
        trimmed_back(s.drop_last())
    } else {
        s
    }
}

/// A text without the white space around it.
pub open spec fn trimmed(s: Seq<char>) -> Seq<char> {
    trimmed_back(trimmed_front(s))
}

/// A text without the white space around it.
pub fn trim_text(s: &str) -> (r: String)
    ensures
        r@ == trimmed(s@),
{
    let v = chars_of(s);
    let mut from: usize = 0;
    proof {
        assert(v@.skip(0) =~= v@);
    }
    while from < v.len() && v[from].is_whitespace()
        invariant
            from <= v@.len(),
            trimmed_front(v@) == trimmed_front(v@.skip(from as int)),
        decreases v@.len() - from,
    {
        proof {
            assert(v@.skip(from as int).drop_first() =~= v@.skip(from + 1));
        }
        from = from + 1;
    }
    let ghost f = v@.skip(from as int);
    let mut to: usize = v.len();
    proof {
        assert(trimmed_front(v@) == f);
        assert(v@.subrange(from as int, to as int) =~= f);
    }
    while to > from && v[to - 1].is_whitespace()
        invariant
            from <= to <= v@.len(),
            trimmed_back(f) == trimmed_back(v@.subrange(from as int, to as int)),
        decreases to,
    {
        proof {
            assert(v@.subrange(from as int, to as int).drop_last() =~= v@.subrange(from as int, to - 1));
        }
        to = to - 1;
    }
    text_of(&v, from, to)
}

/// A text without the places, from the front on, where a pattern stands.
pub open spec fn replaced(s: Seq<char>, pat: Seq<char>) -> Seq<char>
    decreases s.len(),
{
    if pat.len() == 0 || s.len() < pat.len() {
        s
    } else if s.take(pat.len() as int) == pat {
        replaced(s.skip(pat.len() as int), pat)
    } else {
        seq![s[0]] + replaced(s.drop_first(), pat)
    }
}

/// Whether a pattern stands in a text at a place.
fn stands_at(v: &Vec<char>, at: usize, pat: &Vec<char>) -> (r: bool)
    requires
        at + pat@.len() <= v@.len(),
    ensures
        r == (v@.skip(at as int).take(pat@.len() as int) == pat@),
{
    let total: usize = v.len();
    let mut i: usize = 0;
    while i < pat.len()
        invariant
            total == v@.len(),
            at + pat@.len() <= v@.len(),
            i <= pat@.len(),
            forall|k: int| 0 <= k < i ==> v@[at + k] == pat@[k],
        decreases pat@.len() - i,
    {
        if v[at + i] != pat[i] {
            proof {
                assert(v@.skip(at as int).take(pat@.len() as int)[i as int] != pat@[i as int]);
            }
            return false;
        }
        i = i + 1;
    }
    proof {
        assert(v@.skip(at as int).take(pat@.len() as int) =~= pat@);
    }
    true
}

/// A text without the places, from the front on, where a pattern stands.
pub fn replace_all(s: &str, pat: &str) -> (r: String)
    ensures
        r@ == replaced(s@, pat@),
{
    let v = chars_of(s);
    let p = chars_of(pat);
    let total: usize = v.len();
    let mut r = String::new();
    let mut i: usize = 0;
    proof {
        assert(v@.skip(0) =~= v@);
        assert(r@ + replaced(v@, p@) =~= replaced(v@, p@));
    }
    while i < v.len()
        invariant
            total == v@.len(),
            v@ == s@,
            p@ == pat@,
            i <= v@.len(),
            r@ + replaced(v@.skip(i as int), p@) == replaced(s@, p@),
        decreases v@.len() - i,
    {
        if p.len() > 0 && p.len() <= total - i && stands_at(&v, i, &p) {
            proof {
                assert(v@.skip(i as int).skip(p@.len() as int) =~= v@.skip(i + p@.len() as int));
            }
            i = i + p.len();
        } else {
            let ghost before = r@;
            let ghost rest = v@.skip(i as int);
            r.push(v[i]);
            proof {
                assert(rest.drop_first() =~= v@.skip(i + 1));
                if p@.len() == 0 || rest.len() < p@.len() {
                    assert(replaced(v@.skip(i + 1), p@) =~= v@.skip(i + 1));
                    assert(before + rest =~= r@ + v@.skip(i + 1));
                } else {
                    let tail = replaced(v@.skip(i + 1), p@);
                    assert(before + (seq![rest[0]] + tail) =~= r@ + tail);
                }
            }
            i = i + 1;
        }
    }
    proof {
        assert(v@.skip(i as int) =~= Seq::<char>::empty());
        assert(r@ + Seq::<char>::empty() =~= r@);
    }
    r
}

proof fn front_cut(s: Seq<char>) -> (a: int)
    ensures
        0 <= a <= s.len(),
        trimmed_front(s) == s.skip(a),
        forall|i: int| 0 <= i < a ==> white_space(#[trigger] s[i]),
        trimmed_front(s).len() > 0 ==> !white_space(trimmed_front(s)[0]),
    decreases s.len(),
{
    if s.len() > 0 && white_space(s[0]) {
        let a = front_cut(s.drop_first());
        assert(s.drop_first().skip(a) =~= s.skip(a + 1));
        assert forall|i: int| 0 <= i < a + 1 implies white_space(#[trigger] s[i]) by {
            if i > 0 {
                assert(s.drop_first()[i - 1] == s[i]);
            }
        }
        a + 1
    } else {
        assert(s.skip(0) =~= s);
        0
    }
}

proof fn back_cut(s: Seq<char>) -> (b: int)
    ensures
        0 <= b <= s.len(),
        trimmed_back(s) == s.take(b),
        forall|i: int| b <= i < s.len() ==> white_space(#[trigger] s[i]),
        trimmed_back(s).len() > 0 ==> !white_space(trimmed_back(s).last()),
    decreases s.len(),
{
    if s.len() > 0 && white_space(s.last()) {
        let b = back_cut(s.drop_last());
        assert(s.drop_last().take(b) =~= s.take(b));
        assert forall|i: int| b <= i < s.len() implies white_space(#[trigger] s[i]) by {
            if i < s.len() - 1 {
                assert(s.drop_last()[i] == s[i]);
            }
        }
        b
    } else {
        assert(s.take(s.len() as int) =~= s);
        s.len() as int
    }
}

/// A trimmed text is the part of a text between the white space around it: what is cut off is
/// white space, and it neither begins nor ends with any.
pub proof fn trimmed_is_inside(s: Seq<char>) -> (r: (int, int))
    ensures
        0 <= r.0 <= r.1 <= s.len(),
        trimmed(s) == s.subrange(r.0, r.1),
        forall|i: int| 0 <= i < r.0 || r.1 <= i < s.len() ==> white_space(#[trigger] s[i]),
        trimmed(s).len() > 0 ==> !white_space(trimmed(s)[0]) && !white_space(trimmed(s).last()),
{
    let a = front_cut(s);
    let f = trimmed_front(s);
    let b = back_cut(f);
    assert(f.take(b) =~= s.subrange(a, a + b));
    assert forall|i: int| 0 <= i < a || a + b <= i < s.len() implies white_space(#[trigger] s[i]) by {
        if i >= a {
            assert(f[i - a] == s[i]);
        }
    }
    (a, a + b)
}

/// A text in which a pattern stands nowhere stays as it is.
pub proof fn without_pattern_stays(s: Seq<char>, pat: Seq<char>)
    requires
        forall|k: int| 0 <= k <= s.len() - pat.len() ==> #[trigger] s.subrange(k, k + pat.len()) != pat,
    ensures
        replaced(s, pat) == s,
    decreases s.len(),
{
    if pat.len() > 0 && s.len() >= pat.len() {
        assert(s.subrange(0, 0int + pat.len()) =~= s.take(pat.len() as int));
        let t = s.drop_first();
        assert forall|k: int| 0 <= k <= t.len() - pat.len() implies #[trigger] t.subrange(k, k + pat.len()) != pat by {
            assert(t.subrange(k, k + pat.len()) =~= s.subrange(k + 1, k + 1 + pat.len()));
        }
        without_pattern_stays(t, pat);
        assert(seq![s[0]] + t =~= s);
    }
}

/// Where a pattern stands for the first time it is cut out, and the rest is searched behind it.
pub proof fn first_pattern_is_cut(a: Seq<char>, pat: Seq<char>, b: Seq<char>)
    requires
        pat.len() > 0,
        forall|k: int| 0 <= k < a.len() ==> #[trigger] (a + pat).subrange(k, k + pat.len()) != pat,
    ensures
        replaced(a + pat + b, pat) == a + replaced(b, pat),
    decreases a.len(),
{
    let s = a + pat + b;
    if a.len() == 0 {
        assert(s.take(pat.len() as int) =~= pat);
        assert(s.skip(pat.len() as int) =~= b);
        assert(a + replaced(b, pat) =~= replaced(b, pat));
    } else {
        let t = a.drop_first();
        assert((a + pat).subrange(0, 0int + pat.len()) =~= s.take(pat.len() as int));
        assert(s.drop_first() =~= t + pat + b);
        assert forall|k: int| 0 <= k < t.len() implies #[trigger] (t + pat).subrange(k, k + pat.len()) != pat by {
            assert((t + pat).subrange(k, k + pat.len()) =~= (a + pat).subrange(k + 1, k + 1 + pat.len()));
        }
        first_pattern_is_cut(t, pat, b);
        assert(seq![s[0]] + (t + replaced(b, pat)) =~= a + replaced(b, pat));
    }
}

} // verus!
