//! The lexicographic order of sequences, on which sorted maps and index keys rest.
use vstd::prelude::*;

verus! {

/// The outcome of comparing two values.
#[derive(Clone, Copy, Debug, PartialEq, Eq, Structural)]
pub enum Order {
    Less,
    Equal,
    Greater,
}

impl Order {
    /// The outcome with the two sides exchanged.
    pub open spec fn flip(self) -> Order {
        match self {
            Order::Less => Order::Greater,
            Order::Equal => Order::Equal,
            Order::Greater => Order::Less,
        }
    }
}

/// How two integers compare.
pub open spec fn int_order(a: int, b: int) -> Order {
    if a < b {
        Order::Less
    } else if a == b {
        Order::Equal
    } else {
        Order::Greater
    }
}

/// How two sequences compare: by the first place where they differ, and where
/// one is a prefix of the other, the shorter comes first.
pub open spec fn lex(a: Seq<int>, b: Seq<int>) -> Order
    decreases a.len(),
{
    if a.len() == 0 && b.len() == 0 {
        Order::Equal
    } else if a.len() == 0 {
        Order::Less
    } else if b.len() == 0 {
        Order::Greater
    } else if a[0] == b[0] {
        lex(a.drop_first(), b.drop_first())
    } else {
        int_order(a[0], b[0])
    }
}

/// The numbers of a byte sequence.
pub open spec fn byte_codes(s: Seq<u8>) -> Seq<int> {
    Seq::new(s.len(), |i: int| s[i] as int)
}

/// The code points of a character sequence.
pub open spec fn char_codes(s: Seq<char>) -> Seq<int> {
    Seq::new(s.len(), |i: int| s[i] as int)
}

/// Two sequences compare as equal exactly when they are the same.
pub proof fn lex_equal(a: Seq<int>, b: Seq<int>)
    ensures
        lex(a, b) == Order::Equal <==> a == b,
    decreases a.len(),
{
    if a.len() > 0 && b.len() > 0 {
        lex_equal(a.drop_first(), b.drop_first());
        if a[0] == b[0] && a.drop_first() == b.drop_first() {
            assert(a =~= seq![a[0]] + a.drop_first());
            assert(b =~= seq![b[0]] + b.drop_first());
        }
    } else {
        assert(a.len() == 0 && b.len() == 0 ==> a =~= b);
    }
}

/// Exchanging the sides flips the outcome.
pub proof fn lex_flip(a: Seq<int>, b: Seq<int>)
    ensures
        lex(b, a) == lex(a, b).flip(),
    decreases a.len(),
{
    if a.len() > 0 && b.len() > 0 {
        lex_flip(a.drop_first(), b.drop_first());
    }
}

/// The order is transitive.
pub proof fn lex_trans(a: Seq<int>, b: Seq<int>, c: Seq<int>)
    requires
        lex(a, b) == Order::Less,
        lex(b, c) == Order::Less,
    ensures
        lex(a, c) == Order::Less,
    decreases a.len(),
{
    if a.len() > 0 && b.len() > 0 && c.len() > 0 {
        if a[0] == b[0] && b[0] == c[0] {
            lex_trans(a.drop_first(), b.drop_first(), c.drop_first());
        }
    }
}

/// Sequences that agree up to `k` compare as what follows does.
pub proof fn lex_skip(a: Seq<int>, b: Seq<int>, k: int)
    requires
        0 <= k <= a.len(),
        k <= b.len(),
        forall|i: int| 0 <= i < k ==> a[i] == b[i],
    ensures
        lex(a, b) == lex(a.skip(k), b.skip(k)),
    decreases k,
{
    if k == 0 {
        assert(a.skip(0) =~= a);
        assert(b.skip(0) =~= b);
    } else {
        assert(a.drop_first().skip(k - 1) =~= a.skip(k));
        assert(b.drop_first().skip(k - 1) =~= b.skip(k));
        assert forall|i: int| 0 <= i < k - 1 implies a.drop_first()[i] == b.drop_first()[i] by {
            assert(a[i + 1] == b[i + 1]);
        }
        lex_skip(a.drop_first(), b.drop_first(), k - 1);
    }
}

/// A common head does not change how two sequences compare.
pub proof fn lex_common_head(p: Seq<int>, a: Seq<int>, b: Seq<int>)
    ensures
        lex(p + a, p + b) == lex(a, b),
{
    lex_skip(p + a, p + b, p.len() as int);
    assert((p + a).skip(p.len() as int) =~= a);
    assert((p + b).skip(p.len() as int) =~= b);
}

/// Compares two byte strings as sequences of numbers.
pub fn compare_bytes(a: &[u8], b: &[u8]) -> (o: Order)
    ensures
        o == lex(byte_codes(a@), byte_codes(b@)),
{
    let mut i: usize = 0;
    let ghost x = byte_codes(a@);
    let ghost y = byte_codes(b@);
    while i < a.len() && i < b.len()
        invariant
            i <= a.len(),
            i <= b.len(),
            x == byte_codes(a@),
            y == byte_codes(b@),
            forall|k: int| 0 <= k < i ==> x[k] == y[k],
        decreases a.len() - i,
    {
        if a[i] != b[i] {
            proof {
                lex_skip(x, y, i as int);
                assert(x.skip(i as int)[0] == a@[i as int]);
                assert(y.skip(i as int)[0] == b@[i as int]);
            }
            return if a[i] < b[i] { Order::Less } else { Order::Greater };
        }
        i = i + 1;
    }
    proof {
        lex_skip(x, y, i as int);
    }
    if i < b.len() {
        Order::Less
    } else if i < a.len() {
        Order::Greater
    } else {
        Order::Equal
    }
}

} // verus!
