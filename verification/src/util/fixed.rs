//! Integers of a fixed width, low byte first or high byte first.
use vstd::prelude::*;

verus! {

/// 256 to the power `n`.
pub open spec fn pow256(n: nat) -> nat
    decreases n,
{
    if n == 0 {
        1
    } else {
        256 * pow256((n - 1) as nat)
    }
}

/// The `n` low bytes of `x`, the lowest first.
pub open spec fn le_bytes(x: nat, n: nat) -> Seq<u8>
    decreases n,
{
    if n == 0 {
        Seq::empty()
    } else {
        seq![(x % 256) as u8] + le_bytes(x / 256, (n - 1) as nat)
    }
}

/// The number that `s` writes with the lowest byte first.
pub open spec fn le_value(s: Seq<u8>) -> nat
    decreases s.len(),
{
    if s.len() == 0 {
        0
    } else {
        s[0] as nat + 256 * le_value(s.drop_first())
    }
}

/// The `n` low bytes of `x`, the highest first.
pub open spec fn be_bytes(x: nat, n: nat) -> Seq<u8>
    decreases n,
{
    if n == 0 {
        Seq::empty()
    } else {
        be_bytes(x / 256, (n - 1) as nat).push((x % 256) as u8)
    }
}

/// The number that `s` writes with the highest byte first.
pub open spec fn be_value(s: Seq<u8>) -> nat
    decreases s.len(),
{
    if s.len() == 0 {
        0
    } else {
        be_value(s.drop_last()) * 256 + s.last() as nat
    }
}

pub proof fn pow256_values()
    ensures
        pow256(1) == 0x100,
        pow256(2) == 0x1_0000,
        pow256(4) == 0x1_0000_0000,
        pow256(8) == 0x1_0000_0000_0000_0000,
{
    reveal_with_fuel(pow256, 9);
}

/// `n` bytes hold every number below 256 to the power `n`, low byte first.
pub proof fn le_round_trip(x: nat, n: nat)
    ensures
        le_bytes(x, n).len() == n,
        x < pow256(n) ==> le_value(le_bytes(x, n)) == x,
    decreases n,
{
    if n > 0 {
        le_round_trip(x / 256, (n - 1) as nat);
        assert(le_bytes(x, n).drop_first() =~= le_bytes(x / 256, (n - 1) as nat));
    }
}

/// Reading and writing again gives the same bytes, low byte first.
pub proof fn le_rewrite(s: Seq<u8>)
    ensures
        le_bytes(le_value(s), s.len()) == s,
        le_value(s) < pow256(s.len()),
    decreases s.len(),
{
    if s.len() > 0 {
        le_rewrite(s.drop_first());
        assert(seq![s[0]] + s.drop_first() =~= s);
        assert((s[0] as nat + 256 * le_value(s.drop_first())) / 256 == le_value(s.drop_first()));
    } else {
        assert(le_bytes(0, 0) =~= s);
    }
}

/// `n` bytes hold every number below 256 to the power `n`, high byte first.
pub proof fn be_round_trip(x: nat, n: nat)
    ensures
        be_bytes(x, n).len() == n,
        x < pow256(n) ==> be_value(be_bytes(x, n)) == x,
    decreases n,
{
    if n > 0 {
        be_round_trip(x / 256, (n - 1) as nat);
        assert(be_bytes(x, n).drop_last() =~= be_bytes(x / 256, (n - 1) as nat));
    }
}

/// Reading and writing again gives the same bytes, high byte first.
pub proof fn be_rewrite(s: Seq<u8>)
    ensures
        be_bytes(be_value(s), s.len()) == s,
        be_value(s) < pow256(s.len()),
    decreases s.len(),
{
    if s.len() > 0 {
        be_rewrite(s.drop_last());
        assert(s.drop_last().push(s.last()) =~= s);
        assert((be_value(s.drop_last()) * 256 + s.last() as nat) / 256 == be_value(s.drop_last()));
    } else {
        assert(be_bytes(0, 0) =~= s);
    }
}

/// The first `k` of the bytes low first, and what is left of the number.
proof fn le_split(x: nat, n: nat, k: nat)
    requires
        k < n,
    ensures
        le_bytes(x, n) == le_bytes(x, k) + le_bytes(x / pow256(k), (n - k) as nat),
        x / pow256(k + 1) == (x / pow256(k)) / 256,
        pow256(k) > 0,
    decreases k,
{
    if k == 0 {
        assert(pow256(1) == 256) by {
            reveal_with_fuel(pow256, 2);
        }
        assert(le_bytes(x, n) =~= le_bytes(x, 0) + le_bytes(x / 1, n));
    } else {
        le_split(x / 256, (n - 1) as nat, (k - 1) as nat);
        let p = pow256((k - 1) as nat);
        assert((x / 256) / p == x / (256 * p)) by (nonlinear_arith)
            requires
                p > 0,
        ;
        assert((x / 256) / pow256(k) == x / (256 * pow256(k))) by (nonlinear_arith)
            requires
                pow256(k) > 0,
        ;
        assert(le_bytes(x, n) =~= le_bytes(x, k) + le_bytes(x / pow256(k), (n - k) as nat));
    }
}

/// Appends the `n` low bytes of `x`, the lowest first.
pub fn put_le(out: &mut Vec<u8>, x: u64, n: usize)
    ensures
        final(out)@ == old(out)@ + le_bytes(x as nat, n as nat),
{
    let mut i: usize = 0;
    let mut rest: u64 = x;
    let ghost before = out@;
    proof {
        assert(out@ + Seq::<u8>::empty() =~= out@);
        assert(pow256(0) == 1);
        assert(x as nat / 1 == x as nat);
    }
    while i < n
        invariant
            i <= n,
            rest as nat == x as nat / pow256(i as nat),
            out@ == before + le_bytes(x as nat, i as nat),
        decreases n - i,
    {
        let ghost r = rest;
        let b: u8 = (rest % 256) as u8;
        out.push(b);
        rest = rest / 256;
        proof {
            le_split(x as nat, i as nat + 1, i as nat);
            assert(le_bytes(r as nat, 1) =~= seq![b]) by {
                assert(le_bytes(r as nat / 256, 0) =~= Seq::empty());
            }
            assert(out@ =~= before + (le_bytes(x as nat, i as nat) + seq![b]));
        }
        i = i + 1;
    }
}

/// Appends the `n` low bytes of `x`, the highest first.
pub fn put_be(out: &mut Vec<u8>, x: u64, n: usize)
    ensures
        final(out)@ == old(out)@ + be_bytes(x as nat, n as nat),
    decreases n,
{
    proof {
        assert(out@ + Seq::<u8>::empty() =~= out@);
    }
    if n > 0 {
        let ghost before = out@;
        put_be(out, x / 256, n - 1);
        let b: u8 = (x % 256) as u8;
        out.push(b);
        proof {
            assert(out@ =~= before + be_bytes(x as nat, n as nat));
        }
    }
}

/// The number that the `n` bytes from `at` write with the lowest byte first.
pub fn read_le(bytes: &[u8], at: usize, n: usize) -> (x: u64)
    requires
        n <= 8,
        at + n <= bytes@.len(),
    ensures
        x as nat == le_value(bytes@.subrange(at as int, at + n)),
        x < pow256(n as nat),
    decreases n,
{
    proof {
        le_rewrite(bytes@.subrange(at as int, at + n));
        pow256_values();
    }
    let total: usize = bytes.len();
    if n == 0 {
        return 0;
    }
    let rest = read_le(bytes, at + 1, n - 1);
    proof {
        let s = bytes@.subrange(at as int, at + n);
        assert(s.drop_first() =~= bytes@.subrange(at + 1, at + n));
        assert(s[0] == bytes@[at as int]);
        assert(pow256(n as nat) <= pow256(8)) by {
            reveal_with_fuel(pow256, 9);
        }
    }
    bytes[at] as u64 + 256 * rest
}

/// The number that the `n` bytes from `at` write with the highest byte first.
pub fn read_be(bytes: &[u8], at: usize, n: usize) -> (x: u64)
    requires
        n <= 8,
        at + n <= bytes@.len(),
    ensures
        x as nat == be_value(bytes@.subrange(at as int, at + n)),
        x < pow256(n as nat),
    decreases n,
{
    proof {
        be_rewrite(bytes@.subrange(at as int, at + n));
        pow256_values();
    }
    let total: usize = bytes.len();
    if n == 0 {
        return 0;
    }
    let rest = read_be(bytes, at, n - 1);
    proof {
        let s = bytes@.subrange(at as int, at + n);
        assert(s.drop_last() =~= bytes@.subrange(at as int, at + n - 1));
        assert(s.last() == bytes@[at + n - 1]);
        assert(pow256(n as nat) <= pow256(8)) by {
            reveal_with_fuel(pow256, 9);
        }
    }
    rest * 256 + bytes[at + n - 1] as u64
}

/// A signed number and its two's complement bits stand for each other.
pub proof fn i64_bits(x: i64, u: u64)
    ensures
        (x as u64) as i64 == x,
        (u as i64) as u64 == u,
{
    assert((x as u64) as i64 == x) by (bit_vector);
    assert((u as i64) as u64 == u) by (bit_vector);
}

} // verus!
