//! Numbers in groups of seven bits, and signed numbers folded to unsigned ones.
use vstd::prelude::*;

verus! {

/// The groups of seven bits of `x`, the lowest first; each but the last carries the
/// high bit.
pub open spec fn varint(x: nat) -> Seq<u8>
    decreases x,
{
    if x < 128 {
        seq![x as u8]
    } else {
        seq![(128 + x % 128) as u8] + varint(x / 128)
    }
}

/// What reading a number from the start of `s` gives: the number and how many bytes
/// it took. A number of more than ten bytes, or beyond 64 bits, gives nothing.
pub open spec fn varint_parse(s: Seq<u8>, room: nat) -> Option<(nat, nat)>
    decreases room,
{
    if room == 0 || s.len() == 0 {
        None
    } else if s[0] < 128 {
        Some((s[0] as nat, 1))
    } else {
        match varint_parse(s.drop_first(), (room - 1) as nat) {
            Some((v, n)) => Some(((s[0] - 128) as nat + 128 * v, n + 1)),
            None => None,
        }
    }
}

/// The number at the start of `s`, where it is one of 64 bits.
pub open spec fn varint_read(s: Seq<u8>) -> Option<(u64, nat)> {
    match varint_parse(s, 10) {
        Some((v, n)) => if v <= u64::MAX {
            Some((v as u64, n))
        } else {
            None
        },
        None => None,
    }
}

/// 128 to the power `n`.
spec fn pow128(n: nat) -> nat
    decreases n,
{
    if n == 0 {
        1
    } else {
        128 * pow128((n - 1) as nat)
    }
}

proof fn varint_parse_of_varint(x: nat, room: nat, tail: Seq<u8>)
    requires
        x < pow128(room),
        room >= 1,
    ensures
        varint_parse(varint(x) + tail, room) == Some((x, varint(x).len())),
        varint(x).len() <= room,
    decreases room,
{
    let s = varint(x) + tail;
    reveal_with_fuel(pow128, 2);
    if x >= 128 {
        assert(room > 1);
        varint_parse_of_varint(x / 128, (room - 1) as nat, tail);
        assert(s.drop_first() =~= varint(x / 128) + tail);
    }
}

/// A number that was written is read back, whatever follows it.
pub proof fn varint_round_trip(x: u64, tail: Seq<u8>)
    ensures
        varint_read(varint(x as nat) + tail) == Some((x, varint(x as nat).len())),
        1 <= varint(x as nat).len() <= 10,
{
    assert(x < pow128(10)) by {
        reveal_with_fuel(pow128, 11);
    }
    varint_parse_of_varint(x as nat, 10, tail);
}

proof fn varint_parse_bounds(s: Seq<u8>, room: nat)
    ensures
        match varint_parse(s, room) {
            Some((v, n)) => n <= s.len() && n <= room && v < pow128(n),
            None => true,
        },
    decreases room,
{
    reveal_with_fuel(pow128, 2);
    if room > 0 && s.len() > 0 && s[0] >= 128 {
        varint_parse_bounds(s.drop_first(), (room - 1) as nat);
    }
}

proof fn varint_parse_is_shortest(s: Seq<u8>, room: nat)
    ensures
        varint_parse(s, room) matches Some((v, n)) ==> varint(v).len() <= n <= s.len(),
    decreases room,
{
    if room > 0 && s.len() > 0 && s[0] >= 128 {
        varint_parse_is_shortest(s.drop_first(), (room - 1) as nat);
        if let Some((v, n)) = varint_parse(s.drop_first(), (room - 1) as nat) {
            let w = (s[0] - 128) as nat + 128 * v;
            assert(w / 128 == v);
        }
    }
}

/// A number that was read takes no more bytes when it is written again.
pub proof fn varint_is_shortest(s: Seq<u8>)
    ensures
        varint_read(s) matches Some((x, n)) ==> 1 <= varint(x as nat).len() <= n <= s.len(),
{
    varint_parse_is_shortest(s, 10);
    if let Some((x, _)) = varint_read(s) {
        varint_round_trip(x, Seq::empty());
    }
}

/// Appends `x` in groups of seven bits.
pub fn encode_varint(x: u64, out: &mut Vec<u8>)
    ensures
        final(out)@ == old(out)@ + varint(x as nat),
{
    let mut rest: u64 = x;
    let ghost before = out@;
    let ghost mut done: Seq<u8> = Seq::empty();
    while rest >= 128
        invariant
            out@ == before + done,
            done + varint(rest as nat) == varint(x as nat),
        decreases rest,
    {
        let b: u8 = (rest % 128) as u8 + 128;
        out.push(b);
        proof {
            assert(done + (seq![b] + varint(rest as nat / 128)) =~= done.push(b) + varint(rest as nat / 128));
            done = done.push(b);
            assert(out@ =~= before + done);
        }
        rest = rest / 128;
    }
    out.push(rest as u8);
    proof {
        assert(done + seq![rest as u8] =~= done.push(rest as u8));
        assert(out@ =~= before + varint(x as nat));
    }
}

/// Reads a number at `pos` and moves `pos` behind it.
pub fn decode_varint(bytes: &[u8], pos: &mut usize) -> (r: Option<u64>)
    requires
        *old(pos) <= bytes@.len(),
    ensures
        match (r, varint_read(bytes@.skip(*old(pos) as int))) {
            (Some(v), Some((w, n))) => v == w && *final(pos) == *old(pos) + n && *final(pos) <= bytes@.len(),
            (None, None) => *final(pos) == *old(pos),
            _ => false,
        },
{
    let total: usize = bytes.len();
    match parse_from(bytes, *pos, 10) {
        Some((v, n)) => {
            proof {
                assert(*pos + n <= total) by {
                    varint_parse_bounds(bytes@.skip(*pos as int), 10);
                }
                varint_parse_bounds(bytes@.skip(*pos as int), 10);
            }
            if v <= u64::MAX as u128 {
                *pos = *pos + n;
                Some(v as u64)
            } else {
                None
            }
        },
        None => None,
    }
}

fn parse_from(bytes: &[u8], at: usize, room: usize) -> (r: Option<(u128, usize)>)
    requires
        at <= bytes@.len(),
        room <= 10,
    ensures
        match (r, varint_parse(bytes@.skip(at as int), room as nat)) {
            (Some((v, n)), Some((w, m))) => v as nat == w && n as nat == m,
            (None, None) => true,
            _ => false,
        },
    decreases room,
{
    let ghost s = bytes@.skip(at as int);
    if room == 0 || at == bytes.len() {
        return None;
    }
    let b: u8 = bytes[at];
    if b < 128 {
        return Some((b as u128, 1));
    }
    proof {
        assert(s.drop_first() =~= bytes@.skip(at + 1));
        varint_parse_bounds(s.drop_first(), (room - 1) as nat);
        varint_parse_bounds(s, room as nat);
    }
    match parse_from(bytes, at + 1, room - 1) {
        Some((v, n)) => {
            proof {
                assert(pow128(n as nat) <= pow128(9)) by {
                    reveal_with_fuel(pow128, 11);
                    pow128_grows(n as nat, 9);
                }
                assert(pow128(9) == 0x8000_0000_0000_0000) by {
                    reveal_with_fuel(pow128, 11);
                }
            }
            Some(((b - 128) as u128 + 128 * v, n + 1))
        },
        None => None,
    }
}

proof fn pow128_grows(a: nat, b: nat)
    requires
        a <= b,
    ensures
        0 < pow128(a) <= pow128(b),
    decreases b,
{
    if b > 0 && a > 0 {
        pow128_grows((a - 1) as nat, (b - 1) as nat);
    } else if b > 0 {
        pow128_grows(0, (b - 1) as nat);
    }
}

/// Non-negative numbers fold to the even ones, negative numbers to the odd ones.
pub open spec fn zigzag(x: i64) -> u64 {
    if x >= 0 {
        (2 * x) as u64
    } else {
        (-2 * x - 1) as u64
    }
}

/// The number that folds to `u`.
pub open spec fn unzigzag(u: u64) -> i64 {
    if u % 2 == 0 {
        (u / 2) as i64
    } else {
        (-(u / 2) - 1) as i64
    }
}

/// Folding loses nothing.
pub proof fn zigzag_round_trip(x: i64)
    ensures
        unzigzag(zigzag(x)) == x,
{
}

/// Unfolding loses nothing.
pub proof fn unzigzag_round_trip(u: u64)
    ensures
        zigzag(unzigzag(u)) == u,
{
}

pub fn zigzag_encode(x: i64) -> (u: u64)
    ensures
        u == zigzag(x),
{
    if x >= 0 {
        2 * (x as u64)
    } else {
        2 * ((-(x + 1)) as u64) + 1
    }
}

pub fn zigzag_decode(u: u64) -> (x: i64)
    ensures
        x == unzigzag(u),
{
    let half: i64 = (u / 2) as i64;
    if u % 2 == 0 {
        half
    } else {
        -half - 1
    }
}

} // verus!
