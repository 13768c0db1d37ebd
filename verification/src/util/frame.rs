//! Payloads behind their lengths, in four bytes.
use vstd::prelude::*;

use crate::document::value::copy_bytes;
use crate::util::fixed::{
    be_bytes, be_round_trip, be_value, le_bytes, le_round_trip, le_value, pow256, pow256_values, put_be, put_le, read_be,
    read_le,
};

verus! {

/// A payload behind its length, most significant byte first.
pub open spec fn frame_be(payload: Seq<u8>) -> Seq<u8> {
    be_bytes(payload.len() % pow256(4), 4) + payload
}

/// A payload behind its length, least significant byte first.
pub open spec fn frame_le(payload: Seq<u8>) -> Seq<u8> {
    le_bytes(payload.len() % pow256(4), 4) + payload
}

/// The payload at the front of bytes, and how many bytes it takes with its length.
pub open spec fn parse_frame_be(s: Seq<u8>) -> Option<(Seq<u8>, nat)> {
    if s.len() < 4 || s.len() < 4 + be_value(s.take(4)) {
        None
    } else {
        Some((s.subrange(4, 4 + be_value(s.take(4)) as int), 4 + be_value(s.take(4))))
    }
}

/// The payload at the front of bytes, and how many bytes it takes with its length.
pub open spec fn parse_frame_le(s: Seq<u8>) -> Option<(Seq<u8>, nat)> {
    if s.len() < 4 || s.len() < 4 + le_value(s.take(4)) {
        None
    } else {
        Some((s.subrange(4, 4 + le_value(s.take(4)) as int), 4 + le_value(s.take(4))))
    }
}

/// A frame gives its payload back, whatever follows it.
pub proof fn frame_be_reads_back(payload: Seq<u8>, tail: Seq<u8>)
    requires
        payload.len() < pow256(4),
    ensures
        parse_frame_be(frame_be(payload) + tail) == Some((payload, payload.len() + 4)),
{
    let s = frame_be(payload) + tail;
    be_round_trip(payload.len(), 4);
    assert(payload.len() % pow256(4) == payload.len()) by {
        vstd::arithmetic::div_mod::lemma_small_mod(payload.len(), pow256(4));
    }
    assert(s.take(4) =~= be_bytes(payload.len(), 4));
    assert(s.subrange(4, 4 + payload.len() as int) =~= payload);
}

/// A frame gives its payload back, whatever follows it.
pub proof fn frame_le_reads_back(payload: Seq<u8>, tail: Seq<u8>)
    requires
        payload.len() < pow256(4),
    ensures
        parse_frame_le(frame_le(payload) + tail) == Some((payload, payload.len() + 4)),
{
    let s = frame_le(payload) + tail;
    le_round_trip(payload.len(), 4);
    assert(payload.len() % pow256(4) == payload.len()) by {
        vstd::arithmetic::div_mod::lemma_small_mod(payload.len(), pow256(4));
    }
    assert(s.take(4) =~= le_bytes(payload.len(), 4));
    assert(s.subrange(4, 4 + payload.len() as int) =~= payload);
}

/// Appends a frame, with the length most significant byte first.
pub fn put_frame_be(out: &mut Vec<u8>, payload: &[u8])
    ensures
        final(out)@ == old(out)@ + frame_be(payload@),
{
    let ghost before = out@;
    let n: u64 = (payload.len() as u64) % 0x1_0000_0000;
    proof {
        pow256_values();
    }
    put_be(out, n, 4);
    let mut p = copy_bytes(payload);
    out.append(&mut p);
    proof {
        assert(out@ =~= before + frame_be(payload@));
    }
}

/// Appends a frame, with the length least significant byte first.
pub fn put_frame_le(out: &mut Vec<u8>, payload: &[u8])
    ensures
        final(out)@ == old(out)@ + frame_le(payload@),
{
    let ghost before = out@;
    let n: u64 = (payload.len() as u64) % 0x1_0000_0000;
    proof {
        pow256_values();
    }
    put_le(out, n, 4);
    let mut p = copy_bytes(payload);
    out.append(&mut p);
    proof {
        assert(out@ =~= before + frame_le(payload@));
    }
}

/// Reads the payload at the front of bytes.
pub fn read_frame_be(bytes: &[u8]) -> (r: Option<(Vec<u8>, usize)>)
    ensures
        match (r, parse_frame_be(bytes@)) {
            (Some((p, n)), Some((q, m))) => p@ == q && n == m,
            (None, None) => true,
            _ => false,
        },
{
    let total: usize = bytes.len();
    if total < 4 {
        return None;
    }
    let n: u64 = read_be(bytes, 0, 4);
    proof {
        assert(bytes@.subrange(0, 4) =~= bytes@.take(4));
    }
    if (total - 4) as u64 >= n {
        let end: usize = 4 + n as usize;
        Some((copy_bytes(vstd::slice::slice_subrange(bytes, 4, end)), end))
    } else {
        None
    }
}

/// Reads the payload at the front of bytes.
pub fn read_frame_le(bytes: &[u8]) -> (r: Option<(Vec<u8>, usize)>)
    ensures
        match (r, parse_frame_le(bytes@)) {
            (Some((p, n)), Some((q, m))) => p@ == q && n == m,
            (None, None) => true,
            _ => false,
        },
{
    let total: usize = bytes.len();
    if total < 4 {
        return None;
    }
    let n: u64 = read_le(bytes, 0, 4);
    proof {
        assert(bytes@.subrange(0, 4) =~= bytes@.take(4));
    }
    if (total - 4) as u64 >= n {
        let end: usize = 4 + n as usize;
        Some((copy_bytes(vstd::slice::slice_subrange(bytes, 4, end)), end))
    } else {
        None
    }
}

} // verus!
