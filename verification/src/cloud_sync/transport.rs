//! Frames on a stream of bytes.
use vstd::prelude::*;

use crate::util::frame::{frame_be, parse_frame_be, put_frame_be, read_frame_be};

verus! {

/// The transport over a stream of its own: each payload behind its length, most significant
/// byte first.
pub struct TcpTransport;

impl TcpTransport {
    /// The frame of a payload.
    pub fn frame(payload: &[u8]) -> (out: Vec<u8>)
        ensures
            out@ == frame_be(payload@),
    {
        let mut out: Vec<u8> = Vec::new();
        put_frame_be(&mut out, payload);
        proof {
            assert(Seq::<u8>::empty() + frame_be(payload@) =~= frame_be(payload@));
        }
        out
    }

    /// The payload at the front of what has come in, and how many bytes it took; nothing
    /// while it has not come in whole.
    pub fn unframe(bytes: &[u8]) -> (r: Option<(Vec<u8>, usize)>)
        ensures
            match (r, parse_frame_be(bytes@)) {
                (Some((p, n)), Some((q, m))) => p@ == q && n == m,
                (None, None) => true,
                _ => false,
            },
    {
        read_frame_be(bytes)
    }
}

} // verus!
