//! A look at bytes.
use vstd::prelude::*;

use crate::util::fixed::{be_value, pow256_values, read_be};

verus! {

/// A look at bytes.
pub struct DocView<'a> {
    data: &'a [u8],
}

impl<'a> DocView<'a> {
    /// The bytes that are looked at.
    pub closed spec fn bytes(&self) -> Seq<u8> {
        self.data@
    }

    /// Looks at bytes.
    pub fn new(data: &'a [u8]) -> (r: DocView<'a>)
        ensures
            r.bytes() == data@,
    {
        DocView { data }
    }

    /// The number in the four bytes at `offset`, high byte first.
    pub fn get_u32(&self, offset: usize) -> (n: u32)
        requires
            offset + 4 <= self.bytes().len(),
        ensures
            n as nat == be_value(self.bytes().subrange(offset as int, offset + 4)),
    {
        proof {
            pow256_values();
        }
        read_be(self.data, offset, 4) as u32
    }

    /// The `len` bytes at `offset`.
    pub fn slice(&self, offset: usize, len: usize) -> (s: &[u8])
        requires
            offset + len <= self.bytes().len(),
        ensures
            s@ == self.bytes().subrange(offset as int, offset + len),
    {
        let total: usize = self.data.len();
        vstd::slice::slice_subrange(self.data, offset, offset + len)
    }
}

} // verus!
