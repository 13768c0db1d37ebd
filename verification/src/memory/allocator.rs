//! Offsets that are handed out one behind the other.
use vstd::prelude::*;

verus! {

/// Hands out offsets.
pub struct Allocator {
    offset: usize,
}

impl Allocator {
    /// The offset that is handed out next.
    pub closed spec fn next(&self) -> usize {
        self.offset
    }

    /// Starts at 0.
    pub fn new() -> (r: Allocator)
        ensures
            r.next() == 0,
    {
        Allocator { offset: 0 }
    }

    /// Hands out the next offset, and moves it by `size`. Beyond the greatest offset it
    /// starts over at 0.
    pub fn allocate(&mut self, size: usize) -> (at: usize)
        ensures
            at == old(self).next(),
            old(self).next() + size <= usize::MAX ==> final(self).next() == old(self).next() + size,
            old(self).next() + size > usize::MAX ==> final(self).next() == old(self).next() + size - usize::MAX - 1,
    {
        let at: usize = self.offset;
        self.offset = at.wrapping_add(size);
        at
    }
}

} // verus!
