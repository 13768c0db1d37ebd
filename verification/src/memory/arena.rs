//! A buffer that is handed out piece by piece.
use vstd::prelude::*;

verus! {

/// A buffer of which the first `offset` bytes are handed out.
pub struct Arena {
    buffer: Vec<u8>,
    offset: usize,
}

impl Arena {
    /// The bytes of the buffer.
    pub closed spec fn bytes(&self) -> Seq<u8> {
        self.buffer@
    }

    /// How many bytes are handed out.
    pub closed spec fn used(&self) -> nat {
        self.offset as nat
    }

    /// What is handed out lies inside the buffer.
    pub closed spec fn wf(&self) -> bool {
        self.offset <= self.buffer@.len()
    }

    /// No more is handed out than there is.
    pub proof fn used_is_inside(&self)
        requires
            self.wf(),
        ensures
            self.used() <= self.bytes().len(),
    {
    }

    /// A buffer of `size` zeros, none of it handed out.
    pub fn new(size: usize) -> (r: Arena)
        ensures
            r.wf(),
            r.used() == 0,
            r.bytes() == Seq::new(size as nat, |i: int| 0u8),
    {
        let buffer: Vec<u8> = vec![0; size];
        let r = Arena { buffer, offset: 0 };
        proof {
            assert(r.bytes() =~= Seq::new(size as nat, |i: int| 0u8));
        }
        r
    }

    /// Hands out the next `size` bytes. Nothing where fewer are left.
    pub fn allocate(&mut self, size: usize) -> (r: Option<&mut [u8]>)
        requires
            old(self).wf(),
        ensures
            r is Some <==> old(self).used() + size <= old(self).bytes().len(),
            match r {
                Some(piece) => {
                    let start = old(self).used() as int;
                    &&& piece@ == old(self).bytes().subrange(start, start + size)
                    &&& final(self).used() == old(self).used() + size
                    &&& final(piece)@.len() == size ==> final(self).wf() && final(self).bytes() == old(self).bytes().subrange(0, start) + final(piece)@ + old(self).bytes().subrange(
                        start + size,
                        old(self).bytes().len() as int,
                    )
                },
                None => *final(self) == *old(self),
            },
    {
        let total: usize = self.buffer.len();
        if size > total - self.offset {
            return None;
        }
        let start: usize = self.offset;
        self.offset = start + size;
        let (head, rest) = self.buffer.as_mut_slice().split_at_mut(start);
        let (piece, tail) = rest.split_at_mut(size);
        Some(piece)
    }

    /// Takes everything back that was handed out. The bytes stay as they are.
    pub fn reset(&mut self)
        ensures
            final(self).wf(),
            final(self).used() == 0,
            final(self).bytes() == old(self).bytes(),
    {
        self.offset = 0;
    }
}

} // verus!
