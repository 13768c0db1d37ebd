//! Pages of a fixed size.
use vstd::prelude::*;

verus! {

/// The size of a page.
pub const PAGE_SIZE: usize = 4096;

/// The size of a page where none is configured.
pub const DEFAULT_PAGE_SIZE: usize = 4096;

/// A page: its number and its bytes.
pub struct Page {
    pub id: u64,
    pub data: Vec<u8>,
}

/// The bytes `s` with `bytes` written at `offset`.
pub open spec fn overwritten(s: Seq<u8>, offset: int, bytes: Seq<u8>) -> Seq<u8> {
    s.subrange(0, offset) + bytes + s.subrange(offset + bytes.len(), s.len() as int)
}

/// Writes `bytes` over the bytes at `offset`.
pub fn overwrite(s: &mut Vec<u8>, offset: usize, bytes: &[u8])
    requires
        offset + bytes@.len() <= old(s)@.len(),
    ensures
        final(s)@ == overwritten(old(s)@, offset as int, bytes@),
{
    let ghost before = s@;
    let mut i: usize = 0;
    while i < bytes.len()
        invariant
            i <= bytes@.len(),
            before == old(s)@,
            offset + bytes@.len() <= before.len(),
            s@.len() == before.len(),
            forall|k: int| 0 <= k < i ==> s@[offset + k] == bytes@[k],
            forall|k: int| 0 <= k < offset ==> s@[k] == before[k],
            forall|k: int| offset + i <= k < before.len() ==> s@[k] == before[k],
        decreases bytes@.len() - i,
    {
        let total: usize = s.len();
        s[offset + i] = bytes[i];
        i = i + 1;
    }
    proof {
        let want = overwritten(before, offset as int, bytes@);
        assert forall|k: int| 0 <= k < want.len() implies s@[k] == want[k] by {
            if offset <= k < offset + bytes@.len() {
                assert(s@[offset + (k - offset)] == bytes@[k - offset]);
            }
        }
        assert(s@ =~= want);
    }
}

impl Page {
    /// A page of zeros.
    pub fn new(id: u64) -> (p: Page)
        ensures
            p.id == id,
            p.data@ == Seq::new(PAGE_SIZE as nat, |i: int| 0u8),
    {
        let data: Vec<u8> = vec![0; PAGE_SIZE];
        proof {
            assert(data@ =~= Seq::new(PAGE_SIZE as nat, |i: int| 0u8));
        }
        Page { id, data }
    }

    /// The `len` bytes at `offset`.
    pub fn read(&self, offset: usize, len: usize) -> (s: &[u8])
        requires
            offset + len <= self.data@.len(),
        ensures
            s@ == self.data@.subrange(offset as int, offset + len),
    {
        let total: usize = self.data.len();
        vstd::slice::slice_subrange(self.data.as_slice(), offset, offset + len)
    }

    /// Writes `bytes` over the bytes at `offset`.
    pub fn write(&mut self, offset: usize, bytes: &[u8])
        requires
            offset + bytes@.len() <= old(self).data@.len(),
        ensures
            final(self).id == old(self).id,
            final(self).data@ == overwritten(old(self).data@, offset as int, bytes@),
    {
        overwrite(&mut self.data, offset, bytes);
    }
}

/// What was written to a page is read back.
pub proof fn written_is_read(s: Seq<u8>, offset: int, bytes: Seq<u8>)
    requires
        0 <= offset,
        offset + bytes.len() <= s.len(),
    ensures
        overwritten(s, offset, bytes).subrange(offset, offset + bytes.len()) == bytes,
        overwritten(s, offset, bytes).len() == s.len(),
        forall|i: int|
            0 <= i < s.len() && !(offset <= i < offset + bytes.len()) ==> #[trigger] overwritten(s, offset, bytes)[i]
                == s[i],
{
    assert(overwritten(s, offset, bytes).subrange(offset, offset + bytes.len()) =~= bytes);
}

} // verus!
