//! A store whose bytes are those of a mapped file.
use vstd::prelude::*;

use crate::document::value::copy_bytes;
use crate::memory::page::{overwrite, overwritten};

verus! {

/// The bytes of a mapped file. A file with no bytes is not mapped.
pub struct MmapStore {
    pub mmap: Option<Vec<u8>>,
    pub size: usize,
}

/// The `len` bytes at `offset`, or zeros where the map does not reach that far.
pub open spec fn slice_or_zeros(map: Option<Seq<u8>>, offset: int, len: int) -> Seq<u8> {
    match map {
        Some(s) => if offset + len <= s.len() {
            s.subrange(offset, offset + len)
        } else {
            Seq::new(len as nat, |i: int| 0u8)
        },
        None => Seq::new(len as nat, |i: int| 0u8),
    }
}

/// The map with `data` written at `offset`, where it reaches that far.
pub open spec fn written(map: Option<Seq<u8>>, offset: int, data: Seq<u8>) -> Option<Seq<u8>> {
    match map {
        Some(s) => if offset + data.len() <= s.len() {
            Some(overwritten(s, offset, data))
        } else {
            Some(s)
        },
        None => None,
    }
}

fn zeros(len: usize) -> (r: Vec<u8>)
    ensures
        r@ == Seq::new(len as nat, |i: int| 0u8),
{
    let r: Vec<u8> = vec![0; len];
    proof {
        assert(r@ =~= Seq::new(len as nat, |i: int| 0u8));
    }
    r
}

impl MmapStore {
    /// The bytes of the map.
    pub open spec fn map(&self) -> Option<Seq<u8>> {
        match self.mmap {
            Some(v) => Some(v@),
            None => None,
        }
    }

    /// How many bytes the store has.
    pub open spec fn len(&self) -> nat {
        self.size as nat
    }

    /// The size is that of the map.
    pub open spec fn wf(&self) -> bool {
        match self.mmap {
            Some(v) => self.size == v@.len() && self.size > 0,
            None => self.size == 0,
        }
    }

    /// The store of a file with the given bytes.
    pub fn open(bytes: Vec<u8>) -> (r: MmapStore)
        ensures
            r.wf(),
            r.len() == bytes@.len(),
            r.map() == if bytes@.len() == 0 {
                None
            } else {
                Some(bytes@)
            },
    {
        let size: usize = bytes.len();
        if size == 0 {
            MmapStore { mmap: None, size: 0 }
        } else {
            MmapStore { mmap: Some(bytes), size }
        }
    }

    /// The `len` bytes at `offset`, or zeros where the map does not reach that far.
    pub fn read_slice(&self, offset: usize, len: usize) -> (r: Vec<u8>)
        ensures
            r@ == slice_or_zeros(self.map(), offset as int, len as int),
    {
        match &self.mmap {
            Some(v) => {
                let total: usize = v.len();
                if offset > total || len > total - offset {
                    zeros(len)
                } else {
                    copy_bytes(vstd::slice::slice_subrange(v.as_slice(), offset, offset + len))
                }
            },
            None => zeros(len),
        }
    }

    /// Writes `data` at `offset`, where the map reaches that far.
    pub fn write_slice(&mut self, offset: usize, data: &[u8])
        requires
            old(self).wf(),
        ensures
            final(self).wf(),
            final(self).len() == old(self).len(),
            final(self).map() == written(old(self).map(), offset as int, data@),
    {
        match self.mmap.take() {
            Some(v) => {
                let mut v = v;
                let total: usize = v.len();
                if !(offset > total || data.len() > total - offset) {
                    overwrite(&mut v, offset, data);
                }
                self.mmap = Some(v);
            },
            None => {},
        }
    }
}

} // verus!
