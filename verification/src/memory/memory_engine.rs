//! Documents in a mapped file, with a cache of its pages.
use vstd::prelude::*;

use crate::document::value::copy_bytes;
use crate::error::HakoError;
use crate::memory::allocator::Allocator;
use crate::memory::mmap_store::{slice_or_zeros, written, MmapStore};
use crate::memory::page::DEFAULT_PAGE_SIZE;
use crate::memory::page_cache::{after_put, distinct, holds, total_bytes, BlockKey, Held, PageCache};

verus! {

/// Documents in a mapped file.
pub struct MemoryEngine {
    page_size: usize,
    store: MmapStore,
    allocator: Allocator,
    cache: PageCache,
}

/// The key under which a page is cached.
pub open spec fn page_key(page_id: int, page_size: int) -> BlockKey {
    BlockKey { segment_id: 0, offset: (page_id * page_size) as u64 }
}

impl MemoryEngine {
    /// The bytes of the file.
    pub closed spec fn map(&self) -> Option<Seq<u8>> {
        self.store.map()
    }

    /// The size of the file.
    pub closed spec fn size(&self) -> nat {
        self.store.len()
    }

    /// The offset of the next document.
    pub closed spec fn next(&self) -> usize {
        self.allocator.next()
    }

    /// The cached pages.
    pub closed spec fn cached(&self) -> Seq<Held> {
        self.cache.held()
    }

    /// The bytes that the cache may hold.
    pub closed spec fn cache_max(&self) -> nat {
        self.cache.max()
    }

    /// The cache is in order.
    pub closed spec fn wf(&self) -> bool {
        &&& self.cache.wf()
        &&& self.store.wf()
        &&& self.page_size == DEFAULT_PAGE_SIZE
    }

    /// The size of an engine is the number of bytes of its file. Where there is no file it is 0.
    pub proof fn size_is_of_map(&self)
        requires
            self.wf(),
        ensures
            match self.map() {
                Some(s) => s.len() == self.size() && self.size() > 0,
                None => self.size() == 0,
            },
    {
    }

    /// The cache holds no more bytes than it may, and no page twice.
    pub proof fn cache_is_bounded(&self)
        requires
            self.wf(),
        ensures
            total_bytes(self.cached()) <= self.cache_max(),
            distinct(self.cached()),
    {
        self.cache.bounded();
    }

    /// The documents of a file with the given bytes, with a cache of at most
    /// `cache_capacity` bytes.
    pub fn open(bytes: Vec<u8>, cache_capacity: usize) -> (r: MemoryEngine)
        ensures
            r.wf(),
            r.next() == 0,
            r.cached() == Seq::<Held>::empty(),
            r.cache_max() == cache_capacity,
            r.size() == bytes@.len(),
            r.map() == if bytes@.len() == 0 {
                None
            } else {
                Some(bytes@)
            },
    {
        MemoryEngine {
            page_size: DEFAULT_PAGE_SIZE,
            store: MmapStore::open(bytes),
            allocator: Allocator::new(),
            cache: PageCache::new(cache_capacity),
        }
    }

    /// Writes a document behind those before it, and hands back where. An error where the
    /// file has no room for it; its place is taken all the same.
    pub fn write_doc(&mut self, data: &[u8]) -> (r: Result<usize, HakoError>)
        requires
            old(self).wf(),
            old(self).next() + data@.len() <= usize::MAX,
        ensures
            final(self).wf(),
            final(self).next() == old(self).next() + data@.len(),
            final(self).size() == old(self).size(),
            final(self).cache_max() == old(self).cache_max(),
            final(self).cached() == old(self).cached(),
            match r {
                Ok(at) => {
                    &&& at == old(self).next()
                    &&& at + data@.len() <= old(self).size()
                    &&& final(self).map() == written(old(self).map(), at as int, data@)
                },
                Err(e) => {
                    &&& old(self).next() + data@.len() > old(self).size()
                    &&& final(self).map() == old(self).map()
                    &&& e matches HakoError::InvalidInput(m) && m@ == "mmap exhausted"@
                },
            },
    {
        let at: usize = self.allocator.allocate(data.len());
        if at + data.len() > self.store.size {
            return Err(HakoError::InvalidInput("mmap exhausted".to_owned()));
        }
        self.store.write_slice(at, data);
        Ok(at)
    }

    /// The `len` bytes at `offset`.
    pub fn read_doc(&self, offset: usize, len: usize) -> (r: Vec<u8>)
        ensures
            r@ == slice_or_zeros(self.map(), offset as int, len as int),
    {
        self.store.read_slice(offset, len)
    }

    /// The page with a number: from the cache, or from the file, and then it is cached.
    pub fn load_page(&mut self, page_id: u64) -> (r: Vec<u8>)
        requires
            old(self).wf(),
            page_id * DEFAULT_PAGE_SIZE <= usize::MAX,
        ensures
            final(self).wf(),
            final(self).map() == old(self).map(),
            final(self).size() == old(self).size(),
            final(self).cache_max() == old(self).cache_max(),
            final(self).next() == old(self).next(),
            ({
                let key = page_key(page_id as int, DEFAULT_PAGE_SIZE as int);
                if holds(old(self).cached(), key) {
                    exists|i: int|
                        0 <= i < old(self).cached().len() && #[trigger] old(self).cached()[i] == (key, r@) && final(self).cached() == old(self).cached().remove(i).push((key, r@))
                } else {
                    &&& r@ == slice_or_zeros(
                        old(self).map(),
                        page_id * DEFAULT_PAGE_SIZE,
                        DEFAULT_PAGE_SIZE as int,
                    )
                    &&& final(self).cached() == after_put(old(self).cached(), old(self).cache_max(), key, r@)
                }
            }),
    {
        let offset: usize = page_id as usize * self.page_size;
        let key = BlockKey { segment_id: 0, offset: offset as u64 };
        match self.cache.get(&key) {
            Some(data) => {
                let r = copy_bytes(data.as_slice());
                proof {
                    let s = old(self).cache.held();
                    let i = choose|i: int|
                        0 <= i < s.len() && #[trigger] s[i] == (key, data@) && self.cache.held() == s.remove(i).push(
                            (key, data@),
                        );
                    assert(s[i].0 == key);
                }
                r
            },
            None => {
                let data = self.store.read_slice(offset, self.page_size);
                self.cache.put(key, copy_bytes(data.as_slice()));
                data
            },
        }
    }
}

/// What a write has put into the file is what a read gives of that place, and what lies in
/// front of it or behind it is read as before.
pub proof fn write_is_read(a: MemoryEngine, b: MemoryEngine, at: int, data: Seq<u8>, from: int, len: int)
    requires
        a.wf(),
        0 <= at,
        0 <= from,
        0 <= len,
        at + data.len() <= a.size(),
        b.map() == written(a.map(), at, data),
        from + len <= at || at + data.len() <= from,
    ensures
        slice_or_zeros(b.map(), at, data.len() as int) == data,
        slice_or_zeros(b.map(), from, len) == slice_or_zeros(a.map(), from, len),
{
    a.size_is_of_map();
    assert(slice_or_zeros(b.map(), at, data.len() as int) =~= data);
    assert(slice_or_zeros(b.map(), from, len) =~= slice_or_zeros(a.map(), from, len));
}

} // verus!
