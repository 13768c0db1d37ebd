//! What was read from the files of collections, for the documents and values that lie
//! there.
use vstd::prelude::*;

use crate::directory::NameTable;
use crate::sorted_map::SortedMap;

verus! {

/// What was read from the files of a collection: documents by their keys, and values that
/// are kept aside by their places.
pub struct FileReads {
    pub documents: SortedMap<String, Vec<u8>>,
    pub blobs: SortedMap<u64, Vec<u8>>,
}

impl FileReads {
    pub open spec fn wf(&self) -> bool {
        self.documents.wf() && self.blobs.wf()
    }

    /// Nothing was read.
    pub fn new() -> (r: FileReads)
        ensures
            r.wf(),
            r.documents@ == Map::<Seq<char>, Vec<u8>>::empty(),
            r.blobs@ == Map::<u64, Vec<u8>>::empty(),
    {
        FileReads { documents: SortedMap::new(), blobs: SortedMap::new() }
    }
}

/// The bytes of a document that were read.
pub open spec fn read_doc(r: FileReads, key: Seq<char>) -> Option<Seq<u8>> {
    if r.documents@.contains_key(key) {
        Some(r.documents@[key]@)
    } else {
        None
    }
}

/// The bytes of a document of a collection that were read.
pub open spec fn file_doc(files: Map<Seq<char>, FileReads>, collection: Seq<char>, key: Seq<char>) -> Option<Seq<u8>> {
    if files.contains_key(collection) {
        read_doc(files[collection], key)
    } else {
        None
    }
}

/// What was read from the files of a collection; nothing where nothing was read.
pub open spec fn reads_are(files: Map<Seq<char>, FileReads>, c: Seq<char>, reads: FileReads) -> bool {
    if files.contains_key(c) {
        reads == files[c]
    } else {
        reads.documents@ == Map::<Seq<char>, Vec<u8>>::empty() && reads.blobs@ == Map::<u64, Vec<u8>>::empty()
    }
}

/// Everything that was read is in order.
pub open spec fn files_wf(files: NameTable<FileReads>) -> bool {
    files.wf() && forall|c: Seq<char>| #[trigger] files@.contains_key(c) ==> files@[c].wf()
}

/// The bytes of a document of a collection that were read.
pub fn find_read<'a>(files: &'a NameTable<FileReads>, collection: &str, key: &String) -> (r: Option<&'a Vec<u8>>)
    requires
        files_wf(*files),
    ensures
        match (r, file_doc(files@, collection@, key@)) {
            (Some(b), Some(m)) => b@ == m,
            (None, None) => true,
            _ => false,
        },
{
    proof {
        files.place_facts();
    }
    match files.find(collection) {
        Some(i) => {
            proof {
                assert(files@.contains_key(collection@));
            }
            files.thing(i).documents.get(key)
        },
        None => None,
    }
}

/// What was read from the files of a collection, and `nothing` where nothing was read.
pub fn reads_for<'a>(files: &'a NameTable<FileReads>, collection: &str, nothing: &'a FileReads) -> (r: &'a FileReads)
    requires
        files_wf(*files),
        nothing.wf(),
        nothing.documents@ == Map::<Seq<char>, Vec<u8>>::empty(),
        nothing.blobs@ == Map::<u64, Vec<u8>>::empty(),
    ensures
        r.wf(),
        reads_are(files@, collection@, *r),
{
    proof {
        files.place_facts();
    }
    match files.find(collection) {
        Some(i) => {
            proof {
                assert(files@.contains_key(collection@));
            }
            files.thing(i)
        },
        None => nothing,
    }
}

} // verus!
