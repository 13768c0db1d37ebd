//! The composite indexes of all collections, by the number of the collection.
use vstd::prelude::*;

use crate::composite::composite_index::{document_key, CompositeIndex};
use crate::composite::definition::CompositeIndexDefinition;
use crate::document::firelite_doc::{Doc, FireLiteDoc};
use crate::sorted_map::SortedMap;

verus! {

/// The composite indexes of each collection, in the order in which they were made.
pub struct CompositeIndexManager {
    indexes: SortedMap<u64, Vec<CompositeIndex>>,
}

/// `b` is the index `a` with a document put in or taken out.
pub open spec fn changed(a: CompositeIndex, b: CompositeIndex, put: bool, doc_id: Seq<char>, doc: Doc) -> bool {
    &&& b.definition == a.definition
    &&& b.entries() == match document_key(a.definition@, doc_id, doc) {
        Some(k) => if put {
            a.entries().insert(k, doc_id)
        } else {
            a.entries().remove(k)
        },
        None => a.entries(),
    }
}

/// `b` are the indexes `a`, each with a document put in or taken out.
pub open spec fn all_changed(
    a: Seq<CompositeIndex>,
    b: Seq<CompositeIndex>,
    put: bool,
    doc_id: Seq<char>,
    doc: Doc,
) -> bool {
    a.len() == b.len() && forall|i: int| 0 <= i < a.len() ==> changed(#[trigger] a[i], b[i], put, doc_id, doc)
}

impl CompositeIndexManager {
    /// The indexes of a collection.
    pub closed spec fn of(&self, collection_id: u32) -> Seq<CompositeIndex> {
        if self.indexes@.contains_key(collection_id as u64) {
            self.indexes@[collection_id as u64]@
        } else {
            Seq::empty()
        }
    }

    /// Whether a collection has been given an index.
    pub closed spec fn knows(&self, collection_id: u32) -> bool {
        self.indexes@.contains_key(collection_id as u64)
    }

    /// Every index is in order.
    pub closed spec fn wf(&self) -> bool {
        &&& self.indexes.wf()
        &&& forall|c: u64, i: int|
            #![trigger self.indexes@[c]@[i]]
            self.indexes@.contains_key(c) && 0 <= i < self.indexes@[c]@.len() ==> self.indexes@[c]@[i].wf()
    }

    /// The indexes of every collection are in order, and a collection that was given none has
    /// none.
    pub proof fn indexes_are_sound(&self, collection_id: u32)
        requires
            self.wf(),
        ensures
            forall|i: int| 0 <= i < self.of(collection_id).len() ==> (#[trigger] self.of(collection_id)[i]).wf(),
            !self.knows(collection_id) ==> self.of(collection_id).len() == 0,
    {
        assert forall|i: int| 0 <= i < self.of(collection_id).len() implies (#[trigger] self.of(collection_id)[i]).wf() by {
            assert(self.indexes@[collection_id as u64]@[i].wf());
        }
    }

    /// No indexes.
    pub fn new() -> (r: CompositeIndexManager)
        ensures
            r.wf(),
            forall|c: u32| !(#[trigger] r.knows(c)),
    {
        CompositeIndexManager { indexes: SortedMap::new() }
    }

    /// Makes an index that holds no document.
    pub fn create_index(&mut self, definition: CompositeIndexDefinition)
        requires
            old(self).wf(),
        ensures
            final(self).wf(),
            final(self).knows(definition.collection_id),
            final(self).of(definition.collection_id).len() == old(self).of(definition.collection_id).len() + 1,
            final(self).of(definition.collection_id).drop_last() == old(self).of(definition.collection_id),
            final(self).of(definition.collection_id).last().definition == definition,
            final(self).of(definition.collection_id).last().entries() == Map::<Seq<u8>, Seq<char>>::empty(),
            forall|c: u32|
                c != definition.collection_id ==> #[trigger] final(self).of(c) == old(self).of(c) && final(self).knows(c)
                    == old(self).knows(c),
    {
        let cid: u64 = definition.collection_id as u64;
        let ghost c0 = definition.collection_id;
        let mut list: Vec<CompositeIndex> = match self.indexes.remove(&cid) {
            Some(list) => list,
            None => Vec::new(),
        };
        let ghost before = list@;
        list.push(CompositeIndex::new(definition));
        let ghost done = list;
        let gone = self.indexes.insert(cid, list);
        proof {
            assert(self.of(c0) =~= done@);
            assert(done@.drop_last() =~= before);
            assert(before =~= old(self).of(c0));
            assert forall|c: u64, i: int|
                #![trigger self.indexes@[c]@[i]]
                self.indexes@.contains_key(c) && 0 <= i < self.indexes@[c]@.len() implies self.indexes@[c]@[i].wf() by {
                if c == cid {
                    if i < before.len() {
                        assert(done@[i] == old(self).indexes@[c]@[i]);
                    }
                } else {
                    assert(self.indexes@[c]@[i] == old(self).indexes@[c]@[i]);
                }
            }
        }
    }

    /// Puts a document into every index of its collection.
    pub fn index_document(&mut self, collection_id: u32, doc_id: &str, doc: &FireLiteDoc)
        requires
            old(self).wf(),
        ensures
            final(self).wf(),
            all_changed(old(self).of(collection_id), final(self).of(collection_id), true, doc_id@, doc@),
            forall|c: u32| c != collection_id ==> #[trigger] final(self).of(c) == old(self).of(c),
            forall|c: u32| #[trigger] final(self).knows(c) == old(self).knows(c),
    {
        self.apply(true, collection_id, doc_id, doc);
    }

    /// Takes a document out of every index of its collection.
    pub fn remove_document(&mut self, collection_id: u32, doc_id: &str, doc: &FireLiteDoc)
        requires
            old(self).wf(),
        ensures
            final(self).wf(),
            all_changed(old(self).of(collection_id), final(self).of(collection_id), false, doc_id@, doc@),
            forall|c: u32| c != collection_id ==> #[trigger] final(self).of(c) == old(self).of(c),
            forall|c: u32| #[trigger] final(self).knows(c) == old(self).knows(c),
    {
        self.apply(false, collection_id, doc_id, doc);
    }

    fn apply(&mut self, put: bool, collection_id: u32, doc_id: &str, doc: &FireLiteDoc)
        requires
            old(self).wf(),
        ensures
            final(self).wf(),
            all_changed(old(self).of(collection_id), final(self).of(collection_id), put, doc_id@, doc@),
            forall|c: u32| c != collection_id ==> #[trigger] final(self).of(c) == old(self).of(c),
            forall|c: u32| #[trigger] final(self).knows(c) == old(self).knows(c),
    {
        let cid: u64 = collection_id as u64;
        match self.indexes.remove(&cid) {
            Some(mut list) => {
                let ghost before = list@;
                let mut i: usize = 0;
                proof {
                    assert forall|k: int| 0 <= k < list@.len() implies (#[trigger] list@[k]).wf() by {
                        assert(old(self).indexes@[cid]@[k].wf());
                    }
                }
                while i < list.len()
                    invariant
                        i <= list@.len(),
                        list@.len() == before.len(),
                        forall|k: int| 0 <= k < list@.len() ==> (#[trigger] list@[k]).wf(),
                        forall|k: int| 0 <= k < i ==> changed(before[k], #[trigger] list@[k], put, doc_id@, doc@),
                        forall|k: int| i <= k < list@.len() ==> #[trigger] list@[k] == before[k],
                    decreases list@.len() - i,
                {
                    let ghost was = list@;
                    if put {
                        list[i].index_document(doc_id, doc);
                    } else {
                        list[i].remove_document(doc_id, doc);
                    }
                    proof {
                        assert(list@ =~= was.update(i as int, list@[i as int]));
                    }
                    i = i + 1;
                }
                let ghost done = list;
                let gone = self.indexes.insert(cid, list);
                proof {
                    assert(self.of(collection_id) =~= done@);
                    assert(old(self).of(collection_id) =~= before);
                    assert forall|c: u64, k: int|
                        #![trigger self.indexes@[c]@[k]]
                        self.indexes@.contains_key(c) && 0 <= k < self.indexes@[c]@.len() implies self.indexes@[c]@[
                        k
                    ].wf() by {
                        if c != cid {
                            assert(self.indexes@[c]@[k] == old(self).indexes@[c]@[k]);
                        }
                    }
                }
            },
            None => {
                proof {
                    assert(self.indexes@ =~= old(self).indexes@);
                }
            },
        }
    }

    /// The indexes of a collection, if it was given any.
    pub fn get_indexes(&self, collection_id: u32) -> (r: Option<&Vec<CompositeIndex>>)
        requires
            self.wf(),
        ensures
            match r {
                Some(list) => self.knows(collection_id) && list@ == self.of(collection_id),
                None => !self.knows(collection_id) && self.of(collection_id).len() == 0,
            },
    {
        let cid: u64 = collection_id as u64;
        self.indexes.get(&cid)
    }
}

} // verus!
