//! The composite indexes of all collections.
use vstd::prelude::*;

use crate::document::firelite_doc::{names_view, Doc, FireLiteDoc};
use crate::document::value::{items_view, Val, Value};
use crate::index::composite::composite_index::{
    docs_view, range_ids, with_document, with_documents, without_document, without_documents, CompositeIndex,
};
use crate::index::composite::definition::{CompositeIndexDefinition, Definition};
use crate::index::composite::key_encoder::{key_bytes, prefix_bytes};
use crate::index::composite::range_builder::{build_prefix_range, prefix_range_ordered, upper};
use crate::text::same_text;

verus! {

/// The composite indexes, in the order in which they were made.
pub struct CompositeIndexManager {
    next_id: u32,
    list: Vec<CompositeIndex>,
}

/// Whether the fields of a query are the first fields of an index.
pub open spec fn leads(d: Definition, fields: Seq<Seq<char>>) -> bool {
    &&& fields.len() <= d.columns.len()
    &&& forall|i: int| 0 <= i < fields.len() ==> d.columns[i].0 == #[trigger] fields[i]
}

/// Whether the fields of a query are the first fields of an index.
pub fn index_leads(def: &CompositeIndexDefinition, fields: &Vec<String>) -> (r: bool)
    ensures
        r == leads(def@, names_view(fields@)),
{
    if fields.len() > def.fields.len() {
        return false;
    }
    let mut i: usize = 0;
    while i < fields.len()
        invariant
            i <= fields@.len() <= def.fields@.len(),
            forall|k: int| 0 <= k < i ==> def@.columns[k].0 == #[trigger] names_view(fields@)[k],
        decreases fields@.len() - i,
    {
        if !same_text(def.fields[i].field.as_str(), fields[i].as_str()) {
            proof {
                assert(def@.columns[i as int].0 != names_view(fields@)[i as int]);
            }
            return false;
        }
        i = i + 1;
    }
    true
}

impl Default for CompositeIndexManager {
    fn default() -> (r: CompositeIndexManager)
        ensures
            r.wf(),
            r.indexes() == Seq::<CompositeIndex>::empty(),
            r.last_id() == 0,
    {
        CompositeIndexManager { next_id: 0, list: Vec::new() }
    }
}

impl CompositeIndexManager {
    /// The indexes, in the order in which they were made.
    pub closed spec fn indexes(&self) -> Seq<CompositeIndex> {
        self.list@
    }

    /// The greatest number that an index was given.
    pub closed spec fn last_id(&self) -> u32 {
        self.next_id
    }

    /// No two indexes have the same number, and none a greater one than was given.
    pub open spec fn wf(&self) -> bool {
        &&& forall|i: int| 0 <= i < self.indexes().len() ==> (#[trigger] self.indexes()[i]).wf()
        &&& forall|i: int|
            0 <= i < self.indexes().len() ==> 0 < (#[trigger] self.indexes()[i]).definition.id <= self.last_id()
        &&& forall|i: int, j: int|
            0 <= i < j < self.indexes().len() ==> (#[trigger] self.indexes()[i]).definition.id != (
            #[trigger] self.indexes()[j]).definition.id
    }

    /// Makes an index that holds no document, under the next number.
    pub fn create_index(&mut self, definition: CompositeIndexDefinition) -> (id: u32)
        requires
            old(self).wf(),
            old(self).last_id() < u32::MAX,
        ensures
            final(self).wf(),
            id == old(self).last_id() + 1,
            final(self).last_id() == id,
            final(self).indexes().len() == old(self).indexes().len() + 1,
            final(self).indexes().drop_last() == old(self).indexes(),
            final(self).indexes().last().definition@ == (Definition {
                id,
                collection: definition@.collection,
                columns: definition@.columns,
            }),
            final(self).indexes().last().entries() == Map::<Seq<u8>, Seq<char>>::empty(),
    {
        let id: u32 = self.next_id + 1;
        self.next_id = id;
        let def = CompositeIndexDefinition { id, collection: definition.collection, fields: definition.fields };
        self.list.push(CompositeIndex::new(def));
        proof {
            assert(self.list@.drop_last() =~= old(self).list@);
            assert forall|i: int, j: int| 0 <= i < j < self.indexes().len() implies (
            #[trigger] self.indexes()[i]).definition.id != (#[trigger] self.indexes()[j]).definition.id by {
                assert(self.indexes()[i] == old(self).indexes()[i]);
                if j < old(self).indexes().len() {
                    assert(self.indexes()[j] == old(self).indexes()[j]);
                }
            }
            assert forall|i: int| 0 <= i < self.indexes().len() implies (#[trigger] self.indexes()[i]).wf() && 0
                < self.indexes()[i].definition.id <= self.last_id() by {
                if i < old(self).indexes().len() {
                    assert(self.indexes()[i] == old(self).indexes()[i]);
                }
            }
        }
        id
    }

    /// Makes an index under a number that it had before. Nothing happens where the
    /// number is 0 or taken.
    pub fn restore_index(&mut self, definition: CompositeIndexDefinition) -> (done: bool)
        requires
            old(self).wf(),
        ensures
            final(self).wf(),
            done <==> definition@.id != 0 && forall|i: int|
                0 <= i < old(self).indexes().len() ==> (#[trigger] old(self).indexes()[i]).definition.id
                    != definition@.id,
            !done ==> *final(self) == *old(self),
            done ==> {
                &&& final(self).last_id() == if definition@.id > old(self).last_id() {
                    definition@.id
                } else {
                    old(self).last_id()
                }
                &&& final(self).indexes().len() == old(self).indexes().len() + 1
                &&& final(self).indexes().drop_last() == old(self).indexes()
                &&& final(self).indexes().last().definition@ == definition@
                &&& final(self).indexes().last().entries() == Map::<Seq<u8>, Seq<char>>::empty()
            },
    {
        let id: u32 = definition.id;
        if id == 0 {
            return false;
        }
        if self.position(id).is_some() {
            return false;
        }
        if id > self.next_id {
            self.next_id = id;
        }
        self.list.push(CompositeIndex::new(definition));
        proof {
            assert(self.list@.drop_last() =~= old(self).list@);
            assert forall|i: int, j: int| 0 <= i < j < self.indexes().len() implies (
            #[trigger] self.indexes()[i]).definition.id != (#[trigger] self.indexes()[j]).definition.id by {
                assert(self.indexes()[i] == old(self).indexes()[i]);
                if j < old(self).indexes().len() {
                    assert(self.indexes()[j] == old(self).indexes()[j]);
                }
            }
            assert forall|i: int| 0 <= i < self.indexes().len() implies (#[trigger] self.indexes()[i]).wf() && 0
                < self.indexes()[i].definition.id <= self.last_id() by {
                if i < old(self).indexes().len() {
                    assert(self.indexes()[i] == old(self).indexes()[i]);
                }
            }
        }
        true
    }

    /// Where the index with a number stands, if there is one.
    fn position(&self, id: u32) -> (r: Option<usize>)
        ensures
            match r {
                Some(i) => i < self.indexes().len() && self.indexes()[i as int].definition.id == id,
                None => forall|i: int|
                    0 <= i < self.indexes().len() ==> (#[trigger] self.indexes()[i]).definition.id != id,
            },
    {
        let mut i: usize = 0;
        while i < self.list.len()
            invariant
                i <= self.indexes().len(),
                forall|k: int| 0 <= k < i ==> (#[trigger] self.indexes()[k]).definition.id != id,
            decreases self.indexes().len() - i,
        {
            if self.list[i].definition.id == id {
                return Some(i);
            }
            i = i + 1;
        }
        None
    }

    /// The index with a number.
    pub fn get(&self, id: u32) -> (r: Option<&CompositeIndex>)
        ensures
            match r {
                Some(x) => x.definition.id == id && self.indexes().contains(*x),
                None => forall|i: int|
                    0 <= i < self.indexes().len() ==> (#[trigger] self.indexes()[i]).definition.id != id,
            },
    {
        match self.position(id) {
            Some(i) => Some(&self.list[i]),
            None => None,
        }
    }

    /// The index with a number, to be changed in place.
    pub fn get_mut(&mut self, id: u32) -> (r: Option<&mut CompositeIndex>)
        requires
            old(self).wf(),
        ensures
            match r {
                Some(x) => exists|i: int|
                    #![trigger old(self).indexes()[i]]
                    0 <= i < old(self).indexes().len() && old(self).indexes()[i].definition.id == id && *x == old(
                        self,
                    ).indexes()[i] && final(self).indexes() == old(self).indexes().update(i, *final(x)),
                None => final(self).indexes() == old(self).indexes() && forall|i: int|
                    0 <= i < old(self).indexes().len() ==> (#[trigger] old(self).indexes()[i]).definition.id != id,
            },
            final(self).last_id() == old(self).last_id(),
    {
        match self.position(id) {
            Some(i) => Some(&mut self.list[i]),
            None => None,
        }
    }

    /// The number of indexes.
    pub fn len(&self) -> (n: usize)
        ensures
            n == self.indexes().len(),
    {
        self.list.len()
    }

    /// The index at place `i`.
    pub fn index_at(&self, i: usize) -> (r: &CompositeIndex)
        requires
            i < self.indexes().len(),
        ensures
            *r == self.indexes()[i as int],
    {
        &self.list[i]
    }

    /// The indexes of a collection.
    pub fn indexes_for_collection(&self, collection: &str) -> (r: Vec<&CompositeIndex>)
        ensures
            of_collection(self.indexes(), collection@).len() == r@.len(),
            forall|i: int| 0 <= i < r@.len() ==> *(#[trigger] r@[i]) == of_collection(self.indexes(), collection@)[i],
    {
        let ghost s = self.indexes();
        let mut r: Vec<&CompositeIndex> = Vec::new();
        let mut i: usize = 0;
        proof {
            assert(s.take(0) =~= Seq::empty());
        }
        while i < self.list.len()
            invariant
                s == self.indexes(),
                s == self.list@,
                i <= s.len(),
                of_collection(s.take(i as int), collection@).len() == r@.len(),
                forall|k: int|
                    0 <= k < r@.len() ==> *(#[trigger] r@[k]) == of_collection(s.take(i as int), collection@)[k],
            decreases s.len() - i,
        {
            proof {
                assert(s.take(i + 1).drop_last() =~= s.take(i as int));
                assert(s.take(i + 1).last() == s[i as int]);
            }
            if same_text(self.list[i].definition.collection.as_str(), collection) {
                r.push(&self.list[i]);
            }
            i = i + 1;
        }
        proof {
            assert(s.take(s.len() as int) =~= s);
        }
        r
    }

    /// Puts a document into every index of its collection.
    pub fn index_document(&mut self, collection: &str, doc_id: &str, doc: &FireLiteDoc)
        requires
            old(self).wf(),
        ensures
            final(self).wf(),
            final(self).last_id() == old(self).last_id(),
            puts(old(self).indexes(), final(self).indexes(), collection@, seq![(doc_id@, doc@)]),
    {
        let mut i: usize = 0;
        let ghost docs = seq![(doc_id@, doc@)];
        while i < self.list.len()
            invariant
                docs == seq![(doc_id@, doc@)],
                self.wf(),
                self.next_id == old(self).next_id,
                i <= self.list@.len(),
                puts(old(self).list@.take(i as int), self.list@.take(i as int), collection@, docs),
                self.list@.len() == old(self).list@.len(),
                forall|k: int| i <= k < self.list@.len() ==> #[trigger] self.list@[k] == old(self).list@[k],
            decreases self.list@.len() - i,
        {
            let ghost before = self.list@;
            proof {
                assert(self.indexes()[i as int].wf());
                assert(before[i as int] == old(self).list@[i as int]);
            }
            if same_text(self.list[i].definition.collection.as_str(), collection) {
                self.list[i].index_document(doc_id, doc);
                proof {
                    one_put(before[i as int].entries(), before[i as int].definition@, doc_id@, doc@);
                }
            }
            proof {
                assert(self.list@ =~= before.update(i as int, self.list@[i as int]));
                let a = old(self).list@.take(i as int);
                let b = before.take(i as int);
                let c = old(self).list@.take(i + 1);
                let d = self.list@.take(i + 1);
                assert forall|k: int| 0 <= k < c.len() implies put_one(#[trigger] c[k], d[k], collection@, docs) by {
                    if k < i {
                        assert(a[k] == c[k]);
                        assert(b[k] == d[k]);
                    }
                }
            }
            i = i + 1;
        }
        proof {
            assert(old(self).list@.take(i as int) =~= old(self).list@);
            assert(self.list@.take(i as int) =~= self.list@);
        }
    }

    /// Puts documents into every index of their collection.
    pub fn index_batch(&mut self, collection: &str, docs: &Vec<(String, FireLiteDoc)>)
        requires
            old(self).wf(),
        ensures
            final(self).wf(),
            final(self).last_id() == old(self).last_id(),
            puts(old(self).indexes(), final(self).indexes(), collection@, docs_view(docs@)),
    {
        let mut i: usize = 0;
        let ghost ds = docs_view(docs@);
        while i < self.list.len()
            invariant
                ds == docs_view(docs@),
                self.wf(),
                self.next_id == old(self).next_id,
                i <= self.list@.len(),
                puts(old(self).list@.take(i as int), self.list@.take(i as int), collection@, ds),
                self.list@.len() == old(self).list@.len(),
                forall|k: int| i <= k < self.list@.len() ==> #[trigger] self.list@[k] == old(self).list@[k],
            decreases self.list@.len() - i,
        {
            let ghost before = self.list@;
            proof {
                assert(self.indexes()[i as int].wf());
                assert(before[i as int] == old(self).list@[i as int]);
            }
            if same_text(self.list[i].definition.collection.as_str(), collection) {
                self.list[i].index_batch(docs);
            }
            proof {
                assert(self.list@ =~= before.update(i as int, self.list@[i as int]));
                let a = old(self).list@.take(i as int);
                let b = before.take(i as int);
                let c = old(self).list@.take(i + 1);
                let d = self.list@.take(i + 1);
                assert forall|k: int| 0 <= k < c.len() implies put_one(#[trigger] c[k], d[k], collection@, ds) by {
                    if k < i {
                        assert(a[k] == c[k]);
                        assert(b[k] == d[k]);
                    }
                }
            }
            i = i + 1;
        }
        proof {
            assert(old(self).list@.take(i as int) =~= old(self).list@);
            assert(self.list@.take(i as int) =~= self.list@);
        }
    }

    /// Takes a document out of every index of its collection.
    pub fn remove_document(&mut self, collection: &str, doc_id: &str, doc: &FireLiteDoc)
        requires
            old(self).wf(),
        ensures
            final(self).wf(),
            final(self).last_id() == old(self).last_id(),
            takes(old(self).indexes(), final(self).indexes(), collection@, seq![(doc_id@, doc@)]),
    {
        let mut i: usize = 0;
        let ghost docs = seq![(doc_id@, doc@)];
        while i < self.list.len()
            invariant
                docs == seq![(doc_id@, doc@)],
                self.wf(),
                self.next_id == old(self).next_id,
                i <= self.list@.len(),
                takes(old(self).list@.take(i as int), self.list@.take(i as int), collection@, docs),
                self.list@.len() == old(self).list@.len(),
                forall|k: int| i <= k < self.list@.len() ==> #[trigger] self.list@[k] == old(self).list@[k],
            decreases self.list@.len() - i,
        {
            let ghost before = self.list@;
            proof {
                assert(self.indexes()[i as int].wf());
                assert(before[i as int] == old(self).list@[i as int]);
            }
            if same_text(self.list[i].definition.collection.as_str(), collection) {
                self.list[i].remove_document(doc_id, doc);
                proof {
                    one_taken(before[i as int].entries(), before[i as int].definition@, doc_id@, doc@);
                }
            }
            proof {
                assert(self.list@ =~= before.update(i as int, self.list@[i as int]));
                let a = old(self).list@.take(i as int);
                let b = before.take(i as int);
                let c = old(self).list@.take(i + 1);
                let d = self.list@.take(i + 1);
                assert forall|k: int| 0 <= k < c.len() implies take_one(#[trigger] c[k], d[k], collection@, docs) by {
                    if k < i {
                        assert(a[k] == c[k]);
                        assert(b[k] == d[k]);
                    }
                }
            }
            i = i + 1;
        }
        proof {
            assert(old(self).list@.take(i as int) =~= old(self).list@);
            assert(self.list@.take(i as int) =~= self.list@);
        }
    }

    /// Takes documents out of every index of their collection.
    pub fn remove_batch(&mut self, collection: &str, docs: &Vec<(String, FireLiteDoc)>)
        requires
            old(self).wf(),
        ensures
            final(self).wf(),
            final(self).last_id() == old(self).last_id(),
            takes(old(self).indexes(), final(self).indexes(), collection@, docs_view(docs@)),
    {
        let mut i: usize = 0;
        let ghost ds = docs_view(docs@);
        while i < self.list.len()
            invariant
                ds == docs_view(docs@),
                self.wf(),
                self.next_id == old(self).next_id,
                i <= self.list@.len(),
                takes(old(self).list@.take(i as int), self.list@.take(i as int), collection@, ds),
                self.list@.len() == old(self).list@.len(),
                forall|k: int| i <= k < self.list@.len() ==> #[trigger] self.list@[k] == old(self).list@[k],
            decreases self.list@.len() - i,
        {
            let ghost before = self.list@;
            proof {
                assert(self.indexes()[i as int].wf());
                assert(before[i as int] == old(self).list@[i as int]);
            }
            if same_text(self.list[i].definition.collection.as_str(), collection) {
                self.list[i].remove_batch(docs);
            }
            proof {
                assert(self.list@ =~= before.update(i as int, self.list@[i as int]));
                let a = old(self).list@.take(i as int);
                let b = before.take(i as int);
                let c = old(self).list@.take(i + 1);
                let d = self.list@.take(i + 1);
                assert forall|k: int| 0 <= k < c.len() implies take_one(#[trigger] c[k], d[k], collection@, ds) by {
                    if k < i {
                        assert(a[k] == c[k]);
                        assert(b[k] == d[k]);
                    }
                }
            }
            i = i + 1;
        }
        proof {
            assert(old(self).list@.take(i as int) =~= old(self).list@);
            assert(self.list@.take(i as int) =~= self.list@);
        }
    }

    /// Puts `doc_id` under `key` in the index with a number, if there is one.
    pub fn put_entry(&mut self, id: u32, key: &[u8], doc_id: &str)
        requires
            old(self).wf(),
        ensures
            final(self).wf(),
            final(self).last_id() == old(self).last_id(),
            entry_put(old(self).indexes(), final(self).indexes(), id, key@, doc_id@),
    {
        match self.position(id) {
            Some(i) => {
                proof {
                    assert(self.indexes()[i as int].wf());
                }
                let was = self.list[i].tree.insert(
                    crate::index::composite::key_encoder::key_of(key),
                    doc_id.to_owned(),
                );
                proof {
                    assert(self.list@[i as int].entries() =~= old(self).list@[i as int].entries().insert(
                        key@,
                        doc_id@,
                    ));
                    assert forall|k: int| 0 <= k < self.list@.len() && k != i implies (
                    #[trigger] old(self).list@[k]).definition.id != id by {
                        assert(old(self).indexes()[k].definition.id != old(self).indexes()[i as int].definition.id);
                    }
                }
            },
            None => {},
        }
    }

    /// Takes `key` out of the index with a number, if there is one.
    pub fn drop_entry(&mut self, id: u32, key: &[u8])
        requires
            old(self).wf(),
        ensures
            final(self).wf(),
            final(self).last_id() == old(self).last_id(),
            entry_dropped(old(self).indexes(), final(self).indexes(), id, key@),
    {
        match self.position(id) {
            Some(i) => {
                proof {
                    assert(self.indexes()[i as int].wf());
                }
                let was = self.list[i].tree.remove(&crate::index::composite::key_encoder::key_of(key));
                proof {
                    assert(self.list@[i as int].entries() =~= old(self).list@[i as int].entries().remove(key@));
                    assert forall|k: int| 0 <= k < self.list@.len() && k != i implies (
                    #[trigger] old(self).list@[k]).definition.id != id by {
                        assert(old(self).indexes()[k].definition.id != old(self).indexes()[i as int].definition.id);
                    }
                }
            },
            None => {},
        }
    }

    /// The documents that hold the given values in the given fields, from the first index
    /// of the collection that begins with these fields. Nothing where there is none.
    pub fn exact_match_doc_ids(
        &self,
        collection: &str,
        fields: &Vec<String>,
        values: &Vec<Value>,
    ) -> (r: Option<Vec<String>>)
        requires
            self.wf(),
        ensures
            match (r, first_leading(self.indexes(), collection@, names_view(fields@))) {
                (Some(ids), Some(x)) => names_view(ids@) == prefix_ids(x, items_view(values@)),
                (None, None) => true,
                _ => false,
            },
    {
        let ghost s = self.indexes();
        let mut i: usize = 0;
        proof {
            assert(s.skip(0) =~= s);
        }
        while i < self.list.len()
            invariant
                self.wf(),
                s == self.indexes(),
                s == self.list@,
                i <= s.len(),
                first_leading(s, collection@, names_view(fields@)) == first_leading(
                    s.skip(i as int),
                    collection@,
                    names_view(fields@),
                ),
            decreases s.len() - i,
        {
            proof {
                assert(s.skip(i as int)[0] == s[i as int]);
                assert(s.skip(i as int).drop_first() =~= s.skip(i + 1));
                assert(self.indexes()[i as int].wf());
            }
            if same_text(self.list[i].definition.collection.as_str(), collection) && index_leads(
                &self.list[i].definition,
                fields,
            ) {
                let range = build_prefix_range(&self.list[i].definition, values);
                proof {
                    prefix_range_ordered(key_bytes(range.start));
                }
                return Some(self.list[i].range_scan(&range.start, &range.end));
            }
            i = i + 1;
        }
        None
    }
}

/// The indexes of a collection among `s`.
pub open spec fn of_collection(s: Seq<CompositeIndex>, collection: Seq<char>) -> Seq<CompositeIndex>
    decreases s.len(),
{
    if s.len() == 0 {
        Seq::empty()
    } else if s.last().definition@.collection == collection {
        of_collection(s.drop_last(), collection).push(s.last())
    } else {
        of_collection(s.drop_last(), collection)
    }
}

/// The first index of a collection that begins with the given fields.
pub open spec fn first_leading(
    s: Seq<CompositeIndex>,
    collection: Seq<char>,
    fields: Seq<Seq<char>>,
) -> Option<CompositeIndex>
    decreases s.len(),
{
    if s.len() == 0 {
        None
    } else if s[0].definition@.collection == collection && leads(s[0].definition@, fields) {
        Some(s[0])
    } else {
        first_leading(s.drop_first(), collection, fields)
    }
}

/// The documents of an index that hold the given values in its first fields.
pub open spec fn prefix_ids(x: CompositeIndex, values: Seq<Val>) -> Seq<Seq<char>> {
    range_ids(x.tree.seq(), prefix_bytes(x.definition@, values), upper(prefix_bytes(x.definition@, values)))
}

/// `b` is the index `a` with documents of a collection put in.
pub open spec fn put_one(
    a: CompositeIndex,
    b: CompositeIndex,
    collection: Seq<char>,
    docs: Seq<(Seq<char>, Doc)>,
) -> bool {
    if a.definition@.collection == collection {
        b.definition == a.definition && b.entries() == with_documents(a.entries(), a.definition@, docs)
    } else {
        b == a
    }
}

/// `b` are the indexes `a` with documents of a collection put in.
pub open spec fn puts(
    a: Seq<CompositeIndex>,
    b: Seq<CompositeIndex>,
    collection: Seq<char>,
    docs: Seq<(Seq<char>, Doc)>,
) -> bool {
    &&& a.len() == b.len()
    &&& forall|i: int| 0 <= i < a.len() ==> put_one(#[trigger] a[i], b[i], collection, docs)
}

/// `b` is the index `a` with documents of a collection taken out.
pub open spec fn take_one(
    a: CompositeIndex,
    b: CompositeIndex,
    collection: Seq<char>,
    docs: Seq<(Seq<char>, Doc)>,
) -> bool {
    if a.definition@.collection == collection {
        b.definition == a.definition && b.entries() == without_documents(a.entries(), a.definition@, docs)
    } else {
        b == a
    }
}

/// `b` are the indexes `a` with documents of a collection taken out.
pub open spec fn takes(
    a: Seq<CompositeIndex>,
    b: Seq<CompositeIndex>,
    collection: Seq<char>,
    docs: Seq<(Seq<char>, Doc)>,
) -> bool {
    &&& a.len() == b.len()
    &&& forall|i: int| 0 <= i < a.len() ==> take_one(#[trigger] a[i], b[i], collection, docs)
}

/// `b` are the indexes `a` with an entry put into the one with a number.
pub open spec fn entry_put(
    a: Seq<CompositeIndex>,
    b: Seq<CompositeIndex>,
    id: u32,
    key: Seq<u8>,
    doc_id: Seq<char>,
) -> bool {
    &&& a.len() == b.len()
    &&& forall|i: int|
        0 <= i < a.len() ==> if (#[trigger] a[i]).definition.id == id {
            b[i].definition == a[i].definition && b[i].entries() == a[i].entries().insert(key, doc_id)
        } else {
            b[i] == a[i]
        }
}

/// `b` are the indexes `a` with an entry taken out of the one with a number.
pub open spec fn entry_dropped(a: Seq<CompositeIndex>, b: Seq<CompositeIndex>, id: u32, key: Seq<u8>) -> bool {
    &&& a.len() == b.len()
    &&& forall|i: int|
        0 <= i < a.len() ==> if (#[trigger] a[i]).definition.id == id {
            b[i].definition == a[i].definition && b[i].entries() == a[i].entries().remove(key)
        } else {
            b[i] == a[i]
        }
}

proof fn one_put(entries: Map<Seq<u8>, Seq<char>>, d: Definition, doc_id: Seq<char>, doc: Doc)
    ensures
        with_documents(entries, d, seq![(doc_id, doc)]) == with_document(entries, d, doc_id, doc),
{
    reveal_with_fuel(with_documents, 2);
    assert(seq![(doc_id, doc)].drop_last() =~= Seq::empty());
}

proof fn one_taken(entries: Map<Seq<u8>, Seq<char>>, d: Definition, doc_id: Seq<char>, doc: Doc)
    ensures
        without_documents(entries, d, seq![(doc_id, doc)]) == without_document(entries, d, doc_id, doc),
{
    reveal_with_fuel(without_documents, 2);
    assert(seq![(doc_id, doc)].drop_last() =~= Seq::empty());
}

} // verus!
