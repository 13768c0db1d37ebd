//! All indexes: composite ones, single-field ones and full-text ones.
use vstd::prelude::*;

use crate::directory::NameTable;
use crate::document::firelite_doc::{names_view, Doc, FireLiteDoc};
use crate::document::value::{items_view, Value};
use crate::index::composite::composite_index::{column_value, docs_view, CompositeIndex};
use crate::index::composite::definition::{CompositeIndexDefinition, Definition};
use crate::index::composite::manager::{
    first_leading, index_leads, leads, of_collection, prefix_ids, puts, takes, CompositeIndexManager,
};
use crate::index::index_key::{encode_scalar_into, encode_str_scalar_into, scalar_key};
use crate::index::inverted_index::{lists, with_words, without_words, words, InvertedIndex};
use crate::index::secondary_index::{with_id, without_id, SecondaryIndex};
use crate::text::same_text;

verus! {

/// The indexes of every collection.
pub struct IndexManager {
    pub composite: CompositeIndexManager,
    pub secondary: NameTable<NameTable<SecondaryIndex>>,
    pub fts: NameTable<NameTable<InvertedIndex>>,
}

/// What a table of tables holds under two names.
pub open spec fn under<T>(t: NameTable<NameTable<T>>, collection: Seq<char>, field: Seq<char>) -> Option<T> {
    if t@.contains_key(collection) && t@[collection]@.contains_key(field) {
        Some(t@[collection]@[field])
    } else {
        None
    }
}

/// A table of tables whose directories are right.
pub open spec fn tables_wf<T>(t: NameTable<NameTable<T>>) -> bool {
    t.wf() && forall|c: Seq<char>| #[trigger] t@.contains_key(c) ==> t@[c].wf()
}

/// `b` is the index `a` of a field with a document put in or taken out. Putting in takes
/// the id and the time of the document for the fields `id` and `_time`; taking out goes
/// by the fields of the document alone.
pub open spec fn secondary_step(
    put: bool,
    doc_id: Seq<char>,
    doc: Doc,
    field: Seq<char>,
    a: SecondaryIndex,
    b: SecondaryIndex,
) -> bool {
    if put {
        match column_value(field, doc_id, doc) {
            Some(v) => with_id(a, b, scalar_key(v), doc_id),
            None => b == a,
        }
    } else if doc.map().contains_key(field) {
        without_id(a, b, scalar_key(doc.map()[field]), doc_id)
    } else {
        b == a
    }
}

/// `b` is the full-text index `a` of a field with a document put in or taken out.
pub open spec fn fts_step(
    put: bool,
    doc_id: Seq<char>,
    doc: Doc,
    field: Seq<char>,
    a: InvertedIndex,
    b: InvertedIndex,
) -> bool {
    if doc.map().contains_key(field) && doc.map()[field] is String {
        let text = doc.map()[field]->String_0;
        if put {
            with_words(a, b, words(text), doc_id)
        } else {
            without_words(a, b, words(text), doc_id)
        }
    } else {
        b == a
    }
}

/// `b` are the indexes `a` of the fields of a collection after a step of each.
pub open spec fn fields_stepped<T>(
    a: NameTable<T>,
    b: NameTable<T>,
    step: spec_fn(Seq<char>, T, T) -> bool,
) -> bool {
    &&& forall|f: Seq<char>| #[trigger] b@.contains_key(f) == a@.contains_key(f)
    &&& forall|f: Seq<char>| #[trigger] a@.contains_key(f) ==> step(f, a@[f], b@[f])
}

/// `b` are the indexes `a` after a step of each index of one collection.
pub open spec fn collection_stepped<T>(
    a: NameTable<NameTable<T>>,
    b: NameTable<NameTable<T>>,
    collection: Seq<char>,
    step: spec_fn(Seq<char>, T, T) -> bool,
) -> bool {
    forall|c: Seq<char>, f: Seq<char>|
        #![trigger under(b, c, f)]
        match (under(a, c, f), under(b, c, f)) {
            (Some(x), Some(y)) => if c == collection {
                step(f, x, y)
            } else {
                y == x
            },
            (None, None) => true,
            _ => false,
        }
}

/// Every index of a field holds its keys in order.
pub open spec fn secondary_wf(t: NameTable<NameTable<SecondaryIndex>>) -> bool {
    &&& tables_wf(t)
    &&& forall|c: Seq<char>, f: Seq<char>| (#[trigger] under(t, c, f)) is Some ==> under(t, c, f)->Some_0.wf()
}

/// Every full-text index holds its words in order.
pub open spec fn fts_wf(t: NameTable<NameTable<InvertedIndex>>) -> bool {
    &&& tables_wf(t)
    &&& forall|c: Seq<char>, f: Seq<char>| (#[trigger] under(t, c, f)) is Some ==> under(t, c, f)->Some_0.wf()
}

/// Puts a document into, or takes it out of, the index of each field.
fn apply_secondary(t: &mut NameTable<SecondaryIndex>, put: bool, doc_id: &str, doc: &FireLiteDoc)
    requires
        old(t).wf(),
        forall|f: Seq<char>| #[trigger] old(t)@.contains_key(f) ==> old(t)@[f].wf(),
    ensures
        final(t).wf(),
        forall|f: Seq<char>| #[trigger] final(t)@.contains_key(f) ==> final(t)@[f].wf(),
        fields_stepped(
            *old(t),
            *final(t),
            |f: Seq<char>, a: SecondaryIndex, b: SecondaryIndex| secondary_step(put, doc_id@, doc@, f, a, b),
        ),
{
    let ghost start = *t;
    let mut i: usize = 0;
    proof {
        t.place_facts();
    }
    while i < t.len()
        invariant
            t.wf(),
            start.wf(),
            start == *old(t),
            i <= t.rows().len(),
            t.rows().len() == start.rows().len(),
            forall|f: Seq<char>| #[trigger] t.has(f) == start.has(f),
            forall|f: Seq<char>| #[trigger] t.place(f) == start.place(f),
            forall|f: Seq<char>| #[trigger] t@.contains_key(f) ==> t@[f].wf(),
            forall|k: int| 0 <= k < t.rows().len() ==> (#[trigger] t.rows()[k]).0 == start.rows()[k].0,
            forall|k: int|
                0 <= k < i ==> secondary_step(put, doc_id@, doc@, (#[trigger] t.rows()[k]).0, start.rows()[k].1, t.rows()[k].1),
            forall|k: int| i <= k < t.rows().len() ==> #[trigger] t.rows()[k] == start.rows()[k],
        decreases t.rows().len() - i,
    {
        let ghost before = *t;
        proof {
            t.place_facts();
            assert(t@.contains_key(t.rows()[i as int].0));
            assert(t.rows()[i as int] == start.rows()[i as int]);
        }
        let name = t.name(i).clone();
        let mut key: Vec<u8> = Vec::new();
        let found: bool = if put && same_text(name.as_str(), "id") {
            encode_str_scalar_into(doc_id, &mut key);
            true
        } else if put && same_text(name.as_str(), "_time") {
            encode_scalar_into(&Value::Int(doc._time), &mut key);
            true
        } else {
            match doc.get(name.as_str()) {
                Some(v) => {
                    encode_scalar_into(v, &mut key);
                    true
                },
                None => false,
            }
        };
        proof {
            assert(forall|s: Seq<u8>| Seq::<u8>::empty() + s =~= s);
        }
        if found {
            let mut index = t.swap(i, SecondaryIndex::default());
            if put {
                index.insert_borrowed(key.as_slice(), doc_id);
            } else {
                index.remove(key.as_slice(), doc_id);
            }
            let gone = t.swap(i, index);
        }
        proof {
            t.place_facts();
            assert forall|f: Seq<char>| #[trigger] t@.contains_key(f) implies t@[f].wf() by {
                assert(before@.contains_key(f));
            }
            assert forall|k: int| 0 <= k < i + 1 implies secondary_step(
                put,
                doc_id@,
                doc@,
                (#[trigger] t.rows()[k]).0,
                start.rows()[k].1,
                t.rows()[k].1,
            ) by {
                if k < i {
                    assert(t.rows()[k] == before.rows()[k]);
                }
            }
        }
        i = i + 1;
    }
    proof {
        t.place_facts();
        start.place_facts();
        assert forall|f: Seq<char>| #[trigger] start@.contains_key(f) implies secondary_step(
            put,
            doc_id@,
            doc@,
            f,
            start@[f],
            t@[f],
        ) by {
            let k = start.place(f);
            assert(start.has(f));
            assert(t.has(f));
            assert(t.rows()[k].0 == f);
        }
    }
}

/// Puts a document into, or takes it out of, the full-text index of each field.
fn apply_fts(t: &mut NameTable<InvertedIndex>, put: bool, doc_id: &str, doc: &FireLiteDoc)
    requires
        old(t).wf(),
        forall|f: Seq<char>| #[trigger] old(t)@.contains_key(f) ==> old(t)@[f].wf(),
    ensures
        final(t).wf(),
        forall|f: Seq<char>| #[trigger] final(t)@.contains_key(f) ==> final(t)@[f].wf(),
        fields_stepped(
            *old(t),
            *final(t),
            |f: Seq<char>, a: InvertedIndex, b: InvertedIndex| fts_step(put, doc_id@, doc@, f, a, b),
        ),
{
    let ghost start = *t;
    let mut i: usize = 0;
    proof {
        t.place_facts();
    }
    while i < t.len()
        invariant
            t.wf(),
            start.wf(),
            start == *old(t),
            i <= t.rows().len(),
            t.rows().len() == start.rows().len(),
            forall|f: Seq<char>| #[trigger] t.has(f) == start.has(f),
            forall|f: Seq<char>| #[trigger] t.place(f) == start.place(f),
            forall|f: Seq<char>| #[trigger] t@.contains_key(f) ==> t@[f].wf(),
            forall|k: int| 0 <= k < t.rows().len() ==> (#[trigger] t.rows()[k]).0 == start.rows()[k].0,
            forall|k: int|
                0 <= k < i ==> fts_step(put, doc_id@, doc@, (#[trigger] t.rows()[k]).0, start.rows()[k].1, t.rows()[k].1),
            forall|k: int| i <= k < t.rows().len() ==> #[trigger] t.rows()[k] == start.rows()[k],
        decreases t.rows().len() - i,
    {
        let ghost before = *t;
        proof {
            t.place_facts();
            assert(t@.contains_key(t.rows()[i as int].0));
            assert(t.rows()[i as int] == start.rows()[i as int]);
        }
        let name = t.name(i).clone();
        match doc.get(name.as_str()) {
            Some(Value::String(text)) => {
                let mut index = t.swap(i, InvertedIndex::default());
                if put {
                    index.insert(text.as_str(), doc_id.to_owned());
                } else {
                    index.remove(text.as_str(), doc_id);
                }
                let gone = t.swap(i, index);
            },
            Some(v) => {
                proof {
                    crate::document::value::parts_view(*v);
                }
            },
            None => {},
        }
        proof {
            t.place_facts();
            assert forall|f: Seq<char>| #[trigger] t@.contains_key(f) implies t@[f].wf() by {
                assert(before@.contains_key(f));
            }
            assert forall|k: int| 0 <= k < i + 1 implies fts_step(
                put,
                doc_id@,
                doc@,
                (#[trigger] t.rows()[k]).0,
                start.rows()[k].1,
                t.rows()[k].1,
            ) by {
                if k < i {
                    assert(t.rows()[k] == before.rows()[k]);
                }
            }
        }
        i = i + 1;
    }
    proof {
        t.place_facts();
        start.place_facts();
        assert forall|f: Seq<char>| #[trigger] start@.contains_key(f) implies fts_step(
            put,
            doc_id@,
            doc@,
            f,
            start@[f],
            t@[f],
        ) by {
            let k = start.place(f);
            assert(start.has(f));
            assert(t.has(f));
            assert(t.rows()[k].0 == f);
        }
    }
}

impl Default for IndexManager {
    fn default() -> (r: IndexManager)
        ensures
            r.wf(),
            r.composite.indexes() == Seq::<CompositeIndex>::empty(),
            r.composite.last_id() == 0,
            forall|c: Seq<char>, f: Seq<char>| (#[trigger] r.secondary_at(c, f)) is None,
            forall|c: Seq<char>, f: Seq<char>| (#[trigger] r.fts_at(c, f)) is None,
    {
        IndexManager { composite: CompositeIndexManager::default(), secondary: NameTable::new(), fts: NameTable::new() }
    }
}

impl IndexManager {
    /// The index of a field of a collection.
    pub open spec fn secondary_at(&self, collection: Seq<char>, field: Seq<char>) -> Option<SecondaryIndex> {
        under(self.secondary, collection, field)
    }

    /// The full-text index of a field of a collection.
    pub open spec fn fts_at(&self, collection: Seq<char>, field: Seq<char>) -> Option<InvertedIndex> {
        under(self.fts, collection, field)
    }

    /// Every index is in order.
    pub open spec fn wf(&self) -> bool {
        self.composite.wf() && secondary_wf(self.secondary) && fts_wf(self.fts)
    }

    /// Makes an empty full-text index of a field, in place of one that stood there.
    pub fn create_fts_index(&mut self, collection: &str, field: &str)
        requires
            old(self).wf(),
        ensures
            final(self).wf(),
            final(self).composite == old(self).composite,
            final(self).secondary == old(self).secondary,
            final(self).fts_at(collection@, field@) matches Some(x) && forall|w: Seq<char>| #[trigger]
                x.posting(w) == Set::<Seq<char>>::empty(),
            forall|c: Seq<char>, f: Seq<char>|
                c != collection@ || f != field@ ==> #[trigger] final(self).fts_at(c, f) == old(self).fts_at(c, f),
    {
        set_under(&mut self.fts, collection, field, InvertedIndex::default());
    }

    /// Makes an empty index of a field, in place of one that stood there.
    pub fn create_secondary_index(&mut self, collection: &str, field: &str)
        requires
            old(self).wf(),
        ensures
            final(self).wf(),
            final(self).composite == old(self).composite,
            final(self).fts == old(self).fts,
            final(self).secondary_at(collection@, field@) matches Some(x) && forall|k: Seq<u8>| #[trigger]
                x.posting(k) == Set::<Seq<char>>::empty(),
            forall|c: Seq<char>, f: Seq<char>|
                c != collection@ || f != field@ ==> #[trigger] final(self).secondary_at(c, f) == old(
                    self,
                ).secondary_at(c, f),
    {
        set_under(&mut self.secondary, collection, field, SecondaryIndex::default());
    }

    /// The composite indexes of a collection.
    pub fn indexes_for_collection(&self, collection: &str) -> (r: Vec<&CompositeIndex>)
        ensures
            of_collection(self.composite.indexes(), collection@).len() == r@.len(),
            forall|i: int|
                0 <= i < r@.len() ==> *(#[trigger] r@[i]) == of_collection(self.composite.indexes(), collection@)[i],
    {
        self.composite.indexes_for_collection(collection)
    }

    /// Makes a composite index that holds no document.
    pub fn create_index(&mut self, definition: CompositeIndexDefinition) -> (id: u32)
        requires
            old(self).wf(),
            old(self).composite.last_id() < u32::MAX,
        ensures
            final(self).wf(),
            final(self).secondary == old(self).secondary,
            final(self).fts == old(self).fts,
            id == old(self).composite.last_id() + 1,
            final(self).composite.last_id() == id,
            final(self).composite.indexes().len() == old(self).composite.indexes().len() + 1,
            final(self).composite.indexes().drop_last() == old(self).composite.indexes(),
            final(self).composite.indexes().last().definition@ == (Definition {
                id,
                collection: definition@.collection,
                columns: definition@.columns,
            }),
            final(self).composite.indexes().last().entries() == Map::<Seq<u8>, Seq<char>>::empty(),
    {
        self.composite.create_index(definition)
    }

    /// Whether a composite index of the collection begins with the given fields, of which
    /// there is at least one.
    pub fn has_index(&self, collection: &str, fields: &Vec<String>) -> (r: bool)
        ensures
            r == (fields@.len() > 0 && exists|i: int|
                0 <= i < self.composite.indexes().len() && (
                #[trigger] self.composite.indexes()[i]).definition@.collection == collection@ && leads(
                    self.composite.indexes()[i].definition@,
                    names_view(fields@),
                )),
    {
        if fields.len() == 0 {
            return false;
        }
        let mut i: usize = 0;
        while i < self.composite.len()
            invariant
                fields@.len() > 0,
                i <= self.composite.indexes().len(),
                forall|k: int|
                    0 <= k < i ==> !((#[trigger] self.composite.indexes()[k]).definition@.collection == collection@
                        && leads(self.composite.indexes()[k].definition@, names_view(fields@))),
            decreases self.composite.indexes().len() - i,
        {
            let x = self.composite.index_at(i);
            if same_text(x.definition.collection.as_str(), collection) && index_leads(&x.definition, fields) {
                return true;
            }
            i = i + 1;
        }
        false
    }

    /// The documents that hold the given values in the given fields, from a composite
    /// index. Nothing where none serves.
    pub fn exact_match_doc_ids(
        &self,
        collection: &str,
        fields: &Vec<String>,
        values: &Vec<Value>,
    ) -> (r: Option<Vec<String>>)
        requires
            self.wf(),
        ensures
            match (r, first_leading(self.composite.indexes(), collection@, names_view(fields@))) {
                (Some(ids), Some(x)) => names_view(ids@) == prefix_ids(x, items_view(values@)),
                (None, None) => true,
                _ => false,
            },
    {
        self.composite.exact_match_doc_ids(collection, fields, values)
    }

    /// Puts a document into every index of its collection.
    pub fn index_document(&mut self, collection: &str, doc_id: &str, doc: &FireLiteDoc)
        requires
            old(self).wf(),
        ensures
            final(self).wf(),
            indexed(*old(self), *final(self), true, collection@, doc_id@, doc@),
    {
        self.composite.index_document(collection, doc_id, doc);
        self.apply(true, collection, doc_id, doc);
    }

    /// Takes a document out of every index of its collection.
    pub fn remove_document(&mut self, collection: &str, doc_id: &str, doc: &FireLiteDoc)
        requires
            old(self).wf(),
        ensures
            final(self).wf(),
            indexed(*old(self), *final(self), false, collection@, doc_id@, doc@),
    {
        self.composite.remove_document(collection, doc_id, doc);
        self.apply(false, collection, doc_id, doc);
    }

    fn apply(&mut self, put: bool, collection: &str, doc_id: &str, doc: &FireLiteDoc)
        requires
            old(self).wf(),
        ensures
            final(self).wf(),
            final(self).composite == old(self).composite,
            fts_applied(*old(self), *final(self), put, collection@, doc_id@, doc@),
            secondary_applied(*old(self), *final(self), put, collection@, doc_id@, doc@),
    {
        self.apply_to_fts(put, collection, doc_id, doc);
        self.apply_to_secondary(put, collection, doc_id, doc);
    }

    fn apply_to_fts(&mut self, put: bool, collection: &str, doc_id: &str, doc: &FireLiteDoc)
        requires
            old(self).wf(),
        ensures
            final(self).wf(),
            final(self).composite == old(self).composite,
            final(self).secondary == old(self).secondary,
            fts_applied(*old(self), *final(self), put, collection@, doc_id@, doc@),
    {
        match self.fts.find(collection) {
            Some(i) => {
                let ghost start = self.fts;
                proof {
                    self.fts.place_facts();
                    assert(start@.contains_key(collection@));
                    assert forall|f: Seq<char>| #[trigger] start@[collection@]@.contains_key(f) implies start@[
                        collection@
                    ]@[f].wf() by {
                        assert(under(start, collection@, f) is Some);
                    }
                }
                let mut inner = self.fts.swap(i, NameTable::new());
                apply_fts(&mut inner, put, doc_id, doc);
                let ghost done = inner;
                let gone = self.fts.swap(i, inner);
                proof {
                    assert(self.fts@ =~= start@.insert(collection@, done));
                    assert forall|c: Seq<char>, f: Seq<char>| (#[trigger] under(self.fts, c, f)) is Some implies under(
                        self.fts,
                        c,
                        f,
                    )->Some_0.wf() by {
                        if c == collection@ {
                            assert(done@.contains_key(f));
                        } else {
                            assert(under(start, c, f) == under(self.fts, c, f));
                        }
                    }
                    assert forall|c: Seq<char>, f: Seq<char>| (match (under(start, c, f), #[trigger] under(
                        self.fts,
                        c,
                        f,
                    )) {
                        (Some(x), Some(y)) => if c == collection@ {
                            fts_step(put, doc_id@, doc@, f, x, y)
                        } else {
                            y == x
                        },
                        (None, None) => true,
                        _ => false,
                    }) by {
                        if c == collection@ {
                            assert(done@.contains_key(f) == start@[collection@]@.contains_key(f));
                        }
                    }
                }
            },
            None => {},
        }
    }

    fn apply_to_secondary(&mut self, put: bool, collection: &str, doc_id: &str, doc: &FireLiteDoc)
        requires
            old(self).wf(),
        ensures
            final(self).wf(),
            final(self).composite == old(self).composite,
            final(self).fts == old(self).fts,
            secondary_applied(*old(self), *final(self), put, collection@, doc_id@, doc@),
    {
        match self.secondary.find(collection) {
            Some(i) => {
                let ghost start = self.secondary;
                proof {
                    self.secondary.place_facts();
                    assert(start@.contains_key(collection@));
                    assert forall|f: Seq<char>| #[trigger] start@[collection@]@.contains_key(f) implies start@[
                        collection@
                    ]@[f].wf() by {
                        assert(under(start, collection@, f) is Some);
                    }
                }
                let mut inner = self.secondary.swap(i, NameTable::new());
                apply_secondary(&mut inner, put, doc_id, doc);
                let ghost done = inner;
                let gone = self.secondary.swap(i, inner);
                proof {
                    assert(self.secondary@ =~= start@.insert(collection@, done));
                    assert forall|c: Seq<char>, f: Seq<char>| (
                    #[trigger] under(self.secondary, c, f)) is Some implies under(self.secondary, c, f)->Some_0.wf() by {
                        if c == collection@ {
                            assert(done@.contains_key(f));
                        } else {
                            assert(under(start, c, f) == under(self.secondary, c, f));
                        }
                    }
                    assert forall|c: Seq<char>, f: Seq<char>| (match (under(start, c, f), #[trigger] under(
                        self.secondary,
                        c,
                        f,
                    )) {
                        (Some(x), Some(y)) => if c == collection@ {
                            secondary_step(put, doc_id@, doc@, f, x, y)
                        } else {
                            y == x
                        },
                        (None, None) => true,
                        _ => false,
                    }) by {
                        if c == collection@ {
                            assert(done@.contains_key(f) == start@[collection@]@.contains_key(f));
                        }
                    }
                }
            },
            None => {},
        }
    }

    /// Puts documents into the single-field indexes of their collection alone.
    pub fn fill_secondary(&mut self, collection: &str, docs: &Vec<(String, FireLiteDoc)>)
        requires
            old(self).wf(),
        ensures
            final(self).wf(),
            final(self).composite == old(self).composite,
            final(self).fts == old(self).fts,
            secondary_filled(*old(self), *final(self), collection@, docs_view(docs@)),
    {
        let ghost ds = docs_view(docs@);
        let ghost mut steps: Seq<IndexManager> = seq![*self];
        let mut i: usize = 0;
        while i < docs.len()
            invariant
                self.wf(),
                ds == docs_view(docs@),
                i <= docs@.len(),
                self.composite == old(self).composite,
                self.fts == old(self).fts,
                steps.len() == i + 1,
                steps[0] == *old(self),
                steps[i as int] == *self,
                forall|k: int|
                    0 <= k < i ==> secondary_applied(#[trigger] steps[k], steps[k + 1], true, collection@, ds[k].0, ds[k].1),
            decreases docs@.len() - i,
        {
            proof {
            }
            self.apply_to_secondary(true, collection, docs[i].0.as_str(), &docs[i].1);
            proof {
                let before = steps;
                steps = steps.push(*self);
                assert forall|k: int| 0 <= k < i + 1 implies secondary_applied(
                    #[trigger] steps[k],
                    steps[k + 1],
                    true,
                    collection@,
                    ds[k].0,
                    ds[k].1,
                ) by {
                    if k < i {
                        assert(steps[k] == before[k]);
                        assert(steps[k + 1] == before[k + 1]);
                    }
                }
            }
            i = i + 1;
        }
        proof {
            assert(secondary_steps(steps, collection@, ds));
        }
    }

    /// Puts documents into the full-text indexes of their collection alone.
    pub fn fill_fts(&mut self, collection: &str, docs: &Vec<(String, FireLiteDoc)>)
        requires
            old(self).wf(),
        ensures
            final(self).wf(),
            final(self).composite == old(self).composite,
            final(self).secondary == old(self).secondary,
            fts_filled(*old(self), *final(self), collection@, docs_view(docs@)),
    {
        let ghost ds = docs_view(docs@);
        let ghost mut steps: Seq<IndexManager> = seq![*self];
        let mut i: usize = 0;
        while i < docs.len()
            invariant
                self.wf(),
                ds == docs_view(docs@),
                i <= docs@.len(),
                self.composite == old(self).composite,
                self.secondary == old(self).secondary,
                steps.len() == i + 1,
                steps[0] == *old(self),
                steps[i as int] == *self,
                forall|k: int|
                    0 <= k < i ==> fts_applied(#[trigger] steps[k], steps[k + 1], true, collection@, ds[k].0, ds[k].1),
            decreases docs@.len() - i,
        {
            proof {
            }
            self.apply_to_fts(true, collection, docs[i].0.as_str(), &docs[i].1);
            proof {
                let before = steps;
                steps = steps.push(*self);
                assert forall|k: int| 0 <= k < i + 1 implies fts_applied(
                    #[trigger] steps[k],
                    steps[k + 1],
                    true,
                    collection@,
                    ds[k].0,
                    ds[k].1,
                ) by {
                    if k < i {
                        assert(steps[k] == before[k]);
                        assert(steps[k + 1] == before[k + 1]);
                    }
                }
            }
            i = i + 1;
        }
        proof {
            assert(fts_steps(steps, collection@, ds));
        }
    }

    /// Puts documents into every index of their collection, one after the other.
    pub fn index_batch(&mut self, collection: &str, docs: &Vec<(String, FireLiteDoc)>)
        requires
            old(self).wf(),
        ensures
            final(self).wf(),
            batch_indexed(*old(self), *final(self), true, collection@, docs_view(docs@)),
    {
        self.apply_batch(true, collection, docs);
    }

    /// Takes documents out of every index of their collection, one after the other.
    pub fn remove_batch(&mut self, collection: &str, docs: &Vec<(String, FireLiteDoc)>)
        requires
            old(self).wf(),
        ensures
            final(self).wf(),
            batch_indexed(*old(self), *final(self), false, collection@, docs_view(docs@)),
    {
        self.apply_batch(false, collection, docs);
    }

    fn apply_batch(&mut self, put: bool, collection: &str, docs: &Vec<(String, FireLiteDoc)>)
        requires
            old(self).wf(),
        ensures
            final(self).wf(),
            batch_indexed(*old(self), *final(self), put, collection@, docs_view(docs@)),
    {
        let ghost ds = docs_view(docs@);
        let ghost mut steps: Seq<IndexManager> = seq![*self];
        let mut i: usize = 0;
        while i < docs.len()
            invariant
                self.wf(),
                ds == docs_view(docs@),
                i <= docs@.len(),
                steps.len() == i + 1,
                steps[0] == *old(self),
                steps[i as int] == *self,
                forall|k: int|
                    0 <= k < i ==> indexed(#[trigger] steps[k], steps[k + 1], put, collection@, ds[k].0, ds[k].1),
            decreases docs@.len() - i,
        {
            proof {
            }
            if put {
                self.index_document(collection, docs[i].0.as_str(), &docs[i].1);
            } else {
                self.remove_document(collection, docs[i].0.as_str(), &docs[i].1);
            }
            proof {
                let before = steps;
                steps = steps.push(*self);
                assert forall|k: int| 0 <= k < i + 1 implies indexed(
                    #[trigger] steps[k],
                    steps[k + 1],
                    put,
                    collection@,
                    ds[k].0,
                    ds[k].1,
                ) by {
                    if k < i {
                        assert(steps[k] == before[k]);
                        assert(steps[k + 1] == before[k + 1]);
                    }
                }
            }
            i = i + 1;
        }
        proof {
            assert(batch_steps(steps, put, collection@, ds));
        }
    }

    /// Takes other indexes of single fields and of words over, each where one of that field
    /// stands already.
    pub fn take_over(
        &mut self,
        secondary: NameTable<NameTable<SecondaryIndex>>,
        fts: NameTable<NameTable<InvertedIndex>>,
    )
        requires
            old(self).wf(),
            secondary_wf(secondary),
            fts_wf(fts),
        ensures
            final(self).wf(),
            final(self).composite == old(self).composite,
            merged(old(self).secondary, secondary, final(self).secondary),
            merged(old(self).fts, fts, final(self).fts),
    {
        merge(&mut self.secondary, secondary);
        merge(&mut self.fts, fts);
        proof {
            assert forall|c: Seq<char>, f: Seq<char>| (#[trigger] under(self.secondary, c, f)) is Some implies under(
                self.secondary,
                c,
                f,
            )->Some_0.wf() by {
                assert(under(old(self).secondary, c, f) is Some);
            }
            assert forall|c: Seq<char>, f: Seq<char>| (#[trigger] under(self.fts, c, f)) is Some implies under(
                self.fts,
                c,
                f,
            )->Some_0.wf() by {
                assert(under(old(self).fts, c, f) is Some);
            }
        }
    }

    /// The documents that hold a value in a field, by the key of the value, in order.
    /// Nothing where the field has no index.
    pub fn lookup_secondary(&self, collection: &str, field: &str, value: &[u8]) -> (r: Option<Vec<String>>)
        requires
            self.wf(),
        ensures
            match (r, self.secondary_at(collection@, field@)) {
                (Some(ids), Some(x)) => lists(ids@, x.posting(value@)),
                (None, None) => true,
                _ => false,
            },
    {
        match self.secondary.find(collection) {
            Some(i) => {
                let inner = self.secondary.thing(i);
                proof {
                    assert(self.secondary@.contains_key(collection@));
                }
                match inner.find(field) {
                    Some(j) => {
                        proof {
                            assert(self.secondary_at(collection@, field@) is Some);
                        }
                        Some(inner.thing(j).lookup(value))
                    },
                    None => None,
                }
            },
            None => None,
        }
    }
}

/// `b` are the indexes `a` with a document of a collection put in or taken out.
pub open spec fn indexed(
    a: IndexManager,
    b: IndexManager,
    put: bool,
    collection: Seq<char>,
    doc_id: Seq<char>,
    doc: Doc,
) -> bool {
    &&& if put {
        puts(a.composite.indexes(), b.composite.indexes(), collection, seq![(doc_id, doc)])
    } else {
        takes(a.composite.indexes(), b.composite.indexes(), collection, seq![(doc_id, doc)])
    }
    &&& b.composite.last_id() == a.composite.last_id()
    &&& fts_applied(a, b, put, collection, doc_id, doc)
    &&& secondary_applied(a, b, put, collection, doc_id, doc)
}

/// The full-text indexes of `b` are those of `a` with a document put in or taken out.
pub open spec fn fts_applied(
    a: IndexManager,
    b: IndexManager,
    put: bool,
    collection: Seq<char>,
    doc_id: Seq<char>,
    doc: Doc,
) -> bool {
    collection_stepped(
        a.fts,
        b.fts,
        collection,
        |f: Seq<char>, x: InvertedIndex, y: InvertedIndex| fts_step(put, doc_id, doc, f, x, y),
    )
}

/// The single-field indexes of `b` are those of `a` with a document put in or taken out.
pub open spec fn secondary_applied(
    a: IndexManager,
    b: IndexManager,
    put: bool,
    collection: Seq<char>,
    doc_id: Seq<char>,
    doc: Doc,
) -> bool {
    collection_stepped(
        a.secondary,
        b.secondary,
        collection,
        |f: Seq<char>, x: SecondaryIndex, y: SecondaryIndex| secondary_step(put, doc_id, doc, f, x, y),
    )
}

/// A chain of states, each with one document more in the single-field indexes.
pub open spec fn secondary_steps(
    steps: Seq<IndexManager>,
    collection: Seq<char>,
    docs: Seq<(Seq<char>, Doc)>,
) -> bool {
    &&& steps.len() == docs.len() + 1
    &&& forall|k: int|
        0 <= k < docs.len() ==> secondary_applied(#[trigger] steps[k], steps[k + 1], true, collection, docs[k].0, docs[k].1)
}

/// The single-field indexes of `b` are those of `a` with documents put in, in turn.
pub open spec fn secondary_filled(
    a: IndexManager,
    b: IndexManager,
    collection: Seq<char>,
    docs: Seq<(Seq<char>, Doc)>,
) -> bool {
    exists|steps: Seq<IndexManager>| #[trigger]
        secondary_steps(steps, collection, docs) && steps[0] == a && steps[docs.len() as int] == b
}

/// A chain of states, each with one document more in the full-text indexes.
pub open spec fn fts_steps(steps: Seq<IndexManager>, collection: Seq<char>, docs: Seq<(Seq<char>, Doc)>) -> bool {
    &&& steps.len() == docs.len() + 1
    &&& forall|k: int|
        0 <= k < docs.len() ==> fts_applied(#[trigger] steps[k], steps[k + 1], true, collection, docs[k].0, docs[k].1)
}

/// The full-text indexes of `b` are those of `a` with documents put in, in turn.
pub open spec fn fts_filled(
    a: IndexManager,
    b: IndexManager,
    collection: Seq<char>,
    docs: Seq<(Seq<char>, Doc)>,
) -> bool {
    exists|steps: Seq<IndexManager>| #[trigger]
        fts_steps(steps, collection, docs) && steps[0] == a && steps[docs.len() as int] == b
}

/// A chain of states, each with one document more put in or taken out than the one before.
pub open spec fn batch_steps(
    steps: Seq<IndexManager>,
    put: bool,
    collection: Seq<char>,
    docs: Seq<(Seq<char>, Doc)>,
) -> bool {
    &&& steps.len() == docs.len() + 1
    &&& forall|k: int|
        0 <= k < docs.len() ==> indexed(#[trigger] steps[k], steps[k + 1], put, collection, docs[k].0, docs[k].1)
}

/// `b` are the indexes `a` with documents of a collection put in or taken out in turn.
pub open spec fn batch_indexed(
    a: IndexManager,
    b: IndexManager,
    put: bool,
    collection: Seq<char>,
    docs: Seq<(Seq<char>, Doc)>,
) -> bool {
    exists|steps: Seq<IndexManager>| #[trigger]
        batch_steps(steps, put, collection, docs) && steps[0] == a && steps[docs.len() as int] == b
}

/// `b` is `a` with what `saved` holds in place of what stood under the same names.
pub open spec fn merged<T>(
    a: NameTable<NameTable<T>>,
    saved: NameTable<NameTable<T>>,
    b: NameTable<NameTable<T>>,
) -> bool {
    forall|c: Seq<char>, f: Seq<char>|
        #![trigger under(b, c, f)]
        under(b, c, f) == match (under(a, c, f), under(saved, c, f)) {
            (Some(_), Some(x)) => Some(x),
            (x, _) => x,
        }
}

/// Takes over what `saved` holds under names that are there already.
fn merge<T>(t: &mut NameTable<NameTable<T>>, saved: NameTable<NameTable<T>>)
    requires
        tables_wf(*old(t)),
        tables_wf(saved),
    ensures
        tables_wf(*final(t)),
        merged(*old(t), saved, *final(t)),
{
    let ghost all = saved;
    let mut left = saved;
    while left.len() > 0
        invariant
            tables_wf(*t),
            tables_wf(left),
            forall|c: Seq<char>, f: Seq<char>|
                #![trigger under(*t, c, f)]
                #![trigger under(left, c, f)]
                match (under(*old(t), c, f), under(all, c, f)) {
                    (Some(_), Some(x)) => if left@.contains_key(c) {
                        under(*t, c, f) == under(*old(t), c, f) && under(left, c, f) == Some(x)
                    } else {
                        under(*t, c, f) == Some(x)
                    },
                    (x, y) => under(*t, c, f) == x && (left@.contains_key(c) ==> under(left, c, f) == y),
                },
        decreases left.rows().len(),
    {
        let ghost was = left;
        let ghost before = *t;
        let (name, fields) = left.pop();
        let ghost n = name@;
        proof {
            assert(was@.contains_key(n));
        }
        let ghost given = fields;
        match t.find(name.as_str()) {
            Some(i) => {
                proof {
                    t.place_facts();
                    assert(before@.contains_key(n));
                }
                let mut inner = t.swap(i, NameTable::new());
                let ghost inner_before = inner;
                merge_fields(&mut inner, fields);
                let ghost done = inner;
                let gone = t.swap(i, inner);
                proof {
                    assert(t@ =~= before@.insert(n, done));
                    assert forall|c: Seq<char>, f: Seq<char>| c == n implies #[trigger] under(*t, c, f) == (match (
                        under(before, c, f),
                        under(was, c, f),
                    ) {
                        (Some(_), Some(x)) => Some(x),
                        (x, _) => x,
                    }) by {
                        assert(done@.contains_key(f) == inner_before@.contains_key(f));
                    }
                }
            },
            None => {
                proof {
                    assert(!before@.contains_key(n));
                }
            },
        }
        proof {
            assert forall|c: Seq<char>, f: Seq<char>| c != n implies #[trigger] under(*t, c, f) == under(
                before,
                c,
                f,
            ) by {}
            assert forall|c: Seq<char>, f: Seq<char>| c != n implies #[trigger] under(left, c, f) == under(
                was,
                c,
                f,
            ) by {}
            assert forall|c: Seq<char>, f: Seq<char>|
                #![trigger under(*t, c, f)]
                #![trigger under(left, c, f)]
                (match (under(*old(t), c, f), under(all, c, f)) {
                    (Some(_), Some(x)) => if left@.contains_key(c) {
                        under(*t, c, f) == under(*old(t), c, f) && under(left, c, f) == Some(x)
                    } else {
                        under(*t, c, f) == Some(x)
                    },
                    (x, y) => under(*t, c, f) == x && (left@.contains_key(c) ==> under(left, c, f) == y),
                }) by {
                let p = under(before, c, f);
                let q = under(was, c, f);
            }
        }
    }
    proof {
        assert(forall|c: Seq<char>| !left@.contains_key(c)) by {
            left.place_facts();
        }
    }
}

/// Takes over what `saved` holds under names that are there already.
fn merge_fields<T>(t: &mut NameTable<T>, saved: NameTable<T>)
    requires
        old(t).wf(),
        saved.wf(),
    ensures
        final(t).wf(),
        forall|f: Seq<char>| #[trigger] final(t)@.contains_key(f) == old(t)@.contains_key(f),
        forall|f: Seq<char>|
            old(t)@.contains_key(f) ==> #[trigger] final(t)@[f] == if saved@.contains_key(f) {
                saved@[f]
            } else {
                old(t)@[f]
            },
{
    let ghost all = saved;
    let mut left = saved;
    while left.len() > 0
        invariant
            t.wf(),
            left.wf(),
            forall|f: Seq<char>| #[trigger] t@.contains_key(f) == old(t)@.contains_key(f),
            forall|f: Seq<char>| #[trigger] left@.contains_key(f) ==> all@.contains_key(f) && left@[f] == all@[f],
            forall|f: Seq<char>|
                old(t)@.contains_key(f) ==> #[trigger] t@[f] == if all@.contains_key(f) && !left@.contains_key(f) {
                    all@[f]
                } else {
                    old(t)@[f]
                },
        decreases left.rows().len(),
    {
        let ghost was = left;
        let ghost before = *t;
        let (name, x) = left.pop();
        proof {
            assert(was@.contains_key(name@));
        }
        match t.find(name.as_str()) {
            Some(i) => {
                proof {
                    assert(before@.contains_key(name@));
                    t.place_facts();
                }
                let gone = t.swap(i, x);
            },
            None => {
                proof {
                    assert(!before@.contains_key(name@));
                }
            },
        }
        proof {
            assert forall|f: Seq<char>| #[trigger] left@.contains_key(f) implies all@.contains_key(f) && left@[f]
                == all@[f] by {
                assert(was@.contains_key(f));
            }
            assert forall|f: Seq<char>| #[trigger] t@.contains_key(f) == old(t)@.contains_key(f) by {
                assert(before@.contains_key(f) == old(t)@.contains_key(f));
            }
            assert forall|f: Seq<char>| old(t)@.contains_key(f) implies #[trigger] t@[f] == (if all@.contains_key(f)
                && !left@.contains_key(f) {
                all@[f]
            } else {
                old(t)@[f]
            }) by {
                assert(before@[f] == if all@.contains_key(f) && !was@.contains_key(f) {
                    all@[f]
                } else {
                    old(t)@[f]
                });
                assert(before@.contains_key(f));
            }
        }
    }
    proof {
        assert(forall|f: Seq<char>| !left@.contains_key(f)) by {
            left.place_facts();
        }
    }
}

/// Puts a thing under two names.
fn set_under<T>(t: &mut NameTable<NameTable<T>>, collection: &str, field: &str, x: T)
    requires
        tables_wf(*old(t)),
    ensures
        tables_wf(*final(t)),
        under(*final(t), collection@, field@) == Some(x),
        forall|c: Seq<char>, f: Seq<char>|
            c != collection@ || f != field@ ==> #[trigger] under(*final(t), c, f) == under(*old(t), c, f),
{
    let ghost start = *t;
    match t.find(collection) {
        Some(i) => {
            proof {
                t.place_facts();
                assert(start@.contains_key(collection@));
            }
            let mut inner = t.swap(i, NameTable::new());
            let ghost was = inner;
            set_row(&mut inner, field, x);
            let ghost done = inner;
            let gone = t.swap(i, inner);
            proof {
                assert(t@ =~= start@.insert(collection@, done));
                assert forall|c: Seq<char>, f: Seq<char>| c != collection@ || f != field@ implies #[trigger] under(
                    *t,
                    c,
                    f,
                ) == under(start, c, f) by {
                    if c == collection@ {
                        assert(done@.contains_key(f) == was@.contains_key(f));
                    }
                }
            }
        },
        None => {
            let mut inner = NameTable::new();
            set_row(&mut inner, field, x);
            let ghost done = inner;
            t.push(collection.to_owned(), inner);
            proof {
                assert(t@ =~= start@.insert(collection@, done));
                assert forall|c: Seq<char>, f: Seq<char>| c != collection@ || f != field@ implies #[trigger] under(
                    *t,
                    c,
                    f,
                ) == under(start, c, f) by {
                    if c == collection@ {
                        assert(!done@.contains_key(f));
                    }
                }
            }
        },
    }
}

/// Puts a thing under a name.
fn set_row<T>(t: &mut NameTable<T>, name: &str, x: T)
    requires
        old(t).wf(),
    ensures
        final(t).wf(),
        final(t)@ == old(t)@.insert(name@, x),
{
    match t.find(name) {
        Some(i) => {
            let gone = t.swap(i, x);
        },
        None => {
            t.push(name.to_owned(), x);
        },
    }
}

} // verus!
