//! One composite index: its definition, and the documents under their keys.
use vstd::prelude::*;

use crate::composite::definition::{CompositeIndexDefinition, Definition, SortDirection};
use crate::composite::key_encoder::{composite_key, encode_composite_key};
use crate::document::firelite_doc::{names_view, Doc, FireLiteDoc};
use crate::document::value::{items_view, Val, Value};
use crate::index::composite::composite_index::range_ids;
use crate::index::secondary_index::bytes_le;
use crate::order::{compare_bytes, Order};
use crate::sorted_map::SortedMap;

verus! {

/// A composite index.
pub struct CompositeIndex {
    pub definition: CompositeIndexDefinition,
    pub tree: SortedMap<Vec<u8>, String>,
}

/// What a document holds for the columns of an index; nothing where it lacks one.
pub open spec fn field_values(columns: Seq<(Seq<char>, SortDirection)>, doc: Doc) -> Option<Seq<Val>>
    decreases columns.len(),
{
    if columns.len() == 0 {
        Some(Seq::empty())
    } else {
        match field_values(columns.drop_last(), doc) {
            Some(vs) => if doc.map().contains_key(columns.last().0) {
                Some(vs.push(doc.map()[columns.last().0]))
            } else {
                None
            },
            None => None,
        }
    }
}

/// The key under which a document stands, if it has all fields of the index.
pub open spec fn document_key(d: Definition, doc_id: Seq<char>, doc: Doc) -> Option<Seq<u8>> {
    match field_values(d.columns, doc) {
        Some(vs) => Some(composite_key(d, vs, doc_id)),
        None => None,
    }
}

proof fn missing_field(cs: Seq<(Seq<char>, SortDirection)>, i: int, doc: Doc)
    requires
        0 <= i < cs.len(),
        !doc.map().contains_key(cs[i].0),
    ensures
        field_values(cs, doc) is None,
    decreases cs.len(),
{
    if i < cs.len() - 1 {
        assert(cs.drop_last()[i] == cs[i]);
        missing_field(cs.drop_last(), i, doc);
    }
}

impl CompositeIndex {
    /// The documents under their keys.
    pub open spec fn entries(&self) -> Map<Seq<u8>, Seq<char>> {
        self.tree@.map_values(|s: String| s@)
    }

    /// The keys ascend.
    pub open spec fn wf(&self) -> bool {
        self.tree.wf()
    }

    /// An index that holds no document.
    pub fn new(definition: CompositeIndexDefinition) -> (r: CompositeIndex)
        ensures
            r.wf(),
            r.definition == definition,
            r.entries() == Map::<Seq<u8>, Seq<char>>::empty(),
    {
        let r = CompositeIndex { definition, tree: SortedMap::new() };
        proof {
            assert(r.entries() =~= Map::<Seq<u8>, Seq<char>>::empty());
        }
        r
    }

    /// The key under which a document stands, if it has all fields of the index.
    pub fn build_key(&self, doc_id: &str, doc: &FireLiteDoc) -> (r: Option<Vec<u8>>)
        ensures
            match (r, document_key(self.definition@, doc_id@, doc@)) {
                (Some(k), Some(m)) => k@ == m,
                (None, None) => true,
                _ => false,
            },
    {
        let ghost cs = self.definition@.columns;
        let mut values: Vec<Value> = Vec::new();
        let mut i: usize = 0;
        proof {
            assert(items_view(values@) =~= Seq::empty());
            assert(cs.take(0) =~= Seq::empty());
        }
        while i < self.definition.fields.len()
            invariant
                cs == self.definition@.columns,
                i <= cs.len(),
                field_values(cs.take(i as int), doc@) == Some(items_view(values@)),
            decreases cs.len() - i,
        {
            proof {
                assert(cs.take(i + 1).drop_last() =~= cs.take(i as int));
                assert(cs.take(i + 1).last() == cs[i as int]);
            }
            match doc.get(self.definition.fields[i].field.as_str()) {
                Some(x) => {
                    let v = x.clone();
                    proof {
                        assert(items_view(values@.push(v)) =~= items_view(values@).push(v@));
                    }
                    values.push(v);
                },
                None => {
                    proof {
                        missing_field(cs, i as int, doc@);
                    }
                    return None;
                },
            }
            i = i + 1;
        }
        proof {
            assert(cs.take(cs.len() as int) =~= cs);
        }
        Some(encode_composite_key(&self.definition, &values, doc_id))
    }

    /// Puts a document in, if it has all fields of the index.
    pub fn insert(&mut self, doc_id: &str, doc: &FireLiteDoc)
        requires
            old(self).wf(),
        ensures
            final(self).wf(),
            final(self).definition == old(self).definition,
            final(self).entries() == match document_key(old(self).definition@, doc_id@, doc@) {
                Some(k) => old(self).entries().insert(k, doc_id@),
                None => old(self).entries(),
            },
    {
        match self.build_key(doc_id, doc) {
            Some(key) => {
                let ghost k = key@;
                let was = self.tree.insert(key, doc_id.to_owned());
                proof {
                    assert(self.entries() =~= old(self).entries().insert(k, doc_id@));
                }
            },
            None => {},
        }
    }

    /// Takes a document out, if it has all fields of the index.
    pub fn remove(&mut self, doc_id: &str, doc: &FireLiteDoc)
        requires
            old(self).wf(),
        ensures
            final(self).wf(),
            final(self).definition == old(self).definition,
            final(self).entries() == match document_key(old(self).definition@, doc_id@, doc@) {
                Some(k) => old(self).entries().remove(k),
                None => old(self).entries(),
            },
    {
        match self.build_key(doc_id, doc) {
            Some(key) => {
                let was = self.tree.remove(&key);
                proof {
                    assert(self.entries() =~= old(self).entries().remove(key@));
                }
            },
            None => {},
        }
    }

    /// Puts a document in, if it has all fields of the index.
    pub fn index_document(&mut self, doc_id: &str, doc: &FireLiteDoc)
        requires
            old(self).wf(),
        ensures
            final(self).wf(),
            final(self).definition == old(self).definition,
            final(self).entries() == match document_key(old(self).definition@, doc_id@, doc@) {
                Some(k) => old(self).entries().insert(k, doc_id@),
                None => old(self).entries(),
            },
    {
        self.insert(doc_id, doc);
    }

    /// Takes a document out, if it has all fields of the index.
    pub fn remove_document(&mut self, doc_id: &str, doc: &FireLiteDoc)
        requires
            old(self).wf(),
        ensures
            final(self).wf(),
            final(self).definition == old(self).definition,
            final(self).entries() == match document_key(old(self).definition@, doc_id@, doc@) {
                Some(k) => old(self).entries().remove(k),
                None => old(self).entries(),
            },
    {
        self.remove(doc_id, doc);
    }

    /// The documents whose keys lie from `start` to `end`, in the order of the keys.
    pub fn range_query(&self, start: Vec<u8>, end: Vec<u8>) -> (r: Vec<String>)
        requires
            self.wf(),
            bytes_le(start@, end@),
        ensures
            names_view(r@) == range_ids(self.tree.seq(), start@, end@),
    {
        let ghost s = self.tree.seq();
        let mut r: Vec<String> = Vec::new();
        let mut i: usize = 0;
        proof {
            assert(names_view(r@) =~= Seq::empty());
            assert(s.take(0) =~= Seq::empty());
        }
        while i < self.tree.len()
            invariant
                s == self.tree.seq(),
                i <= s.len(),
                names_view(r@) == range_ids(s.take(i as int), start@, end@),
            decreases s.len() - i,
        {
            let e = self.tree.entry(i);
            proof {
                assert(s.take(i + 1).drop_last() =~= s.take(i as int));
                assert(s.take(i + 1).last() == s[i as int]);
            }
            if !matches!(compare_bytes(start.as_slice(), e.0.as_slice()), Order::Greater) && !matches!(
                compare_bytes(e.0.as_slice(), end.as_slice()),
                Order::Greater
            ) {
                let ghost before = r@;
                r.push(e.1.clone());
                proof {
                    assert(names_view(r@) =~= names_view(before).push(e.1@));
                }
            }
            i = i + 1;
        }
        proof {
            assert(s.take(s.len() as int) =~= s);
        }
        r
    }

    /// The documents whose keys lie from `start` to `end`, in the order of the keys.
    pub fn range_scan(&self, start: Vec<u8>, end: Vec<u8>) -> (r: Vec<String>)
        requires
            self.wf(),
            bytes_le(start@, end@),
        ensures
            names_view(r@) == range_ids(self.tree.seq(), start@, end@),
    {
        self.range_query(start, end)
    }
}

} // verus!
