//! One composite index: its definition, and the documents under their keys.
use vstd::prelude::*;

use crate::document::firelite_doc::{names_view, Doc, FireLiteDoc};
use crate::document::value::{items_view, Val, Value};
use crate::index::composite::definition::{CompositeIndexDefinition, Definition, SortDirection};
use crate::index::composite::key_encoder::{composite_key, encode_composite_key, key_bytes, key_slice, KeyBuf};
use crate::index::composite::range_builder::in_range;
use crate::index::secondary_index::bytes_le;
use crate::order::{compare_bytes, Order};
use crate::sorted_map::SortedMap;
use crate::text::same_text;

verus! {

/// A composite index.
pub struct CompositeIndex {
    pub definition: CompositeIndexDefinition,
    pub tree: SortedMap<KeyBuf, String>,
}

/// What a document holds for a column: its id, its time, or a field.
pub open spec fn column_value(name: Seq<char>, doc_id: Seq<char>, doc: Doc) -> Option<Val> {
    if name == "id"@ {
        Some(Val::String(doc_id))
    } else if name == "_time"@ {
        Some(Val::Int(doc.time))
    } else if doc.map().contains_key(name) {
        Some(doc.map()[name])
    } else {
        None
    }
}

/// What a document holds for the columns of an index; nothing where it lacks one.
pub open spec fn column_values(
    columns: Seq<(Seq<char>, SortDirection)>,
    doc_id: Seq<char>,
    doc: Doc,
) -> Option<Seq<Val>>
    decreases columns.len(),
{
    if columns.len() == 0 {
        Some(Seq::empty())
    } else {
        match (column_values(columns.drop_last(), doc_id, doc), column_value(columns.last().0, doc_id, doc)) {
            (Some(vs), Some(v)) => Some(vs.push(v)),
            _ => None,
        }
    }
}

/// The key under which a document stands in an index, if it has all of its fields.
pub open spec fn document_key(d: Definition, doc_id: Seq<char>, doc: Doc) -> Option<Seq<u8>> {
    match column_values(d.columns, doc_id, doc) {
        Some(vs) => Some(composite_key(d, vs, doc_id)),
        None => None,
    }
}

/// The entries with a document put in.
pub open spec fn with_document(
    entries: Map<Seq<u8>, Seq<char>>,
    d: Definition,
    doc_id: Seq<char>,
    doc: Doc,
) -> Map<Seq<u8>, Seq<char>> {
    match document_key(d, doc_id, doc) {
        Some(k) => entries.insert(k, doc_id),
        None => entries,
    }
}

/// The entries with a document taken out.
pub open spec fn without_document(
    entries: Map<Seq<u8>, Seq<char>>,
    d: Definition,
    doc_id: Seq<char>,
    doc: Doc,
) -> Map<Seq<u8>, Seq<char>> {
    match document_key(d, doc_id, doc) {
        Some(k) => entries.remove(k),
        None => entries,
    }
}

/// Taking a document out undoes putting it in, where its key was free before.
pub proof fn unindex_undoes_index(entries: Map<Seq<u8>, Seq<char>>, d: Definition, doc_id: Seq<char>, doc: Doc)
    requires
        document_key(d, doc_id, doc) matches Some(k) ==> !entries.contains_key(k),
    ensures
        without_document(with_document(entries, d, doc_id, doc), d, doc_id, doc) == entries,
{
    match document_key(d, doc_id, doc) {
        Some(k) => {
            assert(entries.insert(k, doc_id).remove(k) =~= entries);
        },
        None => {},
    }
}

/// The entries with documents put in one after the other.
pub open spec fn with_documents(
    entries: Map<Seq<u8>, Seq<char>>,
    d: Definition,
    docs: Seq<(Seq<char>, Doc)>,
) -> Map<Seq<u8>, Seq<char>>
    decreases docs.len(),
{
    if docs.len() == 0 {
        entries
    } else {
        with_document(with_documents(entries, d, docs.drop_last()), d, docs.last().0, docs.last().1)
    }
}

/// The entries with documents taken out one after the other.
pub open spec fn without_documents(
    entries: Map<Seq<u8>, Seq<char>>,
    d: Definition,
    docs: Seq<(Seq<char>, Doc)>,
) -> Map<Seq<u8>, Seq<char>>
    decreases docs.len(),
{
    if docs.len() == 0 {
        entries
    } else {
        without_document(without_documents(entries, d, docs.drop_last()), d, docs.last().0, docs.last().1)
    }
}

/// What a list of documents stands for.
pub open spec fn docs_view(docs: Seq<(String, FireLiteDoc)>) -> Seq<(Seq<char>, Doc)> {
    Seq::new(docs.len(), |i: int| (docs[i].0@, docs[i].1@))
}

/// The ids of the entries whose keys lie in a range, in the order of the keys.
pub open spec fn range_ids(entries: Seq<(Seq<u8>, String)>, start: Seq<u8>, end: Seq<u8>) -> Seq<Seq<char>>
    decreases entries.len(),
{
    if entries.len() == 0 {
        Seq::empty()
    } else if in_range(entries.last().0, start, end) {
        range_ids(entries.drop_last(), start, end).push(entries.last().1@)
    } else {
        range_ids(entries.drop_last(), start, end)
    }
}

/// The first `n` of a sequence, or all of it.
pub open spec fn first_n(s: Seq<Seq<char>>, n: nat) -> Seq<Seq<char>> {
    if s.len() <= n {
        s
    } else {
        s.take(n as int)
    }
}

impl CompositeIndex {
    /// The documents under their keys.
    pub open spec fn entries(&self) -> Map<Seq<u8>, Seq<char>> {
        self.tree@.map_values(|s: String| s@)
    }

    /// The keys ascend.
    pub open spec fn wf(&self) -> bool {
        self.tree.wf()
    }

    /// An index that holds no document.
    pub fn new(definition: CompositeIndexDefinition) -> (r: CompositeIndex)
        ensures
            r.wf(),
            r.definition == definition,
            r.entries() == Map::<Seq<u8>, Seq<char>>::empty(),
    {
        let r = CompositeIndex { definition, tree: SortedMap::new() };
        proof {
            assert(r.entries() =~= Map::<Seq<u8>, Seq<char>>::empty());
        }
        r
    }

    /// What a document holds for the fields of the index; nothing where it lacks one.
    /// The fields `id` and `_time` are the id and the time of the document.
    pub fn document_values(&self, doc_id: &str, doc: &FireLiteDoc) -> (r: Option<Vec<Value>>)
        ensures
            match r {
                Some(vs) => column_values(self.definition@.columns, doc_id@, doc@) == Some(items_view(vs@)),
                None => column_values(self.definition@.columns, doc_id@, doc@) is None,
            },
    {
        let ghost cs = self.definition@.columns;
        let mut values: Vec<Value> = Vec::new();
        let mut i: usize = 0;
        proof {
            assert(items_view(values@) =~= Seq::empty());
            assert(cs.take(0) =~= Seq::empty());
        }
        while i < self.definition.fields.len()
            invariant
                cs == self.definition@.columns,
                i <= cs.len(),
                column_values(cs.take(i as int), doc_id@, doc@) == Some(items_view(values@)),
            decreases cs.len() - i,
        {
            let name = self.definition.fields[i].field.as_str();
            proof {
                assert(cs.take(i + 1).drop_last() =~= cs.take(i as int));
                assert(cs.take(i + 1).last() == cs[i as int]);
            }
            match self.column(name, doc_id, doc) {
                Some(v) => {
                    proof {
                        assert(items_view(values@.push(v)) =~= items_view(values@).push(v@));
                    }
                    values.push(v);
                },
                None => {
                    proof {
                        missing_column(cs, i as int, doc_id@, doc@);
                    }
                    return None;
                },
            }
            i = i + 1;
        }
        proof {
            assert(cs.take(cs.len() as int) =~= cs);
        }
        Some(values)
    }

    fn column(&self, name: &str, doc_id: &str, doc: &FireLiteDoc) -> (r: Option<Value>)
        ensures
            match r {
                Some(v) => column_value(name@, doc_id@, doc@) == Some(v@),
                None => column_value(name@, doc_id@, doc@) is None,
            },
    {
        if same_text(name, "id") {
            Some(Value::String(doc_id.to_owned()))
        } else if same_text(name, "_time") {
            Some(Value::Int(doc._time))
        } else {
            match doc.get(name) {
                Some(v) => Some(v.clone()),
                None => None,
            }
        }
    }

    /// Puts a document in, if it has all fields of the index.
    pub fn index_document(&mut self, doc_id: &str, doc: &FireLiteDoc)
        requires
            old(self).wf(),
        ensures
            final(self).wf(),
            final(self).definition == old(self).definition,
            final(self).entries() == with_document(old(self).entries(), old(self).definition@, doc_id@, doc@),
    {
        match self.document_values(doc_id, doc) {
            Some(values) => {
                let key = encode_composite_key(&self.definition, &values, doc_id);
                let ghost k = key_bytes(key);
                let was = self.tree.insert(key, doc_id.to_owned());
                proof {
                    assert(self.entries() =~= old(self).entries().insert(k, doc_id@));
                }
            },
            None => {},
        }
    }

    /// Puts documents in, one after the other.
    pub fn index_batch(&mut self, docs: &Vec<(String, FireLiteDoc)>)
        requires
            old(self).wf(),
        ensures
            final(self).wf(),
            final(self).definition == old(self).definition,
            final(self).entries() == with_documents(old(self).entries(), old(self).definition@, docs_view(docs@)),
    {
        let ghost ds = docs_view(docs@);
        let mut i: usize = 0;
        proof {
            assert(ds.take(0) =~= Seq::empty());
        }
        while i < docs.len()
            invariant
                self.wf(),
                ds == docs_view(docs@),
                i <= docs@.len(),
                self.definition == old(self).definition,
                self.entries() == with_documents(old(self).entries(), old(self).definition@, ds.take(i as int)),
            decreases docs@.len() - i,
        {
            proof {
                assert(ds.take(i + 1).drop_last() =~= ds.take(i as int));
                assert(ds.take(i + 1).last() == ds[i as int]);
            }
            self.index_document(docs[i].0.as_str(), &docs[i].1);
            i = i + 1;
        }
        proof {
            assert(ds.take(ds.len() as int) =~= ds);
        }
    }

    /// Takes a document out, if it has all fields of the index.
    pub fn remove_document(&mut self, doc_id: &str, doc: &FireLiteDoc)
        requires
            old(self).wf(),
        ensures
            final(self).wf(),
            final(self).definition == old(self).definition,
            final(self).entries() == without_document(old(self).entries(), old(self).definition@, doc_id@, doc@),
    {
        match self.document_values(doc_id, doc) {
            Some(values) => {
                let key = encode_composite_key(&self.definition, &values, doc_id);
                let was = self.tree.remove(&key);
                proof {
                    assert(self.entries() =~= old(self).entries().remove(key_bytes(key)));
                }
            },
            None => {},
        }
    }

    /// Takes documents out, one after the other.
    pub fn remove_batch(&mut self, docs: &Vec<(String, FireLiteDoc)>)
        requires
            old(self).wf(),
        ensures
            final(self).wf(),
            final(self).definition == old(self).definition,
            final(self).entries() == without_documents(old(self).entries(), old(self).definition@, docs_view(docs@)),
    {
        let ghost ds = docs_view(docs@);
        let mut i: usize = 0;
        proof {
            assert(ds.take(0) =~= Seq::empty());
        }
        while i < docs.len()
            invariant
                self.wf(),
                ds == docs_view(docs@),
                i <= docs@.len(),
                self.definition == old(self).definition,
                self.entries() == without_documents(old(self).entries(), old(self).definition@, ds.take(i as int)),
            decreases docs@.len() - i,
        {
            proof {
                assert(ds.take(i + 1).drop_last() =~= ds.take(i as int));
                assert(ds.take(i + 1).last() == ds[i as int]);
            }
            self.remove_document(docs[i].0.as_str(), &docs[i].1);
            i = i + 1;
        }
        proof {
            assert(ds.take(ds.len() as int) =~= ds);
        }
    }

    /// The documents whose keys lie from `start` to `end`, in the order of the keys.
    pub fn range_scan(&self, start: &KeyBuf, end: &KeyBuf) -> (r: Vec<String>)
        requires
            self.wf(),
            bytes_le(key_bytes(*start), key_bytes(*end)),
        ensures
            names_view(r@) == range_ids(self.tree.seq(), key_bytes(*start), key_bytes(*end)),
    {
        let ghost s = self.tree.seq();
        let ghost a = key_bytes(*start);
        let ghost b = key_bytes(*end);
        let mut r: Vec<String> = Vec::new();
        let mut i: usize = 0;
        proof {
            assert(names_view(r@) =~= Seq::empty());
            assert(s.take(0) =~= Seq::empty());
        }
        while i < self.tree.len()
            invariant
                s == self.tree.seq(),
                a == key_bytes(*start),
                b == key_bytes(*end),
                i <= s.len(),
                names_view(r@) == range_ids(s.take(i as int), a, b),
            decreases s.len() - i,
        {
            let e = self.tree.entry(i);
            proof {
                assert(s.take(i + 1).drop_last() =~= s.take(i as int));
                assert(s.take(i + 1).last() == s[i as int]);
            }
            let k = key_slice(e.0);
            if !matches!(compare_bytes(key_slice(start), k), Order::Greater) && !matches!(
                compare_bytes(k, key_slice(end)),
                Order::Greater
            ) {
                let ghost before = r@;
                r.push(e.1.clone());
                proof {
                    assert(names_view(r@) =~= names_view(before).push(e.1@));
                }
            }
            i = i + 1;
        }
        proof {
            assert(s.take(s.len() as int) =~= s);
        }
        r
    }

    /// At most `limit` of the documents whose keys lie from `start` to `end`: the first
    /// ones in the order of the keys, or from the last one backwards.
    pub fn range_scan_limit(&self, start: &KeyBuf, end: &KeyBuf, limit: usize, reverse: bool) -> (r: Vec<String>)
        requires
            self.wf(),
            bytes_le(key_bytes(*start), key_bytes(*end)),
        ensures
            ({
                let all = range_ids(self.tree.seq(), key_bytes(*start), key_bytes(*end));
                names_view(r@) == if reverse {
                    first_n(all.reverse(), limit as nat)
                } else {
                    first_n(all, limit as nat)
                }
            }),
    {
        let all = self.range_scan(start, end);
        let ghost m = names_view(all@);
        let mut r: Vec<String> = Vec::new();
        let mut i: usize = 0;
        let ghost order = if reverse {
            m.reverse()
        } else {
            m
        };
        while i < all.len() && i < limit
            invariant
                m == names_view(all@),
                order == if reverse {
                    m.reverse()
                } else {
                    m
                },
                i <= all@.len(),
                i <= limit,
                names_view(r@) =~= order.take(i as int),
            decreases all@.len() - i,
        {
            let at: usize = if reverse {
                all.len() - 1 - i
            } else {
                i
            };
            let ghost before = r@;
            r.push(all[at].clone());
            proof {
                assert(order[i as int] == m[at as int]);
                assert(names_view(r@) =~= names_view(before).push(m[at as int]));
                assert(order.take(i + 1) =~= order.take(i as int).push(order[i as int]));
            }
            i = i + 1;
        }
        proof {
            assert(order.len() == m.len());
            if i == all@.len() {
                assert(order.take(i as int) =~= order);
            }
        }
        r
    }
}

/// Where a column is missing, the values of all columns are.
proof fn missing_column(cs: Seq<(Seq<char>, SortDirection)>, i: int, doc_id: Seq<char>, doc: Doc)
    requires
        0 <= i < cs.len(),
        column_value(cs[i].0, doc_id, doc) is None,
    ensures
        column_values(cs, doc_id, doc) is None,
    decreases cs.len(),
{
    if i < cs.len() - 1 {
        assert(cs.drop_last()[i] == cs[i]);
        missing_column(cs.drop_last(), i, doc_id, doc);
    }
}

} // verus!
