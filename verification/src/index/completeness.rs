//! An index that is made over documents holds each of them where it should, and nothing else.
use vstd::prelude::*;

use crate::document::firelite_doc::Doc;
use crate::document::value::Val;
use crate::index::composite::composite_index::{column_value, document_key, with_documents};
use crate::index::composite::definition::Definition;
use crate::index::index_key::scalar_key;
use crate::index::inverted_index::words;
use crate::index::manager::{
    batch_indexed, batch_steps, fts_applied, fts_filled, fts_step, fts_steps, indexed, secondary_applied,
    secondary_filled, secondary_step, secondary_steps, IndexManager,
};

verus! {

/// Whether a document has an id, and a value of a field under a key.
pub open spec fn is_under(doc: (Seq<char>, Doc), field: Seq<char>, k: Seq<u8>, id: Seq<char>) -> bool {
    doc.0 == id && match column_value(field, id, doc.1) {
        Some(v) => scalar_key(v) == k,
        None => false,
    }
}

/// Whether one of documents has an id, and a value of a field under a key.
pub open spec fn has_key(docs: Seq<(Seq<char>, Doc)>, field: Seq<char>, k: Seq<u8>, id: Seq<char>) -> bool {
    exists|i: int| 0 <= i < docs.len() && is_under(#[trigger] docs[i], field, k, id)
}

/// Whether a document has an id, and a word in the text of a field.
pub open spec fn is_about(doc: (Seq<char>, Doc), field: Seq<char>, w: Seq<char>, id: Seq<char>) -> bool {
    &&& doc.0 == id
    &&& doc.1.map().contains_key(field)
    &&& doc.1.map()[field] is String
    &&& words(doc.1.map()[field]->String_0).contains(w)
}

/// Whether one of documents has an id, and a word in the text of a field.
pub open spec fn has_word(docs: Seq<(Seq<char>, Doc)>, field: Seq<char>, w: Seq<char>, id: Seq<char>) -> bool {
    exists|i: int| 0 <= i < docs.len() && is_about(#[trigger] docs[i], field, w, id)
}

proof fn key_in_more(docs: Seq<(Seq<char>, Doc)>, n: int, field: Seq<char>, k: Seq<u8>, id: Seq<char>)
    requires
        0 <= n < docs.len(),
    ensures
        has_key(docs.take(n + 1), field, k, id) == (has_key(docs.take(n), field, k, id) || is_under(docs[n], field, k, id)),
{
    let a = docs.take(n);
    let b = docs.take(n + 1);
    if has_key(b, field, k, id) {
        let i = choose|i: int| 0 <= i < b.len() && is_under(#[trigger] b[i], field, k, id);
        if i < n {
            assert(a[i] == b[i]);
        }
    }
    if has_key(a, field, k, id) {
        let i = choose|i: int| 0 <= i < a.len() && is_under(#[trigger] a[i], field, k, id);
        assert(b[i] == a[i]);
    }
    assert(b[n] == docs[n]);
}

proof fn word_in_more(docs: Seq<(Seq<char>, Doc)>, n: int, field: Seq<char>, w: Seq<char>, id: Seq<char>)
    requires
        0 <= n < docs.len(),
    ensures
        has_word(docs.take(n + 1), field, w, id) == (has_word(docs.take(n), field, w, id) || is_about(docs[n], field, w, id)),
{
    let a = docs.take(n);
    let b = docs.take(n + 1);
    if has_word(b, field, w, id) {
        let i = choose|i: int| 0 <= i < b.len() && is_about(#[trigger] b[i], field, w, id);
        if i < n {
            assert(a[i] == b[i]);
        }
    }
    if has_word(a, field, w, id) {
        let i = choose|i: int| 0 <= i < a.len() && is_about(#[trigger] a[i], field, w, id);
        assert(b[i] == a[i]);
    }
    assert(b[n] == docs[n]);
}

proof fn keys_so_far(
    steps: Seq<IndexManager>,
    collection: Seq<char>,
    docs: Seq<(Seq<char>, Doc)>,
    field: Seq<char>,
    n: int,
    k: Seq<u8>,
    id: Seq<char>,
)
    requires
        secondary_steps(steps, collection, docs),
        0 <= n <= docs.len(),
        steps[0].secondary_at(collection, field) is Some,
    ensures
        steps[n].secondary_at(collection, field) is Some,
        steps[n].secondary_at(collection, field)->Some_0.posting(k).contains(id) == (steps[0].secondary_at(
            collection,
            field,
        )->Some_0.posting(k).contains(id) || has_key(docs.take(n), field, k, id)),
    decreases n,
{
    if n > 0 {
        keys_so_far(steps, collection, docs, field, n - 1, k, id);
        key_in_more(docs, n - 1, field, k, id);
        assert(secondary_applied(steps[n - 1], steps[n - 1 + 1], true, collection, docs[n - 1].0, docs[n - 1].1));
        let x = steps[n - 1].secondary_at(collection, field);
        let y = steps[n].secondary_at(collection, field);
        assert(y is Some);
        let p = y->Some_0.posting(k);
        let q = x->Some_0.posting(k);
        assert(p.contains(id) == (q.contains(id) || is_under(docs[n - 1], field, k, id)));
    }
}

/// An index of a field that was empty holds, once documents were put in, under each key the
/// ids of the documents with that value, and no others.
pub proof fn filled_index_is_complete(
    a: IndexManager,
    b: IndexManager,
    collection: Seq<char>,
    field: Seq<char>,
    docs: Seq<(Seq<char>, Doc)>,
    k: Seq<u8>,
    id: Seq<char>,
)
    requires
        secondary_filled(a, b, collection, docs),
        a.secondary_at(collection, field) is Some,
        a.secondary_at(collection, field)->Some_0.posting(k) == Set::<Seq<char>>::empty(),
    ensures
        b.secondary_at(collection, field) is Some,
        b.secondary_at(collection, field)->Some_0.posting(k).contains(id) == has_key(docs, field, k, id),
{
    let steps = choose|steps: Seq<IndexManager>| #[trigger]
        secondary_steps(steps, collection, docs) && steps[0] == a && steps[docs.len() as int] == b;
    keys_so_far(steps, collection, docs, field, docs.len() as int, k, id);
    assert(docs.take(docs.len() as int) =~= docs);
}

proof fn words_so_far(
    steps: Seq<IndexManager>,
    collection: Seq<char>,
    docs: Seq<(Seq<char>, Doc)>,
    field: Seq<char>,
    n: int,
    w: Seq<char>,
    id: Seq<char>,
)
    requires
        fts_steps(steps, collection, docs),
        0 <= n <= docs.len(),
        steps[0].fts_at(collection, field) is Some,
    ensures
        steps[n].fts_at(collection, field) is Some,
        steps[n].fts_at(collection, field)->Some_0.posting(w).contains(id) == (steps[0].fts_at(
            collection,
            field,
        )->Some_0.posting(w).contains(id) || has_word(docs.take(n), field, w, id)),
    decreases n,
{
    if n > 0 {
        words_so_far(steps, collection, docs, field, n - 1, w, id);
        word_in_more(docs, n - 1, field, w, id);
        assert(fts_applied(steps[n - 1], steps[n - 1 + 1], true, collection, docs[n - 1].0, docs[n - 1].1));
        let x = steps[n - 1].fts_at(collection, field);
        let y = steps[n].fts_at(collection, field);
        assert(y is Some);
        let p = y->Some_0.posting(w);
        let q = x->Some_0.posting(w);
        assert(p.contains(id) == (q.contains(id) || is_about(docs[n - 1], field, w, id)));
    }
}

/// A full-text index that was empty holds, once documents were put in, under each word the
/// ids of the documents with that word, and no others.
pub proof fn filled_words_are_complete(
    a: IndexManager,
    b: IndexManager,
    collection: Seq<char>,
    field: Seq<char>,
    docs: Seq<(Seq<char>, Doc)>,
    w: Seq<char>,
    id: Seq<char>,
)
    requires
        fts_filled(a, b, collection, docs),
        a.fts_at(collection, field) is Some,
        a.fts_at(collection, field)->Some_0.posting(w) == Set::<Seq<char>>::empty(),
    ensures
        b.fts_at(collection, field) is Some,
        b.fts_at(collection, field)->Some_0.posting(w).contains(id) == has_word(docs, field, w, id),
{
    let steps = choose|steps: Seq<IndexManager>| #[trigger]
        fts_steps(steps, collection, docs) && steps[0] == a && steps[docs.len() as int] == b;
    words_so_far(steps, collection, docs, field, docs.len() as int, w, id);
    assert(docs.take(docs.len() as int) =~= docs);
}

/// Whether a document has an id, and a key in a composite index.
pub open spec fn is_entry(doc: (Seq<char>, Doc), d: Definition, k: Seq<u8>, id: Seq<char>) -> bool {
    doc.0 == id && document_key(d, doc.0, doc.1) == Some(k)
}

/// A composite index that was empty holds, once documents were put in, the keys of the
/// documents that have all of its columns, and no others; each leads to a document with that
/// key.
pub proof fn filled_composite_is_complete(d: Definition, docs: Seq<(Seq<char>, Doc)>, k: Seq<u8>)
    ensures
        ({
            let entries = with_documents(Map::empty(), d, docs);
            &&& entries.contains_key(k) ==> exists|i: int|
                0 <= i < docs.len() && is_entry(#[trigger] docs[i], d, k, entries[k])
            &&& forall|i: int| 0 <= i < docs.len() && is_entry(#[trigger] docs[i], d, k, docs[i].0) ==> entries.contains_key(k)
        }),
    decreases docs.len(),
{
    if docs.len() > 0 {
        let pre = docs.drop_last();
        let before = with_documents(Map::empty(), d, pre);
        let entries = with_documents(Map::empty(), d, docs);
        let n = docs.len() - 1;
        filled_composite_is_complete(d, pre, k);
        assert(docs[n] == docs.last());
        if entries.contains_key(k) {
            if document_key(d, docs[n].0, docs[n].1) == Some(k) {
                assert(is_entry(docs[n], d, k, entries[k]));
            } else {
                let i = choose|i: int| 0 <= i < pre.len() && is_entry(#[trigger] pre[i], d, k, before[k]);
                assert(docs[i] == pre[i]);
            }
        }
        assert forall|i: int| 0 <= i < docs.len() && is_entry(#[trigger] docs[i], d, k, docs[i].0) implies entries.contains_key(
            k,
        ) by {
            if i < n {
                assert(pre[i] == docs[i]);
            }
        }
    }
}

proof fn batch_so_far(
    steps: Seq<IndexManager>,
    put: bool,
    c: Seq<char>,
    docs: Seq<(Seq<char>, Doc)>,
    n: int,
    i: int,
    f: Seq<char>,
    other: Seq<char>,
)
    requires
        batch_steps(steps, put, c, docs),
        0 <= i < docs.len(),
        0 <= n <= docs.len(),
    ensures
        steps[n].secondary_at(c, f) is Some == steps[0].secondary_at(c, f) is Some,
        steps[n].fts_at(c, f) is Some == steps[0].fts_at(c, f) is Some,
        i < n && put && steps[0].secondary_at(c, f) is Some ==> (column_value(f, docs[i].0, docs[i].1) matches Some(v)
            ==> steps[n].secondary_at(c, f)->Some_0.posting(scalar_key(v)).contains(docs[i].0)),
        i < n && !put && steps[0].secondary_at(c, f) is Some && docs[i].1.map().contains_key(f)
            ==> !steps[n].secondary_at(c, f)->Some_0.posting(scalar_key(docs[i].1.map()[f])).contains(docs[i].0),
        i < n && steps[0].fts_at(c, f) is Some && docs[i].1.map().contains_key(f) ==> (docs[i].1.map()[f] matches Val::String(
            text,
        ) ==> forall|k: int|
            0 <= k < words(text).len() ==> steps[n].fts_at(c, f)->Some_0.posting(#[trigger] words(text)[k]).contains(
                docs[i].0,
            ) == put),
        other != c ==> steps[n].secondary_at(other, f) == steps[0].secondary_at(other, f) && steps[n].fts_at(other, f)
            == steps[0].fts_at(other, f),
        steps[n].composite.indexes().len() == steps[0].composite.indexes().len(),
        forall|k: int|
            0 <= k < steps[0].composite.indexes().len() ==> (#[trigger] steps[n].composite.indexes()[k]).definition
                == steps[0].composite.indexes()[k].definition && (steps[0].composite.indexes()[k].definition.collection@
                != c ==> steps[n].composite.indexes()[k] == steps[0].composite.indexes()[k]),
    decreases n,
{
    if n > 0 {
        batch_so_far(steps, put, c, docs, n - 1, i, f, other);
        let (x, y) = (steps[n - 1], steps[n]);
        let d = docs[n - 1];
        assert(indexed(steps[n - 1], steps[n - 1 + 1], put, c, d.0, d.1));
        let (p, q) = (x.secondary_at(c, f), y.secondary_at(c, f));
        assert(p is Some == q is Some);
        let (s, t) = (x.fts_at(c, f), y.fts_at(c, f));
        assert(s is Some == t is Some);
        assert(other != c ==> y.secondary_at(other, f) == x.secondary_at(other, f));
        assert(other != c ==> y.fts_at(other, f) == x.fts_at(other, f));
        if p is Some {
            assert(secondary_step(put, d.0, d.1, f, p->Some_0, q->Some_0));
        }
        if s is Some {
            assert(fts_step(put, d.0, d.1, f, s->Some_0, t->Some_0));
            if i < n && docs[i].1.map().contains_key(f) && docs[i].1.map()[f] is String {
                let text = docs[i].1.map()[f]->String_0;
                assert forall|k: int| 0 <= k < words(text).len() implies t->Some_0.posting(
                    #[trigger] words(text)[k],
                ).contains(docs[i].0) == put by {
                    let w = words(text)[k];
                    assert(words(text).contains(w));
                    if i < n - 1 {
                        assert(s->Some_0.posting(w).contains(docs[i].0) == put);
                    }
                }
            }
        }
        assert forall|k: int| 0 <= k < steps[0].composite.indexes().len() implies (
        #[trigger] y.composite.indexes()[k]).definition == steps[0].composite.indexes()[k].definition && (
        steps[0].composite.indexes()[k].definition.collection@ != c ==> y.composite.indexes()[k]
            == steps[0].composite.indexes()[k]) by {
            let z = x.composite.indexes()[k];
            assert(z.definition@.collection == z.definition.collection@);
        }
    }
}

/// Documents that are put into the indexes of a collection are found there, by the value of
/// every indexed field and by each word of every searched text, and documents that are taken
/// out are not; the indexes of other collections stay as they are, and no index comes or goes.
pub proof fn batch_reaches_indexes(
    a: IndexManager,
    b: IndexManager,
    put: bool,
    c: Seq<char>,
    docs: Seq<(Seq<char>, Doc)>,
    i: int,
    f: Seq<char>,
    other: Seq<char>,
)
    requires
        batch_indexed(a, b, put, c, docs),
        0 <= i < docs.len(),
    ensures
        b.secondary_at(c, f) is Some == a.secondary_at(c, f) is Some,
        b.fts_at(c, f) is Some == a.fts_at(c, f) is Some,
        put && a.secondary_at(c, f) is Some ==> (column_value(f, docs[i].0, docs[i].1) matches Some(v)
            ==> b.secondary_at(c, f)->Some_0.posting(scalar_key(v)).contains(docs[i].0)),
        !put && a.secondary_at(c, f) is Some && docs[i].1.map().contains_key(f) ==> !b.secondary_at(
            c,
            f,
        )->Some_0.posting(scalar_key(docs[i].1.map()[f])).contains(docs[i].0),
        a.fts_at(c, f) is Some && docs[i].1.map().contains_key(f) ==> (docs[i].1.map()[f] matches Val::String(text)
            ==> forall|k: int|
            0 <= k < words(text).len() ==> b.fts_at(c, f)->Some_0.posting(#[trigger] words(text)[k]).contains(docs[i].0)
                == put),
        other != c ==> b.secondary_at(other, f) == a.secondary_at(other, f) && b.fts_at(other, f) == a.fts_at(other, f),
        b.composite.indexes().len() == a.composite.indexes().len(),
        forall|k: int|
            0 <= k < a.composite.indexes().len() ==> (#[trigger] b.composite.indexes()[k]).definition
                == a.composite.indexes()[k].definition && (a.composite.indexes()[k].definition.collection@ != c
                ==> b.composite.indexes()[k] == a.composite.indexes()[k]),
{
    let steps = choose|steps: Seq<IndexManager>| #[trigger]
        batch_steps(steps, put, c, docs) && steps[0] == a && steps[docs.len() as int] == b;
    batch_so_far(steps, put, c, docs, docs.len() as int, i, f, other);
}

} // verus!
