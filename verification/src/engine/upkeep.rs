//! What is kept beside the documents: values in the blob file, indexes and their logs, changes
//! from elsewhere, and the report of the writes.
use vstd::prelude::*;
use vstd::string::*;
use vstd::utf8::encode_utf8;

use crate::directory::NameTable;
use crate::document::firelite_doc::{decode_doc, doc_bytes, document_round_trip, Doc};
use crate::document::value::Val;
use crate::engine::catalog::{
    composite_filled, composite_listing, field_index_made, filled_one, filling_docs, fts_index_made, index_records,
    info_is, listing, tells_of, Filling,
};
use crate::engine::collections::opened_places;
use crate::engine::engine::Hako;
use crate::engine::files::FileReads;
use crate::engine::remote::{put_docs, remote_time};
use crate::engine::stats::{phase_lines, phase_names, phase_times, report, WritePhaseStats};
use crate::engine::types::CompositeIndexInfo;
use crate::engine::worker::{doc_records, docs_records, linked_bytes, packed_bytes, repacked};
use crate::engine::write::shard_places;
use crate::index::composite::composite_index::{document_key, with_documents, CompositeIndex};
use crate::index::composite::definition::{Definition, SortDirection};
use crate::index::storage::index_log::{parse_record, record_bytes, record_reads_back, Entry};
use crate::sorted_map::key_lt;
use crate::storage::blob::{
    attempted_doc, doc_works, end_after, filled, linked, linked_keys, pieces, resolved_doc, skeleton_doc, stop_at, Work,
};
use crate::storage::pointer::Pointer;
use crate::storage::shard::Shard;
use crate::storage::wal::Change;

verus! {

/// A text or bytes above the threshold is kept aside: a link of its length stands in its place,
/// and its bytes wait to be written where the link points.
pub proof fn large_value_is_kept_aside(key: Seq<char>, d: Doc, threshold: nat, end: u64, i: int, b: Seq<u8>)
    requires
        0 <= i < d.fields.len(),
        match d.fields[i].1 {
            Val::String(s) => b == encode_utf8(s),
            Val::Binary(x) => b == x,
            _ => false,
        },
        threshold < b.len() <= u32::MAX,
        end_after(d.fields.take(i), threshold, end as nat) + b.len() <= u64::MAX,
    ensures
        skeleton_doc(d, threshold, Some(end)).fields.len() == d.fields.len(),
        skeleton_doc(d, threshold, Some(end)).fields[i].0 == d.fields[i].0,
        skeleton_doc(d, threshold, Some(end)).fields[i].1 matches Val::BlobLink { offset, len } && len == b.len()
            && exists|k: int|
            0 <= k < doc_works(key, d, threshold, Some(end)).len() && (#[trigger] doc_works(
                key,
                d,
                threshold,
                Some(end),
            )[k]).offset == offset && doc_works(key, d, threshold, Some(end))[k].data == b && doc_works(
                key,
                d,
                threshold,
                Some(end),
            )[k].key == key && doc_works(key, d, threshold, Some(end))[k].time == d.time,
{
    linked_keys(d.fields, threshold, end as nat);
    let k = piece_of(d.fields, threshold, end as nat, i, b);
    let w = doc_works(key, d, threshold, Some(end));
    assert(w[k].data == b);
}

proof fn piece_of(fields: Seq<(Seq<char>, Val)>, threshold: nat, end: nat, i: int, b: Seq<u8>) -> (k: int)
    requires
        0 <= i < fields.len(),
        match fields[i].1 {
            Val::String(s) => b == encode_utf8(s),
            Val::Binary(x) => b == x,
            _ => false,
        },
        threshold < b.len() <= u32::MAX,
        end_after(fields.take(i), threshold, end) + b.len() <= u64::MAX,
    ensures
        0 <= k < pieces(fields, threshold, end).len(),
        pieces(fields, threshold, end)[k].1 == b,
        linked(fields, threshold, end)[i].1 == (Val::BlobLink {
            offset: pieces(fields, threshold, end)[k].0,
            len: b.len() as u32,
        }),
    decreases fields.len(),
{
    let pre = fields.drop_last();
    linked_keys(pre, threshold, end);
    if i == fields.len() - 1 {
        assert(fields.take(i) =~= pre);
        pieces(pre, threshold, end).len() as int
    } else {
        assert(pre.take(i) =~= fields.take(i));
        assert(pre[i] == fields[i]);
        let k = piece_of(pre, threshold, end, i, b);
        assert(pieces(fields, threshold, end)[k] == pieces(pre, threshold, end)[k]);
        assert(linked(fields, threshold, end)[i] == linked(pre, threshold, end)[i]);
        k
    }
}

/// An attempt to put in what a document links to gives the whole document where everything can
/// be read, and never changes what is no link, a key, or the time.
pub proof fn attempt_gives_whole(d: Doc, queue: Seq<Work>, reads: Map<u64, Vec<u8>>, i: int)
    ensures
        resolved_doc(d, true, queue, reads) matches Some(f) ==> attempted_doc(d, true, queue, reads) == f,
        attempted_doc(d, false, queue, reads) == d,
        attempted_doc(d, true, queue, reads).time == d.time,
        attempted_doc(d, true, queue, reads).fields.len() == d.fields.len(),
        0 <= i < d.fields.len() ==> attempted_doc(d, true, queue, reads).fields[i].0 == d.fields[i].0,
        0 <= i < d.fields.len() && !(d.fields[i].1 is BlobLink) ==> attempted_doc(d, true, queue, reads).fields[i]
            == d.fields[i],
{
    if resolved_doc(d, true, queue, reads) is Some {
        let f = resolved_doc(d, true, queue, reads)->Some_0;
        assert forall|k: int| 0 <= k < d.fields.len() implies filled((#[trigger] d.fields[k]).1, queue, reads) is Some by {}
        stops_at_end(d.fields, queue, reads);
        assert(attempted_doc(d, true, queue, reads).fields =~= f.fields);
    }
}

proof fn stops_at_end(fields: Seq<(Seq<char>, Val)>, queue: Seq<Work>, reads: Map<u64, Vec<u8>>)
    requires
        forall|k: int| 0 <= k < fields.len() ==> filled((#[trigger] fields[k]).1, queue, reads) is Some,
    ensures
        stop_at(fields, queue, reads) == fields.len(),
    decreases fields.len(),
{
    if fields.len() > 0 {
        let pre = fields.drop_last();
        assert forall|k: int| 0 <= k < pre.len() implies filled((#[trigger] pre[k]).1, queue, reads) is Some by {
            assert(pre[k] == fields[k]);
        }
        stops_at_end(pre, queue, reads);
        assert(filled(fields[fields.len() - 1].1, queue, reads) is Some);
    }
}

/// An index of a field that is asked for is there afterwards. One that was there stays with what
/// it holds; a new one is empty. Documents, and all other indexes, are as before.
pub proof fn field_index_is_there(a: Hako, b: Hako, c: Seq<char>, f: Seq<char>, made: bool, d: Seq<char>, g: Seq<char>)
    requires
        field_index_made(a, b, c, f, made),
    ensures
        b.indexes.secondary_at(c, f) is Some,
        a.indexes.secondary_at(c, f) is Some ==> !made && b.indexes.secondary_at(c, f) == a.indexes.secondary_at(c, f),
        a.indexes.secondary_at(c, f) is None ==> made && forall|k: Seq<u8>, id: Seq<char>|
            !(#[trigger] b.indexes.secondary_at(c, f)->Some_0.posting(k).contains(id)),
        d != c || g != f ==> b.indexes.secondary_at(d, g) == a.indexes.secondary_at(d, g),
        b.indexes.fts == a.indexes.fts,
        b.indexes.composite == a.indexes.composite,
        shard_places(b.shards@, d) == shard_places(a.shards@, d),
        b.versions == a.versions,
{
    if made {
        opened_places(a.shards@, b.shards@, c, d);
    }
}

/// A full-text index that is asked for is there afterwards, and is empty. Documents, and all
/// other indexes, are as before.
pub proof fn text_index_is_there(a: Hako, b: Hako, c: Seq<char>, f: Seq<char>, d: Seq<char>, g: Seq<char>)
    requires
        fts_index_made(a, b, c, f),
    ensures
        b.indexes.fts_at(c, f) is Some,
        forall|w: Seq<char>, id: Seq<char>| !(#[trigger] b.indexes.fts_at(c, f)->Some_0.posting(w).contains(id)),
        d != c || g != f ==> b.indexes.fts_at(d, g) == a.indexes.fts_at(d, g),
        b.indexes.secondary == a.indexes.secondary,
        b.indexes.composite == a.indexes.composite,
        shard_places(b.shards@, d) == shard_places(a.shards@, d),
        b.versions == a.versions,
{
    opened_places(a.shards@, b.shards@, c, d);
}

/// The documents that come into an index are taken row by row, in order.
pub proof fn filling_goes_row_by_row(
    how: Filling,
    f: Seq<char>,
    a: Seq<(String, Vec<u8>)>,
    b: Seq<(String, Vec<u8>)>,
    has_file: bool,
    queue: Seq<Work>,
    reads: Map<u64, Vec<u8>>,
)
    ensures
        filling_docs(how, f, a + b, has_file, queue, reads) == filling_docs(how, f, a, has_file, queue, reads)
            + filling_docs(how, f, b, has_file, queue, reads),
    decreases b.len(),
{
    let x = filling_docs(how, f, a, has_file, queue, reads);
    if b.len() == 0 {
        assert(a + b =~= a);
        assert(x + filling_docs(how, f, b, has_file, queue, reads) =~= x);
    } else {
        filling_goes_row_by_row(how, f, a, b.drop_last(), has_file, queue, reads);
        assert((a + b).drop_last() =~= a + b.drop_last());
        assert((a + b).last() == b.last());
        assert(filling_docs(how, f, a + b, has_file, queue, reads) =~= x + filling_docs(how, f, b, has_file, queue, reads));
    }
}

/// A stored document comes into an index of a field where it has the field, into a full-text
/// index where it has a text there, and into a composite index in any case, under its id.
pub proof fn stored_document_comes_in(
    f: Seq<char>,
    row: (String, Vec<u8>),
    d: Doc,
    has_file: bool,
    queue: Seq<Work>,
    reads: Map<u64, Vec<u8>>,
)
    requires
        row.1@ == doc_bytes(d),
        d.fits(),
    ensures
        d.map().contains_key(f) ==> filling_docs(Filling::Field, f, seq![row], has_file, queue, reads) == seq![(row.0@, d)],
        !d.map().contains_key(f) ==> filling_docs(Filling::Field, f, seq![row], has_file, queue, reads).len() == 0,
        ({
            let w = attempted_doc(d, has_file, queue, reads);
            let texts = filling_docs(Filling::Text, f, seq![row], has_file, queue, reads);
            &&& filling_docs(Filling::All, f, seq![row], has_file, queue, reads) == seq![(row.0@, w)]
            &&& w.map().contains_key(f) && w.map()[f] is String ==> texts == seq![(row.0@, w)]
            &&& !(w.map().contains_key(f) && w.map()[f] is String) ==> texts.len() == 0
        }),
{
    document_round_trip(d);
    let none = Seq::<(String, Vec<u8>)>::empty();
    assert(seq![row].drop_last() =~= none);
    assert(seq![row].last() == row);
    let e = Seq::<(Seq<char>, Doc)>::empty();
    let w = attempted_doc(d, has_file, queue, reads);
    assert(filling_docs(Filling::Field, f, none, has_file, queue, reads) == e);
    assert(filling_docs(Filling::Text, f, none, has_file, queue, reads) == e);
    assert(filling_docs(Filling::All, f, none, has_file, queue, reads) == e);
    assert(e.push((row.0@, d)) =~= seq![(row.0@, d)]);
    assert(e.push((row.0@, w)) =~= seq![(row.0@, w)]);
}

/// The log of an index gets a record for each document that has all of its columns, with the
/// number of the index, the key of the document and its id, and none for any other.
pub proof fn records_are_of_documents(op: u8, d: Definition, doc: (Seq<char>, Doc), tail: Seq<u8>)
    ensures
        document_key(d, doc.0, doc.1) is None ==> index_records(op, d, seq![doc]).len() == 0,
        document_key(d, doc.0, doc.1) matches Some(k) ==> k.len() < 0x1_0000 && encode_utf8(doc.0).len() < 0x1_0000
            ==> parse_record(index_records(op, d, seq![doc]) + tail) == Some(
            (
                Entry { op, index_id: d.id, key: k, doc: encode_utf8(doc.0) },
                index_records(op, d, seq![doc]).len(),
            ),
        ),
        index_records(op, d, Seq::empty()).len() == 0,
{
    assert(seq![doc].drop_last() =~= Seq::empty());
    assert(index_records(op, d, Seq::empty()) =~= Seq::empty());
    if let Some(k) = document_key(d, doc.0, doc.1) {
        if k.len() < 0x1_0000 && encode_utf8(doc.0).len() < 0x1_0000 {
            record_reads_back(op, d.id, k, encode_utf8(doc.0), tail);
            let r = record_bytes(op, d.id, k, encode_utf8(doc.0));
            assert(index_records(op, d, seq![doc]) =~= r);
        }
    }
}

/// The records of documents stand one behind the other.
pub proof fn records_go_on(op: u8, d: Definition, a: Seq<(Seq<char>, Doc)>, b: Seq<(Seq<char>, Doc)>)
    ensures
        index_records(op, d, a + b) == index_records(op, d, a) + index_records(op, d, b),
    decreases b.len(),
{
    if b.len() == 0 {
        assert(a + b =~= a);
        assert(index_records(op, d, a) + index_records(op, d, b) =~= index_records(op, d, a));
    } else {
        records_go_on(op, d, a, b.drop_last());
        assert((a + b).drop_last() =~= a + b.drop_last());
        assert((a + b).last() == b.last());
        assert(index_records(op, d, a + b) =~= index_records(op, d, a) + index_records(op, d, b));
    }
}

/// The logs get the records of a document for every index of its collection, one index after
/// the other, and none for an index of another collection.
pub proof fn document_is_logged(
    op: u8,
    a: Seq<Definition>,
    b: Seq<Definition>,
    d: Definition,
    c: Seq<char>,
    doc: (Seq<char>, Doc),
)
    ensures
        doc_records(op, a + b, c, doc) == doc_records(op, a, c, doc) + doc_records(op, b, c, doc),
        d.collection == c ==> doc_records(op, seq![d], c, doc) == index_records(op, d, seq![doc]),
        d.collection != c ==> doc_records(op, seq![d], c, doc).len() == 0,
    decreases b.len(),
{
    assert(seq![d].drop_last() =~= Seq::empty());
    assert(doc_records(op, Seq::empty(), c, doc) =~= Seq::empty());
    assert(Seq::<u8>::empty() + index_records(op, d, seq![doc]) =~= index_records(op, d, seq![doc]));
    if b.len() == 0 {
        assert(a + b =~= a);
        assert(doc_records(op, a, c, doc) + doc_records(op, b, c, doc) =~= doc_records(op, a, c, doc));
    } else {
        document_is_logged(op, a, b.drop_last(), d, c, doc);
        assert((a + b).drop_last() =~= a + b.drop_last());
        assert((a + b).last() == b.last());
        assert(doc_records(op, a + b, c, doc) =~= doc_records(op, a, c, doc) + doc_records(op, b, c, doc));
    }
}

/// The logs get the records of documents in the order of the documents.
pub proof fn documents_are_logged(
    op: u8,
    defs: Seq<Definition>,
    c: Seq<char>,
    a: Seq<(Seq<char>, Doc)>,
    b: Seq<(Seq<char>, Doc)>,
    doc: (Seq<char>, Doc),
)
    ensures
        docs_records(op, defs, c, a + b) == docs_records(op, defs, c, a) + docs_records(op, defs, c, b),
        docs_records(op, defs, c, seq![doc]) == doc_records(op, defs, c, doc),
        docs_records(op, defs, c, Seq::empty()).len() == 0,
    decreases b.len(),
{
    assert(seq![doc].drop_last() =~= Seq::empty());
    assert(docs_records(op, defs, c, Seq::empty()) =~= Seq::empty());
    assert(Seq::<u8>::empty() + doc_records(op, defs, c, doc) =~= doc_records(op, defs, c, doc));
    if b.len() == 0 {
        assert(a + b =~= a);
        assert(docs_records(op, defs, c, a) + docs_records(op, defs, c, b) =~= docs_records(op, defs, c, a));
    } else {
        documents_are_logged(op, defs, c, a, b.drop_last(), doc);
        assert((a + b).drop_last() =~= a + b.drop_last());
        assert((a + b).last() == b.last());
        assert(docs_records(op, defs, c, a + b) =~= docs_records(op, defs, c, a) + docs_records(op, defs, c, b));
    }
}

/// Documents are put into the composite index with a number and into no other.
pub proof fn only_one_is_filled(
    a: Seq<CompositeIndex>,
    b: Seq<CompositeIndex>,
    id: u32,
    docs: Seq<(Seq<char>, Doc)>,
    log: Seq<u8>,
    i: int,
)
    requires
        composite_filled(a, b, id, docs, log),
        0 <= i < a.len(),
    ensures
        b.len() == a.len(),
        b[i].definition == a[i].definition,
        a[i].definition.id != id ==> b[i] == a[i],
        a[i].definition.id == id ==> b[i].entries() == with_documents(a[i].entries(), a[i].definition@, docs) && log
            == index_records(1, a[i].definition@, docs),
{
    assert(filled_one(a[i], b[i], id, docs));
}

/// A list of indexes of one collection holds no other, and every index that is asked for is in
/// it, with its number, its collection and its columns, each by its name and `asc` or `desc`.
pub proof fn composites_are_listed(
    s: Seq<CompositeIndex>,
    only: Option<Seq<char>>,
    out: Seq<CompositeIndexInfo>,
    k: int,
    i: int,
)
    requires
        composite_listing(s, only, out),
    ensures
        0 <= i < out.len() ==> (only matches Some(c) ==> out[i].collection@ == c),
        0 <= i < out.len() ==> exists|j: int|
            0 <= j < s.len() && (#[trigger] s[j]).definition.id == out[i].id && s[j].definition.collection@
                == out[i].collection@,
        0 <= k < s.len() && (only is None || only == Some(s[k].definition.collection@)) ==> exists|j: int|
            0 <= j < out.len() && (#[trigger] out[j]).id == s[k].definition.id && out[j].collection@
                == s[k].definition.collection@ && out[j].fields@.len() == s[k].definition.fields@.len() && forall|m: int|
                0 <= m < out[j].fields@.len() ==> (#[trigger] out[j].fields@[m]).field@ == s[k].definition.fields@[m].field@
                    && out[j].fields@[m].direction@ == (match s[k].definition.fields@[m].direction {
                    SortDirection::Asc => "asc"@,
                    SortDirection::Desc => "desc"@,
                }),
{
    if 0 <= i < out.len() {
        assert(tells_of(s, only, out[i]));
        let j = choose|j: int|
            0 <= j < s.len() && crate::engine::catalog::asked(only, (#[trigger] s[j]).definition@.collection) && info_is(
                out[i],
                s[j].definition@,
            );
        assert(s[j].definition.id == out[i].id);
    }
    if 0 <= k < s.len() && (only is None || only == Some(s[k].definition.collection@)) {
        assert(crate::engine::catalog::asked(only, s[k].definition@.collection));
        let j = choose|j: int| 0 <= j < out.len() && info_is(#[trigger] out[j], s[k].definition@);
        let d = s[k].definition@;
        assert(d.columns.len() == s[k].definition.fields@.len());
        assert(out[j].id == s[k].definition.id);
        assert forall|m: int| 0 <= m < out[j].fields@.len() implies (#[trigger] out[j].fields@[m]).field@
            == s[k].definition.fields@[m].field@ && out[j].fields@[m].direction@ == (match s[k].definition.fields@[m].direction {
            SortDirection::Asc => "asc"@,
            SortDirection::Desc => "desc"@,
        }) by {
            assert(d.columns[m].0 == s[k].definition.fields@[m].field@);
        }
    }
}

/// A list of the collections with indexes names those that are asked for and that have any, each
/// once.
pub proof fn collections_are_listed<T>(
    t: NameTable<NameTable<T>>,
    only: Option<Seq<char>>,
    out: Seq<(String, Vec<String>)>,
    c: Seq<char>,
)
    requires
        listing(t, only, out),
    ensures
        (exists|i: int| 0 <= i < out.len() && (#[trigger] out[i]).0@ == c) <==> t@.contains_key(c) && (only is None || only
            == Some(c)),
{
    if t@.contains_key(c) && (only is None || only == Some(c)) {
        assert(crate::engine::catalog::asked(only, c));
    }
}

/// The documents that changes put are told one by one, in order and each with its key: those
/// whose bytes are those of a document.
pub proof fn puts_are_told(a: Seq<Change>, b: Seq<Change>, key: Seq<char>, d: Doc, time: i64)
    ensures
        put_docs(a + b) == put_docs(a) + put_docs(b),
        d.fits() ==> put_docs(seq![Change::Put { key, value: doc_bytes(d) }]) == seq![(key, d)],
        put_docs(seq![Change::Delete { key, time }]).len() == 0,
        put_docs(Seq::empty()).len() == 0,
    decreases b.len(),
{
    let none = Seq::<Change>::empty();
    let e = Seq::<(Seq<char>, Doc)>::empty();
    assert(put_docs(none) =~= e);
    let (p, q) = (Change::Put { key, value: doc_bytes(d) }, Change::Delete { key, time });
    assert(seq![p].drop_last() =~= none);
    assert(seq![q].drop_last() =~= none);
    if d.fits() {
        document_round_trip(d);
        assert(e.push((key, d)) =~= seq![(key, d)]);
    }
    if b.len() == 0 {
        assert(a + b =~= a);
        assert(put_docs(a) + put_docs(b) =~= put_docs(a));
    } else {
        puts_are_told(a, b.drop_last(), key, d, time);
        assert((a + b).drop_last() =~= a + b.drop_last());
        assert((a + b).last() == b.last());
        assert(put_docs(a + b) =~= put_docs(a) + put_docs(b));
    }
}

/// A change from elsewhere has the time of its document, or that of the deletion.
pub proof fn change_has_its_time(key: Seq<char>, d: Doc, time: i64)
    requires
        d.fits(),
    ensures
        remote_time(Change::Put { key, value: doc_bytes(d) }) == d.time,
        remote_time(Change::Delete { key, time }) == time,
{
    document_round_trip(d);
}

/// The values that fields link to are packed one behind the other, in the order of the fields;
/// one that cannot be read leaves nothing.
pub proof fn links_are_packed(
    a: Seq<(Seq<char>, Val)>,
    b: Seq<(Seq<char>, Val)>,
    k: Seq<char>,
    v: Val,
    reads: Map<u64, Vec<u8>>,
)
    ensures
        linked_bytes(a + b, reads) == (match (linked_bytes(a, reads), linked_bytes(b, reads)) {
            (Some(x), Some(y)) => Some(x + y),
            _ => None,
        }),
        linked_bytes(seq![(k, v)], reads) == (match v {
            Val::BlobLink { offset, .. } => if reads.contains_key(offset) {
                Some(reads[offset]@)
            } else {
                None
            },
            _ => Some(Seq::empty()),
        }),
    decreases b.len(),
{
    let none = Seq::<(Seq<char>, Val)>::empty();
    assert(seq![(k, v)].drop_last() =~= none);
    assert(linked_bytes(none, reads) == Some(Seq::<u8>::empty()));
    if let Val::BlobLink { offset, .. } = v {
        if reads.contains_key(offset) {
            assert(Seq::<u8>::empty() + reads[offset]@ =~= reads[offset]@);
        }
    }
    if b.len() == 0 {
        assert(a + b =~= a);
        if let Some(x) = linked_bytes(a, reads) {
            assert(x + Seq::<u8>::empty() =~= x);
        }
    } else {
        links_are_packed(a, b.drop_last(), k, v, reads);
        assert((a + b).drop_last() =~= a + b.drop_last());
        assert((a + b).last() == b.last());
        if let (Some(x), Some(y)) = (linked_bytes(a, reads), linked_bytes(b.drop_last(), reads)) {
            if let Val::BlobLink { offset, .. } = b.last().1 {
                if reads.contains_key(offset) {
                    assert((x + y) + reads[offset]@ =~= x + (y + reads[offset]@));
                }
            }
        }
    }
}

/// The values of documents are packed one document behind the other: of each what its fields
/// link to, and nothing of one that was deleted.
pub proof fn documents_are_packed(
    a: Seq<(Seq<char>, Pointer)>,
    b: Seq<(Seq<char>, Pointer)>,
    key: Seq<char>,
    p: Pointer,
    d: Doc,
    reads: FileReads,
)
    ensures
        packed_bytes(a + b, reads) == (match (packed_bytes(a, reads), packed_bytes(b, reads)) {
            (Some(x), Some(y)) => Some(x + y),
            _ => None,
        }),
        p@ is Deleted ==> packed_bytes(seq![(key, p)], reads) == Some(Seq::<u8>::empty()),
        p@ == crate::storage::pointer::Place::Inlined(doc_bytes(d)) && d.fits() ==> packed_bytes(seq![(key, p)], reads)
            == linked_bytes(d.fields, reads.blobs@),
    decreases b.len(),
{
    let none = Seq::<(Seq<char>, Pointer)>::empty();
    assert(seq![(key, p)].drop_last() =~= none);
    assert(packed_bytes(none, reads) == Some(Seq::<u8>::empty()));
    if d.fits() {
        document_round_trip(d);
        if let Some(x) = linked_bytes(d.fields, reads.blobs@) {
            assert(Seq::<u8>::empty() + x =~= x);
        }
    }
    if b.len() == 0 {
        assert(a + b =~= a);
        if let Some(x) = packed_bytes(a, reads) {
            assert(x + Seq::<u8>::empty() =~= x);
        }
    } else {
        documents_are_packed(a, b.drop_last(), key, p, d, reads);
        assert((a + b).drop_last() =~= a + b.drop_last());
        assert((a + b).last() == b.last());
        if let (Some(x), Some(y)) = (packed_bytes(a, reads), packed_bytes(b.drop_last(), reads)) {
            let e = b.last();
            if let Some(bytes) = crate::storage::pointer::place_bytes(e.1@, crate::engine::files::read_doc(reads, e.0)) {
                if let Some(f) = decode_doc(bytes) {
                    if let Some(z) = linked_bytes(f.fields, reads.blobs@) {
                        assert((x + y) + z =~= x + (y + z));
                    }
                }
            }
        }
    }
}

/// Packing the values of a collection leaves every document where it lies, and says where the
/// blob file now ends.
pub proof fn packing_keeps_places(
    a: Map<Seq<char>, Shard>,
    b: Map<Seq<char>, Shard>,
    c: Seq<char>,
    end: Option<u64>,
    d: Seq<char>,
)
    requires
        repacked(a, b, c, end),
    ensures
        b[c].blob_end == end,
        shard_places(b, d) == shard_places(a, d),
        d != c ==> b.contains_key(d) == a.contains_key(d) && (a.contains_key(d) ==> b[d] == a[d]),
{
    assert(shard_places(b, d) =~= shard_places(a, d));
}

/// The times of a report are those of the phases, in the order of their names; that of the
/// application is without the time of the log inside it.
pub proof fn report_tells_phases(s: WritePhaseStats, mean: Seq<char>, figures: Seq<(String, String)>, n: nat)
    ensures
        phase_times(s).len() == phase_names().len(),
        phase_names()[0] == "total  "@ && phase_times(s)[0] == s.total_ns,
        phase_names()[1] == "encode "@ && phase_times(s)[1] == s.encode_ns,
        phase_names()[2] == "wal    "@ && phase_times(s)[2] == s.wal_ns,
        phase_names()[3] == "apply* "@ && (s.wal_ns <= s.apply_ns ==> phase_times(s)[3] + s.wal_ns == s.apply_ns) && (
        s.apply_ns < s.wal_ns ==> phase_times(s)[3] == 0),
        phase_names()[4] == "idxsend"@ && phase_times(s)[4] == s.index_send_ns,
        phase_names()[5] == "version"@ && phase_times(s)[5] == s.versions_ns,
        phase_names()[6] == "watch  "@ && phase_times(s)[6] == s.watchers_ns,
        phase_names()[7] == "cache  "@ && phase_times(s)[7] == s.cache_ns,
        phase_names()[8] == "blobex "@ && phase_times(s)[8] == s.blob_ns,
        phase_names()[9] == "encdoc "@ && phase_times(s)[9] == s.encdoc_ns,
        n < 10 && phase_times(s)[n as int] > 0 ==> phase_lines(phase_times(s), figures, n + 1) == phase_lines(
            phase_times(s),
            figures,
            n,
        ) + "  "@ + phase_names()[n as int] + " "@ + figures[n as int].0@ + "us/batch "@ + figures[n as int].1@
            + "us/mutation\n"@,
        s.batches > 0 && s.mutations > 0 && s.batches != s.mutations ==> report(s, mean, figures) == "write profile: "@
            + crate::util::decimal::digits(s.batches as nat, 10) + " batches, "@ + crate::util::decimal::digits(
            s.mutations as nat,
            10,
        ) + " mutations ("@ + mean + "/batch)\n"@ + phase_lines(phase_times(s), figures, 10),
{
    if n < 10 && phase_times(s)[n as int] > 0 {
        let before = phase_lines(phase_times(s), figures, n);
        let (x, y) = (figures[n as int].0@, figures[n as int].1@);
        assert(before + ("  "@ + phase_names()[n as int] + " "@ + x + "us/batch "@ + y + "us/mutation\n"@) =~= before
            + "  "@ + phase_names()[n as int] + " "@ + x + "us/batch "@ + y + "us/mutation\n"@);
    }
}

/// The list of composite indexes goes by collection, and within a collection by number.
pub proof fn composites_stand_in_order(
    s: Seq<CompositeIndex>,
    only: Option<Seq<char>>,
    out: Seq<CompositeIndexInfo>,
    i: int,
    j: int,
)
    requires
        composite_listing(s, only, out),
        0 <= i < j < out.len(),
    ensures
        out[i].collection@ == out[j].collection@ ==> out[i].id < out[j].id,
        !key_lt::<String>(out[j].collection@, out[i].collection@),
{
    crate::sorted_map::key_order_total::<String>(out[i].collection@, out[j].collection@);
    crate::sorted_map::key_order_total::<String>(out[i].collection@, out[i].collection@);
}

/// Where there were as many mutations as batches a report tells of one to each.
pub proof fn report_tells_one_to_each(s: WritePhaseStats, mean: Seq<char>, figures: Seq<(String, String)>)
    requires
        s.batches == s.mutations,
        s.batches > 0,
    ensures
        report(s, mean, figures) == "write profile: "@ + crate::util::decimal::digits(s.batches as nat, 10)
            + " batches, "@ + crate::util::decimal::digits(s.batches as nat, 10) + " mutations ("@ + seq!['1', '.', '0']
            + "/batch)\n"@ + phase_lines(phase_times(s), figures, 10),
{
    reveal_strlit("1.0");
    assert("1.0"@ =~= seq!['1', '.', '0']);
}

/// A value that is no longer than the threshold stays where it is, and so does one that is neither
/// a text nor bytes; the time of the document stays too.
pub proof fn small_value_stays(d: Doc, threshold: nat, end: Option<u64>, i: int)
    requires
        0 <= i < d.fields.len(),
        match d.fields[i].1 {
            Val::String(s) => encode_utf8(s).len() <= threshold,
            Val::Binary(x) => x.len() <= threshold,
            _ => true,
        },
    ensures
        skeleton_doc(d, threshold, end).fields[i] == d.fields[i],
        skeleton_doc(d, threshold, end).time == d.time,
{
    if let Some(e) = end {
        small_stays(d.fields, threshold, e as nat, i);
    }
}

proof fn small_stays(fields: Seq<(Seq<char>, Val)>, threshold: nat, end: nat, i: int)
    requires
        0 <= i < fields.len(),
        match fields[i].1 {
            Val::String(s) => encode_utf8(s).len() <= threshold,
            Val::Binary(x) => x.len() <= threshold,
            _ => true,
        },
    ensures
        linked(fields, threshold, end)[i] == fields[i],
    decreases fields.len(),
{
    let pre = fields.drop_last();
    linked_keys(pre, threshold, end);
    if i < pre.len() {
        assert(pre[i] == fields[i]);
        small_stays(pre, threshold, end, i);
    }
}

} // verus!
