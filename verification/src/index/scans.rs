//! What the searches and scans of indexes find, and what the logs and snapshots of indexes keep.
use vstd::prelude::*;
use vstd::string::*;
use vstd::utf8::encode_utf8;

use crate::document::firelite_doc::{names_view, Doc};
use crate::document::value::Val;
use crate::index::composite::composite_index::{document_key, first_n, range_ids, without_documents, CompositeIndex};
use crate::index::composite::definition::{columns, CompositeField, Definition, SortDirection};
use crate::index::composite::key_encoder::value_key;
use crate::index::composite::manager::{entry_dropped, entry_put, first_leading, of_collection, puts, takes};
use crate::index::composite::prefix_scan::prefixed;
use crate::index::index_key::scalar_key;
use crate::index::inverted_index::{
    alphanumeric, lists, prefix_outcome, prefix_search, under_all, under_prefix, word_of, words_from, InvertedIndex,
};
use crate::index::postings::{ids_seq, Ids};
use crate::index::secondary_index::{bytes_le, scan_ids};
use crate::index::storage::index_log::{counted, counted_at, Entry};
use crate::index::storage::index_recovery::{lossy_text, replay, replayed};
use crate::index::storage::index_snapshot::{snapshot_bytes, snapshot_entries};
use crate::index::storage::index_storage::snapshot_path;
use crate::order::{byte_codes, lex_common_head};
use crate::sorted_map::key_lt;
use crate::text::encode_utf8_injective;
use crate::util::decimal::digits_differ;
use crate::util::fixed::{be_bytes, be_round_trip, be_value, pow256_values};

verus! {

/// Keys compare by the first byte in which they differ, and one that another goes on from comes
/// before it.
pub proof fn first_byte_decides(p: Seq<u8>, x: u8, y: u8, u: Seq<u8>, v: Seq<u8>)
    ensures
        bytes_le(p, p + u),
        u.len() > 0 ==> !bytes_le(p + u, p),
        x < y ==> bytes_le(p + seq![x] + u, p + seq![y] + v) && !bytes_le(p + seq![y] + v, p + seq![x] + u),
{
    let (c, d, e) = (byte_codes(p), byte_codes(u), Seq::<int>::empty());
    assert(byte_codes(p + u) =~= c + d);
    assert(c + e =~= c);
    lex_common_head(c, e, d);
    lex_common_head(c, d, e);
    let (g, h) = (seq![x as int] + byte_codes(u), seq![y as int] + byte_codes(v));
    assert(byte_codes(p + seq![x] + u) =~= c + g);
    assert(byte_codes(p + seq![y] + v) =~= c + h);
    lex_common_head(c, g, h);
    lex_common_head(c, h, g);
}

/// A run of letters and digits is one word where it is longer than a byte, and none else.
pub proof fn run_is_a_word(run: Seq<char>)
    requires
        forall|i: int| 0 <= i < run.len() ==> alphanumeric(#[trigger] run[i]),
    ensures
        encode_utf8(run).len() > 1 ==> words_from(Seq::empty(), run) == seq![run],
        encode_utf8(run).len() <= 1 ==> words_from(Seq::empty(), run).len() == 0,
{
    run_goes_on(Seq::empty(), run);
    assert(Seq::<char>::empty() + run =~= run);
}

proof fn run_goes_on(before: Seq<char>, run: Seq<char>)
    requires
        forall|i: int| 0 <= i < run.len() ==> alphanumeric(#[trigger] run[i]),
    ensures
        words_from(before, run) == word_of(before + run),
    decreases run.len(),
{
    if run.len() == 0 {
        assert(before + run =~= before);
    } else {
        let t = run.drop_first();
        assert forall|i: int| 0 <= i < t.len() implies alphanumeric(#[trigger] t[i]) by {
            assert(t[i] == run[i + 1]);
        }
        assert(alphanumeric(run[0]));
        run_goes_on(before.push(run[0]), t);
        assert(before.push(run[0]) + t =~= before + run);
    }
}

/// A character that is neither letter nor digit parts words: those of a text are the words
/// before it and then the words behind it.
pub proof fn words_are_parted(a: Seq<char>, c: char, b: Seq<char>)
    requires
        !alphanumeric(c),
    ensures
        words_from(Seq::empty(), a + seq![c] + b) == words_from(Seq::empty(), a) + words_from(Seq::empty(), b),
{
    parted_behind(Seq::empty(), a, c, b);
}

proof fn parted_behind(run: Seq<char>, a: Seq<char>, c: char, b: Seq<char>)
    requires
        !alphanumeric(c),
    ensures
        words_from(run, a + seq![c] + b) == words_from(run, a) + words_from(Seq::empty(), b),
    decreases a.len(),
{
    let s = a + seq![c] + b;
    if a.len() == 0 {
        assert(s[0] == c);
        assert(s.drop_first() =~= b);
    } else {
        let t = a.drop_first();
        assert(s[0] == a[0]);
        assert(s.drop_first() =~= t + seq![c] + b);
        if alphanumeric(a[0]) {
            parted_behind(run.push(a[0]), t, c, b);
        } else {
            parted_behind(Seq::empty(), t, c, b);
            assert(word_of(run) + (words_from(Seq::empty(), t) + words_from(Seq::empty(), b)) =~= word_of(run)
                + words_from(Seq::empty(), t) + words_from(Seq::empty(), b));
        }
    }
}

/// A list of found documents names each of them once, and no other.
pub proof fn found_are_listed(r: Seq<String>, s: Set<Seq<char>>, id: Seq<char>, i: int, j: int)
    requires
        lists(r, s),
    ensures
        s.contains(id) <==> exists|k: int| 0 <= k < r.len() && (#[trigger] r[k])@ == id,
        0 <= i < j < r.len() ==> r[i]@ != r[j]@ && key_lt::<String>(r[i]@, r[j]@),
{
    let n = names_view(r);
    if s.contains(id) {
        let k = choose|k: int| 0 <= k < n.len() && n[k] == id;
        assert(r[k]@ == id);
    }
    if exists|k: int| 0 <= k < r.len() && (#[trigger] r[k])@ == id {
        let k = choose|k: int| 0 <= k < r.len() && (#[trigger] r[k])@ == id;
        assert(n[k] == id);
    }
    if 0 <= i < j < r.len() {
        assert(key_lt::<String>(r[i]@, r[j]@));
        if r[i]@ == r[j]@ {
            crate::order::lex_equal(
                crate::order::char_codes(r[i]@),
                crate::order::char_codes(r[i]@),
            );
        }
    }
}

/// A search by prefixes that finds anything gives exactly the documents that hold, for every
/// prefix, a word that begins with it; where it gives nothing there is none.
pub proof fn prefix_search_is_exact(idx: InvertedIndex, prefixes: Seq<Seq<char>>, r: Option<Vec<String>>, id: Seq<char>)
    requires
        prefix_search(idx, prefixes, r),
        prefixes.len() > 0,
    ensures
        match r {
            Some(ids) => names_view(ids@).contains(id) <==> forall|i: int|
                0 <= i < prefixes.len() ==> exists|w: Seq<char>|
                    (#[trigger] prefixes[i]).is_prefix_of(w) && #[trigger] idx.posting(w).contains(id),
            None => exists|i: int|
                0 <= i < prefixes.len() && forall|w: Seq<char>|
                    (#[trigger] prefixes[i]).is_prefix_of(w) ==> !(#[trigger] idx.posting(w).contains(id)),
        },
{
    outcome_is_exact(idx, prefixes, 0, Set::empty(), id);
    assert forall|i: int| 0 <= i < prefixes.len() implies (under_prefix(idx, #[trigger] prefixes[i]).contains(id)
        <==> exists|w: Seq<char>| prefixes[i].is_prefix_of(w) && #[trigger] idx.posting(w).contains(id)) by {}
    match prefix_outcome(idx, prefixes, 0, Set::empty()) {
        Some(s) => {
            if s.contains(id) {
                assert forall|i: int| 0 <= i < prefixes.len() implies exists|w: Seq<char>|
                    (#[trigger] prefixes[i]).is_prefix_of(w) && #[trigger] idx.posting(w).contains(id) by {
                    assert(under_prefix(idx, prefixes[i]).contains(id));
                }
            } else {
                let i = choose|i: int|
                    0 <= i < prefixes.len() && !under_prefix(idx, #[trigger] prefixes[i]).contains(id);
                assert(!(exists|w: Seq<char>| prefixes[i].is_prefix_of(w) && #[trigger] idx.posting(w).contains(id)));
            }
        },
        None => {
            let i = choose|i: int| 0 <= i < prefixes.len() && !under_prefix(idx, #[trigger] prefixes[i]).contains(id);
            assert(forall|w: Seq<char>|
                (#[trigger] prefixes[i]).is_prefix_of(w) ==> !(#[trigger] idx.posting(w).contains(id)));
        },
    }
}

proof fn outcome_is_exact(idx: InvertedIndex, prefixes: Seq<Seq<char>>, i: nat, found: Set<Seq<char>>, id: Seq<char>)
    requires
        i <= prefixes.len(),
    ensures
        match prefix_outcome(idx, prefixes, i, found) {
            Some(s) => s.contains(id) <==> (i == 0 && prefixes.len() > 0 || found.contains(id)) && forall|k: int|
                i <= k < prefixes.len() ==> under_prefix(idx, #[trigger] prefixes[k]).contains(id),
            None => exists|k: int| i <= k < prefixes.len() && !under_prefix(idx, #[trigger] prefixes[k]).contains(id),
        },
    decreases prefixes.len() - i,
{
    if i < prefixes.len() {
        let here = under_prefix(idx, prefixes[i as int]);
        let both = if i == 0 {
            here
        } else {
            found.intersect(here)
        };
        if here == Set::<Seq<char>>::empty() {
            assert(!under_prefix(idx, prefixes[i as int]).contains(id));
        } else if both == Set::<Seq<char>>::empty() {
            assert(!both.contains(id));
        } else {
            outcome_is_exact(idx, prefixes, i + 1, both, id);
        }
    }
}

/// A scan gives the ids under the keys of a range, both ends with it, key by key and in the
/// order of the keys.
pub proof fn scan_goes_key_by_key(
    a: Seq<(Seq<u8>, Ids)>,
    b: Seq<(Seq<u8>, Ids)>,
    e: (Seq<u8>, Ids),
    start: Seq<u8>,
    end: Seq<u8>,
)
    ensures
        scan_ids(a + b, start, end) == scan_ids(a, start, end) + scan_ids(b, start, end),
        bytes_le(start, e.0) && bytes_le(e.0, end) ==> scan_ids(seq![e], start, end) == ids_seq(e.1),
        !(bytes_le(start, e.0) && bytes_le(e.0, end)) ==> scan_ids(seq![e], start, end).len() == 0,
        scan_ids(Seq::empty(), start, end).len() == 0,
    decreases b.len(),
{
    assert(seq![e].drop_last() =~= Seq::empty());
    assert(scan_ids(Seq::empty(), start, end) =~= Seq::empty());
    assert(Seq::<Seq<char>>::empty() + ids_seq(e.1) =~= ids_seq(e.1));
    if b.len() == 0 {
        assert(a + b =~= a);
        assert(scan_ids(a, start, end) + scan_ids(b, start, end) =~= scan_ids(a, start, end));
    } else {
        scan_goes_key_by_key(a, b.drop_last(), e, start, end);
        assert((a + b).drop_last() =~= a + b.drop_last());
        assert((a + b).last() == b.last());
        assert(scan_ids(a + b, start, end) =~= scan_ids(a, start, end) + scan_ids(b, start, end));
    }
}

/// A range of a composite index gives the documents whose keys lie in it, both ends with it, in
/// the order of the keys.
pub proof fn range_goes_key_by_key(
    a: Seq<(Seq<u8>, String)>,
    b: Seq<(Seq<u8>, String)>,
    e: (Seq<u8>, String),
    start: Seq<u8>,
    end: Seq<u8>,
)
    ensures
        range_ids(a + b, start, end) == range_ids(a, start, end) + range_ids(b, start, end),
        bytes_le(start, e.0) && bytes_le(e.0, end) ==> range_ids(seq![e], start, end) == seq![e.1@],
        !(bytes_le(start, e.0) && bytes_le(e.0, end)) ==> range_ids(seq![e], start, end).len() == 0,
        range_ids(Seq::empty(), start, end).len() == 0,
    decreases b.len(),
{
    assert(seq![e].drop_last() =~= Seq::empty());
    assert(range_ids(Seq::empty(), start, end) =~= Seq::empty());
    assert(Seq::<Seq<char>>::empty().push(e.1@) =~= seq![e.1@]);
    if b.len() == 0 {
        assert(a + b =~= a);
        assert(range_ids(a, start, end) + range_ids(b, start, end) =~= range_ids(a, start, end));
    } else {
        range_goes_key_by_key(a, b.drop_last(), e, start, end);
        assert((a + b).drop_last() =~= a + b.drop_last());
        assert((a + b).last() == b.last());
        assert(range_ids(a + b, start, end) =~= range_ids(a, start, end) + range_ids(b, start, end));
    }
}

/// A limited scan gives the first documents, and all where there are no more.
pub proof fn limit_takes_first(s: Seq<Seq<char>>, n: nat, i: int)
    ensures
        first_n(s, n).len() <= n,
        first_n(s, n).len() == n || first_n(s, n).len() == s.len(),
        0 <= i < first_n(s, n).len() ==> i < s.len() && first_n(s, n)[i] == s[i],
{
}

/// A scan by a prefix gives the documents whose keys begin with it, in the order of the keys.
pub proof fn prefix_scan_goes_key_by_key(
    a: Seq<(Seq<u8>, String)>,
    b: Seq<(Seq<u8>, String)>,
    prefix: Seq<u8>,
    rest: Seq<u8>,
    other: Seq<u8>,
    id: String,
)
    ensures
        prefixed(a + b, prefix) == prefixed(a, prefix) + prefixed(b, prefix),
        prefixed(seq![(prefix + rest, id)], prefix) == seq![id@],
        (other.len() < prefix.len() || exists|k: int| 0 <= k < prefix.len() && (#[trigger] other[k]) != prefix[k])
            ==> prefixed(seq![(other, id)], prefix).len() == 0,
        prefixed(Seq::empty(), prefix).len() == 0,
    decreases b.len(),
{
    let none = Seq::<(Seq<u8>, String)>::empty();
    assert(prefixed(none, prefix) =~= Seq::empty());
    assert(seq![(prefix + rest, id)].drop_last() =~= none);
    assert(seq![(other, id)].drop_last() =~= none);
    assert((prefix + rest).subrange(0, prefix.len() as int) =~= prefix);
    assert(prefix.is_prefix_of(prefix + rest));
    assert(Seq::<Seq<char>>::empty().push(id@) =~= seq![id@]);
    if exists|k: int| 0 <= k < prefix.len() && (#[trigger] other[k]) != prefix[k] {
        let k = choose|k: int| 0 <= k < prefix.len() && (#[trigger] other[k]) != prefix[k];
        if prefix.is_prefix_of(other) {
            assert(other.subrange(0, prefix.len() as int)[k] == prefix[k]);
        }
    }
    if b.len() == 0 {
        assert(a + b =~= a);
        assert(prefixed(a, prefix) + prefixed(b, prefix) =~= prefixed(a, prefix));
    } else {
        prefix_scan_goes_key_by_key(a, b.drop_last(), prefix, rest, other, id);
        assert((a + b).drop_last() =~= a + b.drop_last());
        assert((a + b).last() == b.last());
        assert(prefixed(a + b, prefix) =~= prefixed(a, prefix) + prefixed(b, prefix));
    }
}

/// The indexes of a collection are those that were made for it, in their order.
pub proof fn indexes_of_a_collection(a: Seq<CompositeIndex>, b: Seq<CompositeIndex>, x: CompositeIndex, c: Seq<char>)
    ensures
        of_collection(a + b, c) == of_collection(a, c) + of_collection(b, c),
        x.definition.collection@ == c ==> of_collection(seq![x], c) == seq![x],
        x.definition.collection@ != c ==> of_collection(seq![x], c).len() == 0,
        of_collection(Seq::empty(), c).len() == 0,
    decreases b.len(),
{
    assert(seq![x].drop_last() =~= Seq::empty());
    assert(of_collection(Seq::empty(), c) =~= Seq::empty());
    assert(Seq::<CompositeIndex>::empty().push(x) =~= seq![x]);
    if b.len() == 0 {
        assert(a + b =~= a);
        assert(of_collection(a, c) + of_collection(b, c) =~= of_collection(a, c));
    } else {
        indexes_of_a_collection(a, b.drop_last(), x, c);
        assert((a + b).drop_last() =~= a + b.drop_last());
        assert((a + b).last() == b.last());
        assert(of_collection(a + b, c) =~= of_collection(a, c) + of_collection(b, c));
    }
}

/// Whether an index is one of a collection and begins with fields.
pub open spec fn begins_with(x: CompositeIndex, c: Seq<char>, fields: Seq<Seq<char>>) -> bool {
    &&& x.definition.collection@ == c
    &&& fields.len() <= x.definition.fields@.len()
    &&& forall|i: int| 0 <= i < fields.len() ==> x.definition.fields@[i].field@ == #[trigger] fields[i]
}

/// The index that a lookup by fields uses is the first of the collection that begins with them,
/// and there is none exactly where no index does.
pub proof fn first_index_is_used(s: Seq<CompositeIndex>, c: Seq<char>, fields: Seq<Seq<char>>)
    ensures
        match first_leading(s, c, fields) {
            Some(x) => exists|k: int|
                0 <= k < s.len() && #[trigger] s[k] == x && begins_with(x, c, fields) && forall|j: int|
                    0 <= j < k ==> !begins_with(#[trigger] s[j], c, fields),
            None => forall|k: int| 0 <= k < s.len() ==> !begins_with(#[trigger] s[k], c, fields),
        },
    decreases s.len(),
{
    if s.len() > 0 {
        let d = s[0].definition@;
        let f = s[0].definition.fields@;
        assert(begins_with(s[0], c, fields) <==> d.collection == c && crate::index::composite::manager::leads(d, fields)) by {
            assert(d.columns.len() == f.len());
            if crate::index::composite::manager::leads(d, fields) {
                assert forall|i: int| 0 <= i < fields.len() implies f[i].field@ == #[trigger] fields[i] by {
                    assert(d.columns[i].0 == fields[i]);
                }
            }
        }
        let t = s.drop_first();
        first_index_is_used(t, c, fields);
        if !begins_with(s[0], c, fields) {
            match first_leading(t, c, fields) {
                Some(x) => {
                    let k = choose|k: int|
                        0 <= k < t.len() && #[trigger] t[k] == x && begins_with(x, c, fields) && forall|j: int|
                            0 <= j < k ==> !begins_with(#[trigger] t[j], c, fields);
                    assert(s[k + 1] == x);
                    assert forall|j: int| 0 <= j < k + 1 implies !begins_with(#[trigger] s[j], c, fields) by {
                        if j > 0 {
                            assert(t[j - 1] == s[j]);
                        }
                    }
                },
                None => {
                    assert forall|k: int| 0 <= k < s.len() implies !begins_with(#[trigger] s[k], c, fields) by {
                        if k > 0 {
                            assert(t[k - 1] == s[k]);
                        }
                    }
                },
            }
        }
    }
}

/// Documents are put into, and taken out of, the indexes of their collection alone, and no
/// index changes what it is about.
pub proof fn other_indexes_stay(
    a: Seq<CompositeIndex>,
    b: Seq<CompositeIndex>,
    c: Seq<char>,
    docs: Seq<(Seq<char>, Doc)>,
    i: int,
)
    requires
        puts(a, b, c, docs) || takes(a, b, c, docs),
        0 <= i < a.len(),
    ensures
        b.len() == a.len(),
        b[i].definition == a[i].definition,
        a[i].definition.collection@ != c ==> b[i] == a[i],
{
    assert(a[i].definition@.collection == a[i].definition.collection@);
}

/// Documents that are taken out leave the index: nothing stands under their keys, and under
/// every other key stands what stood there.
pub proof fn taken_out_is_gone(
    entries: Map<Seq<u8>, Seq<char>>,
    d: Definition,
    docs: Seq<(Seq<char>, Doc)>,
    k: Seq<u8>,
)
    ensures
        (exists|i: int| 0 <= i < docs.len() && document_key(d, (#[trigger] docs[i]).0, docs[i].1) == Some(k))
            ==> !without_documents(entries, d, docs).contains_key(k),
        (forall|i: int| 0 <= i < docs.len() ==> document_key(d, (#[trigger] docs[i]).0, docs[i].1) != Some(k)) ==> (
        without_documents(entries, d, docs).contains_key(k) == entries.contains_key(k) && (entries.contains_key(k)
            ==> without_documents(entries, d, docs)[k] == entries[k])),
    decreases docs.len(),
{
    if docs.len() > 0 {
        let pre = docs.drop_last();
        let last = docs[docs.len() - 1];
        taken_out_is_gone(entries, d, pre, k);
        if exists|i: int| 0 <= i < docs.len() && document_key(d, (#[trigger] docs[i]).0, docs[i].1) == Some(k) {
            let i = choose|i: int| 0 <= i < docs.len() && document_key(d, (#[trigger] docs[i]).0, docs[i].1) == Some(k);
            if i < pre.len() {
                assert(pre[i] == docs[i]);
            }
        }
        if forall|i: int| 0 <= i < docs.len() ==> document_key(d, (#[trigger] docs[i]).0, docs[i].1) != Some(k) {
            assert(document_key(d, last.0, last.1) != Some(k));
            assert forall|i: int| 0 <= i < pre.len() implies document_key(d, (#[trigger] pre[i]).0, pre[i].1) != Some(k) by {
                assert(pre[i] == docs[i]);
            }
        }
    }
}

/// An entry is put into, and taken out of, the index with its number: it stands there, or does
/// not, and everything else stays.
pub proof fn entries_come_and_go(
    a: Seq<CompositeIndex>,
    b: Seq<CompositeIndex>,
    id: u32,
    key: Seq<u8>,
    doc_id: Seq<char>,
    i: int,
    other: Seq<u8>,
)
    requires
        0 <= i < a.len(),
        other != key,
    ensures
        entry_put(a, b, id, key, doc_id) || entry_dropped(a, b, id, key) ==> b.len() == a.len() && b[i].definition
            == a[i].definition && b[i].entries().contains_key(other) == a[i].entries().contains_key(other) && (
        a[i].entries().contains_key(other) ==> b[i].entries()[other] == a[i].entries()[other]) && (a[i].definition.id
            != id ==> b[i] == a[i]),
        entry_put(a, b, id, key, doc_id) && a[i].definition.id == id ==> b[i].entries().contains_key(key)
            && b[i].entries()[key] == doc_id,
        entry_dropped(a, b, id, key) && a[i].definition.id == id ==> !b[i].entries().contains_key(key),
{
}

/// The last record of a log decides about its key in the index with its number: a record with
/// 1 puts its document there, one with 2 takes it away. A record for another index, or for
/// another key, changes nothing.
pub proof fn last_record_decides(entries: Map<Seq<u8>, Seq<char>>, id: u32, log: Seq<Entry>, e: Entry, other: Seq<u8>)
    requires
        other != e.key,
    ensures
        replay(entries, id, Seq::empty()) == entries,
        e.index_id == id && e.op == 1 ==> replay(entries, id, log.push(e)).contains_key(e.key) && replay(
            entries,
            id,
            log.push(e),
        )[e.key] == lossy_text(e.doc),
        e.index_id == id && e.op == 2 ==> !replay(entries, id, log.push(e)).contains_key(e.key),
        e.index_id != id ==> replay(entries, id, log.push(e)) == replay(entries, id, log),
        replay(entries, id, log.push(e)).contains_key(other) == replay(entries, id, log).contains_key(other),
        replay(entries, id, log).contains_key(other) ==> replay(entries, id, log.push(e))[other] == replay(
            entries,
            id,
            log,
        )[other],
{
    assert(log.push(e).drop_last() =~= log);
}

/// The records of a log go to the indexes by their numbers.
pub proof fn log_reaches_every_index(a: Seq<CompositeIndex>, b: Seq<CompositeIndex>, log: Seq<Entry>, i: int)
    requires
        replayed(a, b, log),
        0 <= i < a.len(),
    ensures
        b.len() == a.len(),
        b[i].definition == a[i].definition,
        b[i].entries() == replay(a[i].entries(), a[i].definition.id, log),
{
    assert(b[i].definition == a[i].definition);
}

/// A snapshot begins with the number of its index and the number of its entries, and then holds
/// the entries one by one, each by its key and its document, so that they can be read back.
pub proof fn snapshot_reads_back(x: CompositeIndex, e: (Seq<u8>, String), rest: Seq<(Seq<u8>, String)>)
    requires
        x.tree.seq() == seq![e] + rest,
        x.tree.seq().len() < 0x1_0000_0000_0000_0000,
        e.0.len() < 0x1_0000,
        encode_utf8(e.1@).len() < 0x1_0000,
    ensures
        be_value(snapshot_bytes(x).subrange(0, 4)) == x.definition.id,
        be_value(snapshot_bytes(x).subrange(4, 12)) == x.tree.seq().len(),
        ({
            let s = snapshot_bytes(x).skip(12);
            counted_at(s, 0) matches Some((key, mid)) && key == e.0 && (counted_at(s, mid) matches Some((doc, end)) && doc
                == encode_utf8(e.1@) && s.skip(end) == snapshot_entries(rest))
        }),
        snapshot_entries(Seq::empty()).len() == 0,
{
    let all = x.tree.seq();
    pow256_values();
    be_round_trip(x.definition.id as nat, 4);
    be_round_trip(all.len(), 8);
    be_round_trip(e.0.len(), 2);
    be_round_trip(encode_utf8(e.1@).len(), 2);
    let b = snapshot_bytes(x);
    let s = snapshot_entries(all);
    let (h, c) = (be_bytes(x.definition.id as nat, 4), be_bytes(all.len(), 8));
    assert(b.subrange(0, 4) =~= h);
    assert(b.subrange(4, 12) =~= c);
    assert(b.skip(12) =~= s);
    snapshot_begins(e, rest);
    let (k, d) = (counted(e.0), counted(encode_utf8(e.1@)));
    assert(s == k + d + snapshot_entries(rest));
    assert(s.subrange(0, 2) =~= be_bytes(e.0.len(), 2));
    let mid = 2 + e.0.len() as int;
    assert(s.subrange(2, mid) =~= e.0);
    assert(s.subrange(mid, mid + 2) =~= be_bytes(encode_utf8(e.1@).len(), 2));
    let end = mid + 2 + encode_utf8(e.1@).len() as int;
    assert(s.subrange(mid + 2, end) =~= encode_utf8(e.1@));
    assert(s.skip(end) =~= snapshot_entries(rest));
}

proof fn snapshot_begins(e: (Seq<u8>, String), rest: Seq<(Seq<u8>, String)>)
    ensures
        snapshot_entries(seq![e] + rest) == counted(e.0) + counted(encode_utf8(e.1@)) + snapshot_entries(rest),
    decreases rest.len(),
{
    let all = seq![e] + rest;
    if rest.len() == 0 {
        assert(all =~= seq![e]);
        assert(all.drop_last() =~= Seq::empty());
        assert(snapshot_entries(all.drop_last()) =~= Seq::empty());
        assert(snapshot_entries(all) =~= counted(e.0) + counted(encode_utf8(e.1@)) + snapshot_entries(rest));
    } else {
        snapshot_begins(e, rest.drop_last());
        assert(all.drop_last() =~= seq![e] + rest.drop_last());
        assert(all.last() == rest.last());
        assert(snapshot_entries(all) =~= counted(e.0) + counted(encode_utf8(e.1@)) + snapshot_entries(rest));
    }
}

/// The snapshots of a directory stand under their own paths, one for each index.
pub proof fn snapshots_stand_apart(dir: Seq<char>, a: u32, b: u32)
    ensures
        snapshot_path(dir, a).take(dir.len() as int) == dir,
        snapshot_path(dir, a)[dir.len() as int] == '/',
        snapshot_path(dir, a).skip(snapshot_path(dir, a).len() - 5) == ".snap"@,
        snapshot_path(dir, a) == snapshot_path(dir, b) ==> a == b,
{
    reveal_strlit("/");
    reveal_strlit(".snap");
    let (x, y) = (snapshot_path(dir, a), snapshot_path(dir, b));
    let (p, q) = (crate::util::decimal::digits(a as nat, 10), crate::util::decimal::digits(b as nat, 10));
    assert(x.take(dir.len() as int) =~= dir);
    assert(x.skip(x.len() - 5) =~= ".snap"@);
    if x == y {
        assert(p =~= x.subrange(dir.len() as int + 1, x.len() - 5));
        assert(q =~= y.subrange(dir.len() as int + 1, y.len() - 5));
        digits_differ(a as nat, b as nat);
    }
}

/// The columns of an index are its fields, in their order and each with its direction.
pub proof fn columns_are_fields(fields: Seq<CompositeField>, i: int)
    requires
        0 <= i < fields.len(),
    ensures
        columns(fields).len() == fields.len(),
        columns(fields)[i].0 == fields[i].field@,
        columns(fields)[i].1 == fields[i].direction,
{
}

/// Single values stand under the keys that they have in a column that ascends, but for references
/// and links.
pub proof fn single_keys_ascend(v: Val)
    ensures
        !(v is Reference) && !(v is BlobLink) ==> scalar_key(v) == value_key(v, SortDirection::Asc),
{
    assert(scalar_key(v) =~= value_key(v, SortDirection::Asc) || v is Reference || v is BlobLink);
}

/// Different references, and different links, have different keys, which no other value has.
pub proof fn references_have_own_keys(a: Val, b: Val)
    requires
        a matches Val::Reference { collection, doc_id } ==> encode_utf8(collection).len() < 256 && encode_utf8(doc_id).len()
            < 256,
        b matches Val::Reference { collection, doc_id } ==> encode_utf8(collection).len() < 256 && encode_utf8(doc_id).len()
            < 256,
        scalar_key(a) == scalar_key(b),
    ensures
        a is Reference || a is BlobLink ==> a == b,
{
    let (s, t) = (scalar_key(a), scalar_key(b));
    assert(s[0] == t[0]);
    pow256_values();
    match (a, b) {
        (
            Val::Reference { collection: c, doc_id: i },
            Val::Reference { collection: d, doc_id: j },
        ) => {
            let (p, q) = (encode_utf8(c), encode_utf8(d));
            assert(s[1] == p.len() && t[1] == q.len());
            let n = 2 + p.len() as int;
            assert(s.subrange(2, n) =~= p);
            assert(t.subrange(2, n) =~= q);
            encode_utf8_injective(c, d);
            assert(s.skip(n + 1) =~= encode_utf8(i));
            assert(t.skip(n + 1) =~= encode_utf8(j));
            encode_utf8_injective(i, j);
        },
        (Val::BlobLink { offset: x, len: m }, Val::BlobLink { offset: y, len: n }) => {
            be_round_trip(x as nat, 8);
            be_round_trip(y as nat, 8);
            be_round_trip(m as nat, 4);
            be_round_trip(n as nat, 4);
            assert(s.subrange(1, 9) =~= be_bytes(x as nat, 8));
            assert(t.subrange(1, 9) =~= be_bytes(y as nat, 8));
            assert(s.skip(9) =~= be_bytes(m as nat, 4));
            assert(t.skip(9) =~= be_bytes(n as nat, 4));
        },
        _ => {},
    }
}

/// A document is found by words if and only if it stands under every one of them; more words find
/// no more documents.
pub proof fn found_hold_every_word(idx: InvertedIndex, a: Seq<Seq<char>>, w: Seq<char>, id: Seq<char>)
    ensures
        under_all(idx, a.push(w)).contains(id) <==> under_all(idx, a).contains(id) && idx.posting(w).contains(id),
        under_all(idx, seq![w]).contains(id) <==> idx.posting(w).contains(id),
{
    let all = a.push(w);
    if under_all(idx, all).contains(id) {
        assert forall|i: int| 0 <= i < a.len() implies idx.posting(#[trigger] a[i]).contains(id) by {
            assert(all[i] == a[i]);
        }
        assert(all[a.len() as int] == w);
    }
    assert(seq![w][0] == w);
}

} // verus!
