//! The index of one field: which documents hold which value.
use vstd::prelude::*;

use crate::document::firelite_doc::names_view;
use crate::document::value::copy_bytes;
use crate::index::inverted_index::lists;
use crate::index::postings::{entry_rows, ids_empty, ids_seq, last_ids, push_ids, Ids, Postings};
use crate::order::{byte_codes, compare_bytes, lex, lex_equal, lex_flip, Order};
use crate::sorted_map::{
    ascending, ascending_entry, ascending_unique, entries_map, has_key, key_lt, key_order_total, Key,
};

verus! {

/// The documents under each key of a field.
pub struct SecondaryIndex {
    map: Postings<Vec<u8>>,
}

impl Default for SecondaryIndex {
    fn default() -> (r: SecondaryIndex)
        ensures
            r.wf(),
            forall|k: Seq<u8>| #[trigger] r.posting(k) == Set::<Seq<char>>::empty(),
    {
        SecondaryIndex { map: Postings::new() }
    }
}

/// Whether `a` comes before `b` or is the same.
pub open spec fn bytes_le(a: Seq<u8>, b: Seq<u8>) -> bool {
    lex(byte_codes(a), byte_codes(b)) != Order::Greater
}

/// `b` is `a` with `id` put under `k`.
pub open spec fn with_id(a: SecondaryIndex, b: SecondaryIndex, k: Seq<u8>, id: Seq<char>) -> bool {
    forall|j: Seq<u8>| #[trigger]
        b.posting(j) == if j == k {
            a.posting(j).insert(id)
        } else {
            a.posting(j)
        }
}

/// `b` is `a` with `id` taken out from under `k`.
pub open spec fn without_id(a: SecondaryIndex, b: SecondaryIndex, k: Seq<u8>, id: Seq<char>) -> bool {
    forall|j: Seq<u8>| #[trigger]
        b.posting(j) == if j == k {
            a.posting(j).remove(id)
        } else {
            a.posting(j)
        }
}

/// Taking a document out undoes putting it in, where it did not stand there before.
pub proof fn removal_undoes_insertion(
    a: SecondaryIndex,
    b: SecondaryIndex,
    c: SecondaryIndex,
    k: Seq<u8>,
    id: Seq<char>,
)
    requires
        with_id(a, b, k, id),
        without_id(b, c, k, id),
        !a.posting(k).contains(id),
    ensures
        forall|j: Seq<u8>| #[trigger] c.posting(j) == a.posting(j),
{
    assert forall|j: Seq<u8>| #[trigger] c.posting(j) == a.posting(j) by {
        assert(b.posting(j) == if j == k {
            a.posting(j).insert(id)
        } else {
            a.posting(j)
        });
        assert(a.posting(k).insert(id).remove(id) =~= a.posting(k));
    }
}

/// The ids under the keys of `entries` from `start` to `end`, key by key.
pub open spec fn scan_ids(entries: Seq<(Seq<u8>, Ids)>, start: Seq<u8>, end: Seq<u8>) -> Seq<Seq<char>>
    decreases entries.len(),
{
    if entries.len() == 0 {
        Seq::empty()
    } else {
        let e = entries.last();
        scan_ids(entries.drop_last(), start, end) + if bytes_le(start, e.0) && bytes_le(e.0, end) {
            ids_seq(e.1)
        } else {
            Seq::empty()
        }
    }
}

impl SecondaryIndex {
    /// The documents under a key.
    pub closed spec fn posting(&self, k: Seq<u8>) -> Set<Seq<char>> {
        self.map.posting(k)
    }

    /// The keys with their documents, in order.
    pub closed spec fn entries(&self) -> Seq<(Seq<u8>, Ids)> {
        self.map.map.seq()
    }

    /// The keys ascend, and so do the ids under each.
    pub closed spec fn wf(&self) -> bool {
        self.map.wf()
    }

    /// Puts a document under a key.
    pub fn insert(&mut self, key: Vec<u8>, doc_id: String)
        requires
            old(self).wf(),
        ensures
            final(self).wf(),
            with_id(*old(self), *final(self), key@, doc_id@),
    {
        self.map.put(key, doc_id.as_str());
    }

    /// Puts a document under a key that stays with the caller.
    pub fn insert_borrowed(&mut self, key: &[u8], doc_id: &str)
        requires
            old(self).wf(),
        ensures
            final(self).wf(),
            with_id(*old(self), *final(self), key@, doc_id@),
    {
        self.map.put(copy_bytes(key), doc_id);
    }

    /// Takes a document out from under a key.
    pub fn remove(&mut self, key: &[u8], doc_id: &str)
        requires
            old(self).wf(),
        ensures
            final(self).wf(),
            without_id(*old(self), *final(self), key@, doc_id@),
    {
        self.map.drop_id(&copy_bytes(key), doc_id);
    }

    /// The keys with the ids under them, in order.
    pub closed spec fn saved(&self) -> Seq<(Seq<u8>, Seq<Seq<char>>)> {
        self.map.saved()
    }

    /// The keys in order, each with its documents in order.
    pub fn get_map(&self) -> (r: Vec<(Vec<u8>, Vec<String>)>)
        ensures
            entry_rows(r@) == self.saved(),
    {
        self.map.save()
    }

    /// The keys in order with the ids under them, to be saved.
    pub fn to_rows(&self) -> (r: Vec<(Vec<u8>, Vec<String>)>)
        ensures
            entry_rows(r@) == self.saved(),
    {
        self.map.save()
    }

    /// The index of what was saved. Of two rows with the same key the later counts.
    pub fn of_rows(rows: &Vec<(Vec<u8>, Vec<String>)>) -> (r: SecondaryIndex)
        ensures
            r.wf(),
            forall|k: Seq<u8>| #[trigger] r.posting(k) == last_ids(entry_rows(rows@), k),
    {
        SecondaryIndex { map: Postings::restore(rows) }
    }

    /// What is saved tells which documents stand under a key.
    pub proof fn saved_holds(&self, k: Seq<u8>)
        requires
            self.wf(),
        ensures
            last_ids(self.saved(), k) == self.posting(k),
    {
        self.map.saved_holds(k);
    }

    /// The rows of an index hold what stands under its keys: the keys ascend, the ids under
    /// each key are its documents in order, and no key is there without a document.
    pub proof fn rows_are_postings(&self)
        requires
            self.wf(),
        ensures
            ascending::<Vec<u8>, Ids>(self.entries()),
            self.saved().len() == self.entries().len(),
            forall|i: int|
                0 <= i < self.entries().len() ==> #[trigger] self.saved()[i] == (
                    self.entries()[i].0,
                    ids_seq(self.entries()[i].1),
                ),
            forall|i: int|
                0 <= i < self.saved().len() ==> {
                    &&& (#[trigger] self.saved()[i]).1.len() > 0
                    &&& self.saved()[i].1.to_set() == self.posting(self.saved()[i].0)
                },
            forall|i: int| 0 <= i < self.saved().len() ==> ids_ascend(#[trigger] self.saved()[i].1),
            forall|k: Seq<u8>| #[trigger] self.posting(k) != Set::<Seq<char>>::empty() <==> has_key(self.saved(), k),
    {
        let e = self.entries();
        let s = self.saved();
        assert forall|i: int| 0 <= i < s.len() implies (#[trigger] s[i]).1.len() > 0 && s[i].1.to_set() == self.posting(
            s[i].0,
        ) && ids_ascend(s[i].1) by {
            ascending_entry::<Vec<u8>, Ids>(e, i);
            assert(self.map.map@.contains_key(e[i].0));
            ids_are_set(e[i].1);
        }
        assert forall|k: Seq<u8>| #[trigger] self.posting(k) != Set::<Seq<char>>::empty() <==> has_key(s, k) by {
            if has_key(s, k) {
                let i = choose|i: int| 0 <= i < s.len() && #[trigger] s[i].0 == k;
                ascending_entry::<Vec<u8>, Ids>(e, i);
                ids_empty(e[i].1);
            }
            if self.map.map@.contains_key(k) {
                let i = choose|i: int| 0 <= i < e.len() && #[trigger] e[i].0 == k;
                assert(s[i].0 == k);
            }
        }
    }

    /// The documents under one key, in order.
    pub fn lookup(&self, key: &[u8]) -> (r: Vec<String>)
        requires
            self.wf(),
        ensures
            lists(r@, self.posting(key@)),
            names_view(r@) == scan_ids(self.entries(), key@, key@),
    {
        proof {
            lex_equal(byte_codes(key@), byte_codes(key@));
            scan_point(self.entries(), key@);
        }
        let r = self.range_scan(key, key);
        proof {
            let s = self.entries();
            if self.map.map@.contains_key(key@) {
                let i = choose|i: int| 0 <= i < s.len() && #[trigger] s[i].0 == key@;
                ascending_entry::<Vec<u8>, Ids>(s, i);
                ids_listed(r@, s[i].1);
            } else {
                assert forall|i: int| 0 <= i < s.len() implies #[trigger] s[i].0 != key@ by {}
                assert(r@.len() == names_view(r@).len());
            }
        }
        r
    }

    /// The documents under the keys from `start` to `end`, both taken in, key by key.
    pub fn range_scan(&self, start: &[u8], end: &[u8]) -> (r: Vec<String>)
        requires
            self.wf(),
            bytes_le(start@, end@),
        ensures
            names_view(r@) == scan_ids(self.entries(), start@, end@),
    {
        let mut r: Vec<String> = Vec::new();
        let ghost s = self.map.map.seq();
        let mut i: usize = 0;
        proof {
            assert(names_view(r@) =~= Seq::empty());
            assert(s.take(0) =~= Seq::empty());
        }
        while i < self.map.map.len()
            invariant
                self.wf(),
                s == self.map.map.seq(),
                i <= s.len(),
                names_view(r@) == scan_ids(s.take(i as int), start@, end@),
            decreases s.len() - i,
        {
            let e = self.map.map.entry(i);
            proof {
                lex_flip(byte_codes(start@), byte_codes(e.0@));
                lex_flip(byte_codes(e.0@), byte_codes(end@));
                assert(s.take(i + 1).drop_last() =~= s.take(i as int));
                assert(s.take(i + 1).last() == s[i as int]);
            }
            let ghost before = r@;
            if !matches!(compare_bytes(start, e.0.as_slice()), Order::Greater) && !matches!(
                compare_bytes(e.0.as_slice(), end),
                Order::Greater
            ) {
                push_ids(&mut r, e.1);
            } else {
                proof {
                    assert(scan_ids(s.take(i as int), start@, end@) + Seq::<Seq<char>>::empty() =~= scan_ids(
                        s.take(i as int),
                        start@,
                        end@,
                    ));
                }
            }
            i = i + 1;
        }
        proof {
            assert(s.take(s.len() as int) =~= s);
        }
        r
    }
}

/// Ids ascend.
pub open spec fn ids_ascend(ids: Seq<Seq<char>>) -> bool {
    forall|i: int, j: int| #![trigger ids[i], ids[j]] 0 <= i < j < ids.len() ==> key_lt::<String>(ids[i], ids[j])
}

/// The ids of a set in order are those of the set, and ascend.
proof fn ids_are_set(ids: Ids)
    requires
        ids.wf(),
    ensures
        ids_seq(ids).to_set() == ids@.dom(),
        ids_ascend(ids_seq(ids)),
{
    let s = ids.seq();
    let t = ids_seq(ids);
    assert forall|n: Seq<char>| t.to_set().contains(n) <==> ids@.dom().contains(n) by {
        if t.contains(n) {
            let k = choose|k: int| 0 <= k < t.len() && t[k] == n;
            ascending_entry::<String, ()>(s, k);
        }
        if ids@.contains_key(n) {
            let k = choose|k: int| 0 <= k < s.len() && #[trigger] s[k].0 == n;
            assert(t[k] == n);
        }
    }
    assert(t.to_set() =~= ids@.dom());
    assert forall|i: int, j: int| #![trigger t[i], t[j]] 0 <= i < j < t.len() implies key_lt::<String>(t[i], t[j]) by {
        assert(key_lt::<String>(s[i].0, s[j].0));
    }
}

/// Ids that ascend are determined by their set.
proof fn ids_determined(a: Seq<Seq<char>>, b: Seq<Seq<char>>)
    requires
        ids_ascend(a),
        ids_ascend(b),
        a.to_set() == b.to_set(),
    ensures
        a == b,
{
    let x: Seq<(Seq<char>, ())> = Seq::new(a.len(), |i: int| (a[i], ()));
    let y: Seq<(Seq<char>, ())> = Seq::new(b.len(), |i: int| (b[i], ()));
    assert(ascending::<String, ()>(x));
    assert(ascending::<String, ()>(y));
    assert forall|k: Seq<char>| has_key(x, k) <==> has_key(y, k) by {
        if has_key(x, k) {
            let i = choose|i: int| 0 <= i < x.len() && #[trigger] x[i].0 == k;
            assert(a[i] == k);
            assert(a.to_set().contains(k));
            let j = choose|j: int| 0 <= j < b.len() && b[j] == k;
            assert(y[j].0 == k);
        }
        if has_key(y, k) {
            let i = choose|i: int| 0 <= i < y.len() && #[trigger] y[i].0 == k;
            assert(b[i] == k);
            assert(b.to_set().contains(k));
            let j = choose|j: int| 0 <= j < a.len() && a[j] == k;
            assert(x[j].0 == k);
        }
    }
    assert(entries_map(x) =~= entries_map(y));
    ascending_unique::<String, ()>(x, y);
    assert forall|i: int| 0 <= i < a.len() implies a[i] == b[i] by {
        assert(x[i] == y[i]);
    }
    assert(a.len() == x.len() && b.len() == y.len());
    assert(a =~= b);
}

/// Two indexes with the same documents under each key have the same rows.
pub proof fn same_postings_same_rows(a: SecondaryIndex, b: SecondaryIndex)
    requires
        a.wf(),
        b.wf(),
        forall|k: Seq<u8>| #[trigger] a.posting(k) == b.posting(k),
    ensures
        a.saved() == b.saved(),
{
    a.rows_are_postings();
    b.rows_are_postings();
    let x = a.saved();
    let y = b.saved();
    assert(ascending::<Vec<u8>, Seq<Seq<char>>>(x)) by {
        assert forall|i: int, j: int| #![trigger x[i], x[j]] 0 <= i < j < x.len() implies key_lt::<Vec<u8>>(
            x[i].0,
            x[j].0,
        ) by {
            assert(key_lt::<Vec<u8>>(a.entries()[i].0, a.entries()[j].0));
        }
    }
    assert(ascending::<Vec<u8>, Seq<Seq<char>>>(y)) by {
        assert forall|i: int, j: int| #![trigger y[i], y[j]] 0 <= i < j < y.len() implies key_lt::<Vec<u8>>(
            y[i].0,
            y[j].0,
        ) by {
            assert(key_lt::<Vec<u8>>(b.entries()[i].0, b.entries()[j].0));
        }
    }
    assert forall|k: Seq<u8>| has_key(x, k) <==> has_key(y, k) by {
        assert(a.posting(k) == b.posting(k));
    }
    assert forall|k: Seq<u8>| has_key(x, k) implies entries_map(x)[k] == entries_map(y)[k] by {
        let i = choose|i: int| 0 <= i < x.len() && #[trigger] x[i].0 == k;
        let j = choose|j: int| 0 <= j < y.len() && #[trigger] y[j].0 == k;
        ascending_entry::<Vec<u8>, Seq<Seq<char>>>(x, i);
        ascending_entry::<Vec<u8>, Seq<Seq<char>>>(y, j);
        assert(a.posting(k) == b.posting(k));
        ids_determined(x[i].1, y[j].1);
    }
    assert(entries_map(x) =~= entries_map(y));
    ascending_unique::<Vec<u8>, Seq<Seq<char>>>(x, y);
}

/// Indexes with the same rows have the same rows again after the same document was put under
/// the same key of both, whichever way it was put.
pub proof fn insertions_agree(
    a: SecondaryIndex,
    b: SecondaryIndex,
    a1: SecondaryIndex,
    b1: SecondaryIndex,
    k: Seq<u8>,
    id: Seq<char>,
)
    requires
        a.wf(),
        b.wf(),
        a1.wf(),
        b1.wf(),
        a.saved() == b.saved(),
        with_id(a, a1, k, id),
        with_id(b, b1, k, id),
    ensures
        a1.saved() == b1.saved(),
{
    assert forall|j: Seq<u8>| #[trigger] a1.posting(j) == b1.posting(j) by {
        a.saved_holds(j);
        b.saved_holds(j);
    }
    same_postings_same_rows(a1, b1);
}

/// Putting a document under a key again changes nothing.
pub proof fn insertion_again_is_nothing(
    a: SecondaryIndex,
    b: SecondaryIndex,
    c: SecondaryIndex,
    k: Seq<u8>,
    id: Seq<char>,
)
    requires
        b.wf(),
        c.wf(),
        with_id(a, b, k, id),
        with_id(b, c, k, id),
    ensures
        c.saved() == b.saved(),
{
    assert forall|j: Seq<u8>| #[trigger] c.posting(j) == b.posting(j) by {
        assert(b.posting(k) == a.posting(k).insert(id));
        assert(b.posting(k).insert(id) =~= b.posting(k));
    }
    same_postings_same_rows(c, b);
}

/// A scan from a key to the same key gives the ids under it.
proof fn scan_point(s: Seq<(Seq<u8>, Ids)>, k: Seq<u8>)
    requires
        ascending::<Vec<u8>, Ids>(s),
    ensures
        forall|i: int| 0 <= i < s.len() && #[trigger] s[i].0 == k ==> scan_ids(s, k, k) == ids_seq(s[i].1),
        (forall|i: int| 0 <= i < s.len() ==> #[trigger] s[i].0 != k) ==> scan_ids(s, k, k).len() == 0,
    decreases s.len(),
{
    if s.len() > 0 {
        let t = s.drop_last();
        let e = s.last();
        assert forall|i: int, j: int| #![trigger t[i], t[j]] 0 <= i < j < t.len() implies key_lt::<Vec<u8>>(t[i].0, t[j].0) by {
            assert(t[i] == s[i]);
            assert(t[j] == s[j]);
        }
        scan_point(t, k);
        lex_flip(byte_codes(k), byte_codes(e.0));
        lex_equal(byte_codes(k), byte_codes(e.0));
        if byte_codes(k) == byte_codes(e.0) {
            <Vec<u8> as Key>::codes_injective(k, e.0);
        }
        assert(bytes_le(k, e.0) && bytes_le(e.0, k) <==> e.0 == k);
        assert forall|i: int| 0 <= i < t.len() implies #[trigger] t[i] == s[i] by {}
        if e.0 == k {
            assert forall|i: int| 0 <= i < t.len() implies #[trigger] t[i].0 != k by {
                assert(key_lt::<Vec<u8>>(s[i].0, s[s.len() - 1].0));
                key_order_total::<Vec<u8>>(k, k);
            }
            assert(scan_ids(s, k, k) =~= ids_seq(e.1));
            assert forall|i: int| 0 <= i < s.len() && #[trigger] s[i].0 == k implies scan_ids(s, k, k) == ids_seq(
                s[i].1,
            ) by {
                if i < t.len() {
                    assert(t[i].0 == s[i].0);
                }
            }
        } else {
            assert(scan_ids(s, k, k) =~= scan_ids(t, k, k));
            assert forall|i: int| 0 <= i < s.len() && #[trigger] s[i].0 == k implies scan_ids(s, k, k) == ids_seq(
                s[i].1,
            ) by {
                assert(t[i].0 == s[i].0);
            }
            if forall|i: int| 0 <= i < s.len() ==> #[trigger] s[i].0 != k {
                assert forall|i: int| 0 <= i < t.len() implies #[trigger] t[i].0 != k by {
                    assert(s[i].0 != k);
                }
            }
        }
    }
}

/// Names that are the ids of a set in order list the set.
proof fn ids_listed(r: Seq<String>, ids: Ids)
    requires
        ids.wf(),
        names_view(r) == ids_seq(ids),
    ensures
        lists(r, ids@.dom()),
{
    let s = ids.seq();
    assert(r.len() == names_view(r).len());
    assert forall|i: int| 0 <= i < r.len() implies #[trigger] r[i]@ == s[i].0 by {
        assert(names_view(r)[i] == ids_seq(ids)[i]);
    }
    assert forall|i: int, j: int| #![trigger r[i], r[j]] 0 <= i < j < r.len() implies key_lt::<String>(r[i]@, r[j]@) by {
        assert(r[i]@ == s[i].0);
        assert(r[j]@ == s[j].0);
    }
    assert forall|n: Seq<char>| ids@.dom().contains(n) <==> names_view(r).contains(n) by {
        if ids@.contains_key(n) {
            let k = choose|k: int| 0 <= k < s.len() && #[trigger] s[k].0 == n;
            assert(names_view(r)[k] == ids_seq(ids)[k]);
        }
        if names_view(r).contains(n) {
            let k = choose|k: int| 0 <= k < r.len() && names_view(r)[k] == n;
            assert(ids_seq(ids)[k] == s[k].0);
            ascending_entry::<String, ()>(s, k);
        }
    }
}

} // verus!
