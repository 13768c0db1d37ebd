//! The full-text index: which documents hold which words.
use vstd::prelude::*;
use vstd::utf8::encode_utf8;

use crate::document::firelite_doc::names_view;
use crate::index::postings::{ids_empty, Ids, Postings};
use crate::sorted_map::{ascending_entry, key_lt, SortedMap};
use crate::text::{chars_of, text_of};

verus! {

/// The lowercase form of a text, after the tables of the Unicode standard.
pub uninterp spec fn lowercase(s: Seq<char>) -> Seq<char>;

/// Whether a character is a letter or a digit, after the tables of the Unicode standard.
pub uninterp spec fn alphanumeric(c: char) -> bool;

/// `str::to_lowercase`: the lowercase form of a string.
pub assume_specification[ str::to_lowercase ](s: &str) -> (r: std::string::String)
    ensures
        r@ == lowercase(s@),
;

/// `char::is_alphanumeric`: whether a character is a letter or a digit.
pub assume_specification[ char::is_alphanumeric ](c: char) -> (r: bool)
    ensures
        r == alphanumeric(c),
;

/// A run of letters and digits as a word: of more than one byte, or none.
pub open spec fn word_of(run: Seq<char>) -> Seq<Seq<char>> {
    if encode_utf8(run).len() > 1 {
        seq![run]
    } else {
        Seq::empty()
    }
}

/// The words of `s`, `run` being the letters and digits that stand just before it.
pub open spec fn words_from(run: Seq<char>, s: Seq<char>) -> Seq<Seq<char>>
    decreases s.len(),
{
    if s.len() == 0 {
        word_of(run)
    } else if alphanumeric(s[0]) {
        words_from(run.push(s[0]), s.drop_first())
    } else {
        word_of(run) + words_from(Seq::empty(), s.drop_first())
    }
}

/// The words of a text: the runs of letters and digits of its lowercase form that are
/// longer than one byte.
pub open spec fn words(text: Seq<char>) -> Seq<Seq<char>> {
    words_from(Seq::empty(), lowercase(text))
}

/// The words of a text.
pub fn tokenize(text: &str) -> (r: Vec<String>)
    ensures
        names_view(r@) == words(text@),
{
    let lower = text.to_lowercase();
    split_words(lower.as_str())
}

/// The words of a text that is in lowercase already.
pub fn split_words(text: &str) -> (r: Vec<String>)
    ensures
        names_view(r@) == words_from(Seq::empty(), text@),
{
    let chars = chars_of(text);
    let mut r: Vec<String> = Vec::new();
    let mut start: usize = 0;
    let mut i: usize = 0;
    proof {
        assert(names_view(r@) =~= Seq::empty());
        assert(chars@.skip(0) =~= chars@);
        assert(chars@.subrange(0, 0) =~= Seq::empty());
        assert(Seq::<Seq<char>>::empty() + words_from(Seq::empty(), chars@) =~= words_from(Seq::empty(), chars@));
    }
    while i < chars.len()
        invariant
            start <= i <= chars@.len(),
            chars@ == text@,
            names_view(r@) + words_from(chars@.subrange(start as int, i as int), chars@.skip(i as int)) == words_from(
                Seq::empty(),
                text@,
            ),
        decreases chars@.len() - i,
    {
        let ghost rest = chars@.skip(i as int);
        let ghost run = chars@.subrange(start as int, i as int);
        proof {
            assert(rest[0] == chars@[i as int]);
            assert(rest.drop_first() =~= chars@.skip(i + 1));
        }
        if chars[i].is_alphanumeric() {
            proof {
                assert(run.push(rest[0]) =~= chars@.subrange(start as int, i + 1));
            }
        } else {
            let ghost done = names_view(r@);
            push_word(&mut r, &chars, start, i);
            proof {
                let tail = words_from(Seq::empty(), chars@.skip(i + 1));
                assert(done + (word_of(run) + tail) =~= (done + word_of(run)) + tail);
                assert(chars@.subrange(i + 1, i + 1) =~= Seq::empty());
            }
            start = i + 1;
        }
        i = i + 1;
    }
    push_word(&mut r, &chars, start, i);
    r
}

/// Appends the run `from..to` if it is a word.
fn push_word(r: &mut Vec<String>, chars: &Vec<char>, from: usize, to: usize)
    requires
        from <= to <= chars@.len(),
    ensures
        names_view(final(r)@) == names_view(old(r)@) + word_of(chars@.subrange(from as int, to as int)),
{
    let word = text_of(chars, from, to);
    let ghost w = word@;
    if word.as_str().as_bytes().len() > 1 {
        r.push(word);
        proof {
            assert(names_view(r@) =~= names_view(old(r)@) + seq![w]);
        }
    } else {
        proof {
            assert(names_view(r@) =~= names_view(old(r)@) + Seq::empty());
        }
    }
}

/// The names in `r`, each once and in order, are those of `s`.
pub open spec fn lists(r: Seq<String>, s: Set<Seq<char>>) -> bool {
    &&& forall|i: int, j: int|
        #![trigger r[i], r[j]]
        0 <= i < j < r.len() ==> key_lt::<String>(r[i]@, r[j]@)
    &&& forall|n: Seq<char>| s.contains(n) <==> names_view(r).contains(n)
}

/// The ids of a set, in order.
pub fn list_ids(ids: &Ids) -> (r: Vec<String>)
    requires
        ids.wf(),
    ensures
        lists(r@, ids@.dom()),
        r@.len() == ids.seq().len(),
{
    let mut r: Vec<String> = Vec::new();
    let mut i: usize = 0;
    while i < ids.len()
        invariant
            ids.wf(),
            i <= ids.seq().len(),
            r@.len() == i,
            forall|k: int| 0 <= k < i ==> #[trigger] r@[k]@ == ids.seq()[k].0,
        decreases ids.seq().len() - i,
    {
        let e = ids.entry(i);
        r.push(e.0.clone());
        i = i + 1;
    }
    proof {
        let s = ids.seq();
        assert forall|a: int, b: int| #![trigger r@[a], r@[b]] 0 <= a < b < r@.len() implies key_lt::<String>(
            r@[a]@,
            r@[b]@,
        ) by {
            assert(r@[a]@ == s[a].0);
            assert(r@[b]@ == s[b].0);
        }
        assert forall|n: Seq<char>| ids@.dom().contains(n) <==> names_view(r@).contains(n) by {
            if ids@.contains_key(n) {
                let k = choose|k: int| 0 <= k < s.len() && #[trigger] s[k].0 == n;
                assert(r@[k]@ == s[k].0);
                assert(names_view(r@)[k] == n);
            }
            if names_view(r@).contains(n) {
                let k = choose|k: int| 0 <= k < r@.len() && names_view(r@)[k] == n;
                assert(r@[k]@ == s[k].0);
                ascending_entry::<String, ()>(s, k);
            }
        }
    }
    r
}

/// The ids that two sets share.
fn intersection(a: &Ids, b: &Ids) -> (r: Ids)
    requires
        a.wf(),
        b.wf(),
    ensures
        r.wf(),
        r@.dom() == a@.dom().intersect(b@.dom()),
{
    let mut r: Ids = SortedMap::new();
    let mut i: usize = 0;
    while i < a.len()
        invariant
            a.wf(),
            b.wf(),
            r.wf(),
            i <= a.seq().len(),
            forall|n: Seq<char>|
                #[trigger] r@.contains_key(n) <==> b@.contains_key(n) && exists|k: int|
                    0 <= k < i && #[trigger] a.seq()[k].0 == n,
        decreases a.seq().len() - i,
    {
        let e = a.entry(i);
        let ghost before = r@;
        let ghost m = e.0@;
        if b.contains(e.0) {
            let was = r.insert(e.0.clone(), ());
        }
        proof {
            assert(a.seq()[i as int].0 == m);
            assert forall|n: Seq<char>| #[trigger] r@.contains_key(n) <==> b@.contains_key(n) && exists|k: int|
                0 <= k < i + 1 && #[trigger] a.seq()[k].0 == n by {
                if r@.contains_key(n) && n != m {
                    assert(before.contains_key(n));
                }
            }
        }
        i = i + 1;
    }
    proof {
        assert forall|n: Seq<char>| r@.dom().contains(n) <==> a@.dom().intersect(b@.dom()).contains(n) by {
            assert(r@.contains_key(n) <==> r@.dom().contains(n));
        }
        assert(r@.dom() =~= a@.dom().intersect(b@.dom()));
    }
    r
}

/// A copy of a set of ids.
fn copy_ids(a: &Ids) -> (r: Ids)
    requires
        a.wf(),
    ensures
        r.wf(),
        r@.dom() == a@.dom(),
{
    let r = intersection(a, a);
    proof {
        assert(a@.dom().intersect(a@.dom()) =~= a@.dom());
    }
    r
}

/// The full-text index: the documents under each word.
pub struct InvertedIndex {
    pub map: Postings<String>,
}

impl Default for InvertedIndex {
    fn default() -> (r: InvertedIndex)
        ensures
            r.wf(),
            forall|w: Seq<char>| #[trigger] r.posting(w) == Set::<Seq<char>>::empty(),
    {
        InvertedIndex { map: Postings::new() }
    }
}

/// The documents that stand under every one of `words`.
pub open spec fn under_all(idx: InvertedIndex, words: Seq<Seq<char>>) -> Set<Seq<char>> {
    Set::new(|id: Seq<char>| forall|i: int| 0 <= i < words.len() ==> idx.posting(#[trigger] words[i]).contains(id))
}

/// The documents that stand under some word that begins with `p`.
pub open spec fn under_prefix(idx: InvertedIndex, p: Seq<char>) -> Set<Seq<char>> {
    Set::new(|id: Seq<char>| exists|w: Seq<char>| p.is_prefix_of(w) && #[trigger] idx.posting(w).contains(id))
}

/// The outcome of a search by prefixes from its `i`th prefix on, `found` being what the
/// prefixes before it share. A prefix that no word has ends the search with nothing;
/// once the prefixes share no document, the search ends with the empty set.
pub open spec fn prefix_outcome(
    idx: InvertedIndex,
    prefixes: Seq<Seq<char>>,
    i: nat,
    found: Set<Seq<char>>,
) -> Option<Set<Seq<char>>>
    decreases prefixes.len() - i,
{
    if i >= prefixes.len() {
        Some(found)
    } else {
        let here = under_prefix(idx, prefixes[i as int]);
        let both = if i == 0 {
            here
        } else {
            found.intersect(here)
        };
        if here == Set::<Seq<char>>::empty() {
            None
        } else if both == Set::<Seq<char>>::empty() {
            Some(both)
        } else {
            prefix_outcome(idx, prefixes, i + 1, both)
        }
    }
}

impl InvertedIndex {
    /// The documents under a word.
    pub open spec fn posting(&self, w: Seq<char>) -> Set<Seq<char>> {
        self.map.posting(w)
    }

    /// The words ascend, and so do the ids under each.
    pub open spec fn wf(&self) -> bool {
        self.map.wf()
    }

    /// Puts a document under each word of its text.
    pub fn insert(&mut self, text: &str, doc_id: String)
        requires
            old(self).wf(),
        ensures
            final(self).wf(),
            with_words(*old(self), *final(self), words(text@), doc_id@),
    {
        let found = tokenize(text);
        self.insert_words(&found, doc_id.as_str());
    }

    /// Puts a document under each of some words.
    pub fn insert_words(&mut self, found: &Vec<String>, doc_id: &str)
        requires
            old(self).wf(),
        ensures
            final(self).wf(),
            with_words(*old(self), *final(self), names_view(found@), doc_id@),
    {
        let ghost ws = names_view(found@);
        let mut i: usize = 0;
        proof {
            assert(forall|w: Seq<char>| !ws.take(0).contains(w));
        }
        while i < found.len()
            invariant
                i <= found@.len(),
                ws == names_view(found@),
                self.wf(),
                forall|w: Seq<char>| #[trigger]
                    self.posting(w) == if ws.take(i as int).contains(w) {
                        old(self).posting(w).insert(doc_id@)
                    } else {
                        old(self).posting(w)
                    },
            decreases found@.len() - i,
        {
            let ghost before = *self;
            self.map.put(found[i].clone(), doc_id);
            proof {
                let word = ws[i as int];
                take_contains(ws, i as int);
                assert forall|w: Seq<char>| #[trigger] self.posting(w) == if ws.take(i + 1).contains(w) {
                    old(self).posting(w).insert(doc_id@)
                } else {
                    old(self).posting(w)
                } by {
                    assert(self.map.posting(w) == if w == word {
                        before.map.posting(w).insert(doc_id@)
                    } else {
                        before.map.posting(w)
                    });
                    assert(before.posting(w) == before.map.posting(w));
                    if w == word && ws.take(i as int).contains(w) {
                        assert(old(self).posting(w).insert(doc_id@).insert(doc_id@) =~= old(self).posting(w).insert(
                            doc_id@,
                        ));
                    }
                }
            }
            i = i + 1;
        }
        proof {
            assert(ws.take(ws.len() as int) =~= ws);
        }
    }

    /// Takes a document out from under each word of its text.
    pub fn remove(&mut self, text: &str, doc_id: &str)
        requires
            old(self).wf(),
        ensures
            final(self).wf(),
            without_words(*old(self), *final(self), words(text@), doc_id@),
    {
        let found = tokenize(text);
        self.remove_words(&found, doc_id);
    }

    /// Takes a document out from under each of some words.
    pub fn remove_words(&mut self, found: &Vec<String>, doc_id: &str)
        requires
            old(self).wf(),
        ensures
            final(self).wf(),
            without_words(*old(self), *final(self), names_view(found@), doc_id@),
    {
        let ghost ws = names_view(found@);
        let mut i: usize = 0;
        proof {
            assert(forall|w: Seq<char>| !ws.take(0).contains(w));
        }
        while i < found.len()
            invariant
                i <= found@.len(),
                ws == names_view(found@),
                self.wf(),
                forall|w: Seq<char>| #[trigger]
                    self.posting(w) == if ws.take(i as int).contains(w) {
                        old(self).posting(w).remove(doc_id@)
                    } else {
                        old(self).posting(w)
                    },
            decreases found@.len() - i,
        {
            let ghost before = *self;
            self.map.drop_id(&found[i], doc_id);
            proof {
                let word = ws[i as int];
                take_contains(ws, i as int);
                assert forall|w: Seq<char>| #[trigger] self.posting(w) == if ws.take(i + 1).contains(w) {
                    old(self).posting(w).remove(doc_id@)
                } else {
                    old(self).posting(w)
                } by {
                    assert(self.map.posting(w) == if w == word {
                        before.map.posting(w).remove(doc_id@)
                    } else {
                        before.map.posting(w)
                    });
                    assert(before.posting(w) == before.map.posting(w));
                    if w == word && ws.take(i as int).contains(w) {
                        assert(old(self).posting(w).remove(doc_id@).remove(doc_id@) =~= old(self).posting(w).remove(
                            doc_id@,
                        ));
                    }
                }
            }
            i = i + 1;
        }
        proof {
            assert(ws.take(ws.len() as int) =~= ws);
        }
    }

    /// The documents that hold every word of the query. Nothing where the query has no
    /// word, or where one of its words stands in no document.
    pub fn search(&self, query_text: &str) -> (r: Option<Vec<String>>)
        requires
            self.wf(),
        ensures
            r is Some <==> words(query_text@).len() > 0 && forall|i: int|
                0 <= i < words(query_text@).len() ==> self.posting(#[trigger] words(query_text@)[i]) != Set::<
                    Seq<char>,
                >::empty(),
            r matches Some(ids) ==> lists(ids@, under_all(*self, words(query_text@))),
    {
        let query = tokenize(query_text);
        self.search_words(&query)
    }

    /// The documents that hold every one of some words.
    pub fn search_words(&self, query: &Vec<String>) -> (r: Option<Vec<String>>)
        requires
            self.wf(),
        ensures
            r is Some <==> query@.len() > 0 && forall|i: int|
                0 <= i < query@.len() ==> self.posting(#[trigger] names_view(query@)[i]) != Set::<Seq<char>>::empty(),
            r matches Some(ids) ==> lists(ids@, under_all(*self, names_view(query@))),
    {
        let ghost ws = names_view(query@);
        if query.len() == 0 {
            return None;
        }
        let mut found: Ids = match self.map.ids(&query[0]) {
            Some(ids) => {
                proof {
                    ids_empty(*ids);
                }
                copy_ids(ids)
            },
            None => {
                proof {
                    assert(self.posting(ws[0]) == Set::<Seq<char>>::empty());
                }
                return None;
            },
        };
        let mut i: usize = 1;
        proof {
            assert(found@.dom() =~= under_all(*self, ws.take(1))) by {
                assert forall|id: Seq<char>| found@.dom().contains(id) <==> under_all(*self, ws.take(1)).contains(id) by {
                    assert(ws.take(1)[0] == ws[0]);
                }
            }
        }
        while i < query.len()
            invariant
                self.wf(),
                found.wf(),
                1 <= i <= query@.len(),
                ws == names_view(query@),
                found@.dom() == under_all(*self, ws.take(i as int)),
                forall|k: int| 0 <= k < i ==> self.posting(#[trigger] ws[k]) != Set::<Seq<char>>::empty(),
            decreases query@.len() - i,
        {
            match self.map.ids(&query[i]) {
                Some(ids) => {
                    proof {
                        ids_empty(*ids);
                    }
                    let both = intersection(&found, ids);
                    proof {
                        assert(both@.dom() =~= under_all(*self, ws.take(i + 1))) by {
                            assert forall|id: Seq<char>| both@.dom().contains(id) <==> under_all(
                                *self,
                                ws.take(i + 1),
                            ).contains(id) by {
                                let t = ws.take(i as int);
                                let u = ws.take(i + 1);
                                if both@.dom().contains(id) {
                                    assert forall|k: int| 0 <= k < u.len() implies self.posting(
                                        #[trigger] u[k],
                                    ).contains(id) by {
                                        if k < i {
                                            assert(u[k] == t[k]);
                                        }
                                    }
                                }
                                if under_all(*self, u).contains(id) {
                                    assert(u[i as int] == ws[i as int]);
                                    assert forall|k: int| 0 <= k < t.len() implies self.posting(
                                        #[trigger] t[k],
                                    ).contains(id) by {
                                        assert(u[k] == t[k]);
                                    }
                                }
                            }
                        }
                    }
                    found = both;
                },
                None => {
                    proof {
                        assert(self.posting(ws[i as int]) == Set::<Seq<char>>::empty());
                    }
                    return None;
                },
            }
            i = i + 1;
        }
        proof {
            assert(ws.take(ws.len() as int) =~= ws);
        }
        Some(list_ids(&found))
    }

    /// The documents that hold, for every word of the query, a word that begins with it.
    /// Nothing where the query has no word, or where a word of it begins no word of the
    /// index; once the words read so far share no document, the empty list.
    pub fn search_prefix(&self, query_text: &str) -> (r: Option<Vec<String>>)
        requires
            self.wf(),
        ensures
            prefix_search(*self, words(query_text@), r),
    {
        let query = tokenize(query_text);
        self.search_prefixes(&query)
    }

    /// The documents that hold, for every one of some prefixes, a word that begins with it.
    pub fn search_prefixes(&self, query: &Vec<String>) -> (r: Option<Vec<String>>)
        requires
            self.wf(),
        ensures
            prefix_search(*self, names_view(query@), r),
    {
        let ghost ps = names_view(query@);
        if query.len() == 0 {
            return None;
        }
        let mut found: Ids = SortedMap::new();
        let mut i: usize = 0;
        while i < query.len()
            invariant
                self.wf(),
                found.wf(),
                i <= query@.len(),
                query@.len() > 0,
                ps == names_view(query@),
                prefix_outcome(*self, ps, 0, Set::empty()) == prefix_outcome(
                    *self,
                    ps,
                    i as nat,
                    if i == 0 {
                        Set::empty()
                    } else {
                        found@.dom()
                    },
                ),
            decreases query@.len() - i,
        {
            let here = self.ids_under_prefix(query[i].as_str());
            proof {
                ids_empty(here);
            }
            if here.len() == 0 {
                return None;
            }
            if i == 0 {
                found = here;
            } else {
                let both = intersection(&found, &here);
                proof {
                    ids_empty(both);
                }
                if both.len() == 0 {
                    return Some(list_ids(&both));
                }
                found = both;
            }
            i = i + 1;
        }
        Some(list_ids(&found))
    }

    /// The documents under every word that begins with `p`.
    fn ids_under_prefix(&self, p: &str) -> (r: Ids)
        requires
            self.wf(),
        ensures
            r.wf(),
            r@.dom() == under_prefix(*self, p@),
    {
        let mut r: Ids = SortedMap::new();
        let mut i: usize = 0;
        let ghost s = self.map.map.seq();
        while i < self.map.map.len()
            invariant
                self.wf(),
                r.wf(),
                s == self.map.map.seq(),
                i <= s.len(),
                forall|id: Seq<char>|
                    #[trigger] r@.contains_key(id) <==> exists|k: int|
                        0 <= k < i && p@.is_prefix_of(#[trigger] s[k].0) && s[k].1@.contains_key(id),
            decreases s.len() - i,
        {
            let e = self.map.map.entry(i);
            let ghost before = r@;
            proof {
                ascending_entry::<String, Ids>(s, i as int);
                assert(self.map.map@.contains_key(s[i as int].0));
            }
            if starts_with(e.0.as_str(), p) {
                add_all(&mut r, e.1);
            }
            proof {
                assert forall|id: Seq<char>| #[trigger] r@.contains_key(id) <==> exists|k: int|
                    0 <= k < i + 1 && p@.is_prefix_of(#[trigger] s[k].0) && s[k].1@.contains_key(id) by {
                    if r@.contains_key(id) && !before.contains_key(id) {
                        assert(p@.is_prefix_of(s[i as int].0) && s[i as int].1@.contains_key(id));
                    }
                    if before.contains_key(id) {
                        let k = choose|k: int|
                            0 <= k < i && p@.is_prefix_of(#[trigger] s[k].0) && s[k].1@.contains_key(id);
                        assert(p@.is_prefix_of(s[k].0));
                    }
                }
            }
            i = i + 1;
        }
        proof {
            assert forall|id: Seq<char>| r@.dom().contains(id) <==> under_prefix(*self, p@).contains(id) by {
                if r@.contains_key(id) {
                    let k = choose|k: int|
                        0 <= k < s.len() && p@.is_prefix_of(#[trigger] s[k].0) && s[k].1@.contains_key(id);
                    ascending_entry::<String, Ids>(s, k);
                    assert(self.posting(s[k].0).contains(id));
                }
                if under_prefix(*self, p@).contains(id) {
                    let w = choose|w: Seq<char>| p@.is_prefix_of(w) && #[trigger] self.posting(w).contains(id);
                    let k = choose|k: int| 0 <= k < s.len() && #[trigger] s[k].0 == w;
                    ascending_entry::<String, Ids>(s, k);
                    assert(r@.contains_key(id));
                }
            }
            assert(r@.dom() =~= under_prefix(*self, p@));
        }
        r
    }
}

/// What a search by prefixes gives.
pub open spec fn prefix_search(idx: InvertedIndex, prefixes: Seq<Seq<char>>, r: Option<Vec<String>>) -> bool {
    if prefixes.len() == 0 {
        r is None
    } else {
        match prefix_outcome(idx, prefixes, 0, Set::empty()) {
            Some(s) => r matches Some(ids) && lists(ids@, s),
            None => r is None,
        }
    }
}

/// Adds every id of `b` to `a`.
fn add_all(a: &mut Ids, b: &Ids)
    requires
        old(a).wf(),
        b.wf(),
    ensures
        final(a).wf(),
        forall|n: Seq<char>| #[trigger] final(a)@.contains_key(n) <==> old(a)@.contains_key(n) || b@.contains_key(n),
{
    let mut i: usize = 0;
    while i < b.len()
        invariant
            a.wf(),
            b.wf(),
            i <= b.seq().len(),
            forall|n: Seq<char>|
                #[trigger] a@.contains_key(n) <==> old(a)@.contains_key(n) || exists|k: int|
                    0 <= k < i && #[trigger] b.seq()[k].0 == n,
        decreases b.seq().len() - i,
    {
        let e = b.entry(i);
        let ghost before = a@;
        let ghost m = e.0@;
        let was = a.insert(e.0.clone(), ());
        proof {
            assert(b.seq()[i as int].0 == m);
            assert forall|n: Seq<char>| #[trigger] a@.contains_key(n) <==> old(a)@.contains_key(n) || exists|k: int|
                0 <= k < i + 1 && #[trigger] b.seq()[k].0 == n by {
                if a@.contains_key(n) && n != m {
                    assert(before.contains_key(n));
                }
                if before.contains_key(n) {
                    assert(a@.contains_key(n));
                }
            }
        }
        i = i + 1;
    }
}

/// Whether `s` begins with `p`.
pub fn starts_with(s: &str, p: &str) -> (r: bool)
    ensures
        r == p@.is_prefix_of(s@),
{
    let a = chars_of(s);
    let b = chars_of(p);
    if b.len() > a.len() {
        return false;
    }
    let mut i: usize = 0;
    while i < b.len()
        invariant
            i <= b@.len() <= a@.len(),
            a@ == s@,
            b@ == p@,
            forall|k: int| 0 <= k < i ==> a@[k] == b@[k],
        decreases b@.len() - i,
    {
        if a[i] != b[i] {
            proof {
                assert(s@.subrange(0, p@.len() as int)[i as int] != p@[i as int]);
            }
            return false;
        }
        i = i + 1;
    }
    proof {
        assert(s@.subrange(0, p@.len() as int) =~= p@);
    }
    true
}

proof fn take_contains(s: Seq<Seq<char>>, i: int)
    requires
        0 <= i < s.len(),
    ensures
        forall|w: Seq<char>| s.take(i + 1).contains(w) <==> s.take(i).contains(w) || w == s[i],
{
    assert(s.take(i + 1) =~= s.take(i).push(s[i]));
    assert forall|w: Seq<char>| s.take(i + 1).contains(w) <==> s.take(i).contains(w) || w == s[i] by {
        let t = s.take(i + 1);
        if t.contains(w) {
            let k = choose|k: int| 0 <= k < t.len() && t[k] == w;
            if k < i {
                assert(s.take(i)[k] == w);
            }
        }
        if s.take(i).contains(w) {
            let k = choose|k: int| 0 <= k < s.take(i).len() && s.take(i)[k] == w;
            assert(t[k] == w);
        }
        if w == s[i] {
            assert(t[i] == w);
        }
    }
}

/// `b` is `a` with `id` put under each of `ws`.
pub open spec fn with_words(a: InvertedIndex, b: InvertedIndex, ws: Seq<Seq<char>>, id: Seq<char>) -> bool {
    forall|w: Seq<char>| #[trigger]
        b.posting(w) == if ws.contains(w) {
            a.posting(w).insert(id)
        } else {
            a.posting(w)
        }
}

/// `b` is `a` with `id` taken out from under each of `ws`.
pub open spec fn without_words(a: InvertedIndex, b: InvertedIndex, ws: Seq<Seq<char>>, id: Seq<char>) -> bool {
    forall|w: Seq<char>| #[trigger]
        b.posting(w) == if ws.contains(w) {
            a.posting(w).remove(id)
        } else {
            a.posting(w)
        }
}

/// Taking a document out undoes putting it in, where it stood under none of its words
/// before.
pub proof fn remove_undoes_insert(
    a: InvertedIndex,
    b: InvertedIndex,
    c: InvertedIndex,
    ws: Seq<Seq<char>>,
    id: Seq<char>,
)
    requires
        with_words(a, b, ws, id),
        without_words(b, c, ws, id),
        forall|w: Seq<char>| ws.contains(w) ==> !(#[trigger] a.posting(w)).contains(id),
    ensures
        forall|w: Seq<char>| #[trigger] c.posting(w) == a.posting(w),
{
    assert forall|w: Seq<char>| #[trigger] c.posting(w) == a.posting(w) by {
        assert(b.posting(w) == if ws.contains(w) {
            a.posting(w).insert(id)
        } else {
            a.posting(w)
        });
        assert(a.posting(w).insert(id).remove(id) =~= a.posting(w).remove(id));
        if ws.contains(w) {
            assert(a.posting(w).remove(id) =~= a.posting(w));
        }
    }
}

/// A document that was put in is found by a search for words of its text.
pub proof fn inserted_is_found(
    a: InvertedIndex,
    b: InvertedIndex,
    ws: Seq<Seq<char>>,
    id: Seq<char>,
    query: Seq<Seq<char>>,
)
    requires
        with_words(a, b, ws, id),
        forall|i: int| 0 <= i < query.len() ==> ws.contains(#[trigger] query[i]),
    ensures
        under_all(b, query).contains(id),
        forall|i: int| 0 <= i < query.len() ==> under_prefix(b, #[trigger] query[i]).contains(id),
{
    assert forall|i: int| 0 <= i < query.len() implies b.posting(#[trigger] query[i]).contains(id) by {
        assert(ws.contains(query[i]));
    }
    assert forall|i: int| 0 <= i < query.len() implies under_prefix(b, #[trigger] query[i]).contains(id) by {
        let w = query[i];
        assert(w.subrange(0, w.len() as int) =~= w);
        assert(w.is_prefix_of(w));
        assert(b.posting(w).contains(id));
    }
}

} // verus!
