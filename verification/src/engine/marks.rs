//! What stays on this device: whole collections, and single documents.
use vstd::prelude::*;
use vstd::string::*;

use crate::document::firelite_doc::{with_field, with_field_holds, Doc, FireLiteDoc};
use crate::document::value::{items_view, parts_view, Val, Value};
use crate::engine::access::{begins, text_begins};
use crate::sorted_map::{ascending_entry, key_lt, key_order_total, SortedMap};
use crate::text::{chars_of, text_of};

verus! {

/// The marks of what stays on this device.
pub struct Marks {
    cols: SortedMap<String, ()>,
    keys: SortedMap<String, ()>,
}

/// The name of a document among all collections.
pub open spec fn slot(collection: Seq<char>, id: Seq<char>) -> Seq<char> {
    collection + "\0"@ + id
}

/// The name of a document among all collections.
pub fn slot_name(collection: &str, id: &str) -> (s: String)
    ensures
        s@ == slot(collection@, id@),
{
    let mut s = collection.to_owned();
    s.append("\0");
    s.append(id);
    s
}

/// The collection that a name of a document begins with: what stands before the first NUL.
pub open spec fn slot_collection(s: Seq<char>) -> Option<Seq<char>>
    decreases s.len(),
{
    if s.len() == 0 {
        None
    } else if s[0] == '\0' {
        Some(Seq::empty())
    } else {
        match slot_collection(s.drop_first()) {
            Some(c) => Some(seq![s[0]] + c),
            None => None,
        }
    }
}

/// Documents of collections without a NUL in their names have different names.
pub proof fn slot_names_differ(c1: Seq<char>, i1: Seq<char>, c2: Seq<char>, i2: Seq<char>)
    requires
        !c1.contains('\0'),
        !c2.contains('\0'),
        slot(c1, i1) == slot(c2, i2),
    ensures
        c1 == c2,
        i1 == i2,
{
    slot_splits(c1, i1);
    slot_splits(c2, i2);
    reveal_strlit("\0");
    assert(slot(c1, i1).skip(c1.len() as int + 1) =~= i1);
    assert(slot(c2, i2).skip(c2.len() as int + 1) =~= i2);
}

/// The name of a document begins with its collection.
pub proof fn slot_splits(c: Seq<char>, id: Seq<char>)
    requires
        !c.contains('\0'),
    ensures
        slot_collection(slot(c, id)) == Some(c),
    decreases c.len(),
{
    reveal_strlit("\0");
    let s = slot(c, id);
    if c.len() == 0 {
        assert(s[0] == '\0');
        assert(c =~= Seq::<char>::empty());
    } else {
        assert(s[0] == c[0]);
        assert(c.contains(c[0]));
        assert(s.drop_first() =~= slot(c.drop_first(), id));
        assert forall|x: char| c.drop_first().contains(x) implies c.contains(x) by {
            let i = choose|i: int| 0 <= i < c.drop_first().len() && c.drop_first()[i] == x;
            assert(c[i + 1] == x);
        }
        slot_splits(c.drop_first(), id);
        assert(seq![c[0]] + c.drop_first() =~= c);
    }
}

/// Whether the name of a document begins with a collection.
fn slot_of_collection(s: &str, collection: &str) -> (r: bool)
    ensures
        r == (slot_collection(s@) == Some(collection@)),
{
    let a = chars_of(s);
    let c = chars_of(collection);
    let mut i: usize = 0;
    proof {
        assert(a@.skip(0) =~= a@);
        assert(c@.skip(0) =~= c@);
    }
    while i < a.len() && i < c.len() && a[i] != '\0' && a[i] == c[i]
        invariant
            i <= a@.len(),
            i <= c@.len(),
            a@ == s@,
            c@ == collection@,
            (slot_collection(s@) == Some(collection@)) == (slot_collection(a@.skip(i as int)) == Some(c@.skip(i as int))),
        decreases a@.len() - i,
    {
        proof {
            let x = a@.skip(i as int);
            let y = c@.skip(i as int);
            assert(x.drop_first() =~= a@.skip(i + 1));
            assert(y.drop_first() =~= c@.skip(i + 1));
            assert(y =~= seq![y[0]] + y.drop_first());
            if let Some(z) = slot_collection(x.drop_first()) {
                assert((seq![x[0]] + z).drop_first() =~= z);
            }
        }
        i = i + 1;
    }
    proof {
        let x = a@.skip(i as int);
        let y = c@.skip(i as int);
        if x.len() > 0 && x[0] == '\0' {
            assert(slot_collection(x) == Some(Seq::<char>::empty()));
            if y.len() == 0 {
                assert(y =~= Seq::<char>::empty());
            } else {
                assert(y != Seq::<char>::empty());
            }
        } else if x.len() > 0 {
            match slot_collection(x.drop_first()) {
                Some(z) => {
                    let w = seq![x[0]] + z;
                    assert(slot_collection(x) == Some(w));
                    assert(w.len() > 0 && w[0] == x[0]);
                    assert(w != y);
                },
                None => {
                    assert(slot_collection(x) is None);
                },
            }
        } else {
            assert(slot_collection(x) is None);
        }
    }
    i == c.len() && i < a.len() && a[i] == '\0'
}

/// What stays on this device.
pub struct Kept {
    pub collections: Set<Seq<char>>,
    pub documents: Set<Seq<char>>,
}

/// Whether a document stays on this device: its collection or itself is marked. The key
/// may stand by itself or behind the name of its collection and a colon.
pub open spec fn stays(m: Kept, collection: Seq<char>, key: Seq<char>) -> bool {
    ||| m.collections.contains(collection)
    ||| m.documents.contains(slot(collection, key))
    ||| begins(key, collection + ":"@) && m.documents.contains(slot(collection, key.skip(collection.len() as int + 1)))
}

/// The marks after a whole collection was let go again.
pub open spec fn released(m: Kept, collection: Seq<char>) -> Kept {
    Kept {
        collections: m.collections.remove(collection),
        documents: m.documents.filter(|s: Seq<char>| slot_collection(s) != Some(collection)),
    }
}

impl View for Marks {
    type V = Kept;

    closed spec fn view(&self) -> Kept {
        Kept { collections: self.cols@.dom(), documents: self.keys@.dom() }
    }
}

impl Marks {
    pub closed spec fn wf(&self) -> bool {
        self.cols.wf() && self.keys.wf()
    }

    /// No marks.
    pub fn new() -> (r: Marks)
        ensures
            r.wf(),
            r@.collections == Set::<Seq<char>>::empty(),
            r@.documents == Set::<Seq<char>>::empty(),
    {
        let r = Marks { cols: SortedMap::new(), keys: SortedMap::new() };
        proof {
            assert(r@.collections =~= Set::<Seq<char>>::empty());
            assert(r@.documents =~= Set::<Seq<char>>::empty());
        }
        r
    }

    /// Whether a document stays on this device.
    pub fn is_local_only(&self, col: &str, key: &str) -> (r: bool)
        requires
            self.wf(),
        ensures
            r == stays(self@, col@, key@),
    {
        if self.cols.contains(&col.to_owned()) {
            return true;
        }
        if self.keys.contains(&slot_name(col, key)) {
            return true;
        }
        let mut marker = col.to_owned();
        marker.append(":");
        proof {
            reveal_strlit(":");
        }
        if text_begins(key, marker.as_str()) {
            let k = chars_of(key);
            let n = chars_of(marker.as_str()).len();
            let id = text_of(&k, n, k.len());
            proof {
                assert(id@ =~= key@.skip(col@.len() as int + 1));
            }
            return self.keys.contains(&slot_name(col, id.as_str()));
        }
        false
    }

    /// Whether a whole collection stays on this device.
    pub fn is_collection_local(&self, col: &str) -> (r: bool)
        requires
            self.wf(),
        ensures
            r == self@.collections.contains(col@),
    {
        self.cols.contains(&col.to_owned())
    }

    /// Marks a whole collection, or takes its mark away.
    pub fn set_collection_local(&mut self, col: &str, local: bool)
        requires
            old(self).wf(),
        ensures
            final(self).wf(),
            final(self)@.collections == (if local {
                old(self)@.collections.insert(col@)
            } else {
                old(self)@.collections.remove(col@)
            }),
            final(self)@.documents == old(self)@.documents,
    {
        let ghost before = self@;
        if local {
            let had = self.cols.insert(col.to_owned(), ());
        } else {
            let had = self.cols.remove(&col.to_owned());
        }
        proof {
            if local {
                assert(self@.collections =~= before.collections.insert(col@));
            } else {
                assert(self@.collections =~= before.collections.remove(col@));
            }
        }
    }

    /// Marks a document.
    pub fn mark(&mut self, col: &str, id: &str)
        requires
            old(self).wf(),
        ensures
            final(self).wf(),
            final(self)@.collections == old(self)@.collections,
            final(self)@.documents == old(self)@.documents.insert(slot(col@, id@)),
    {
        let ghost before = self@;
        let had = self.keys.insert(slot_name(col, id), ());
        proof {
            assert(self@.documents =~= before.documents.insert(slot(col@, id@)));
        }
    }

    /// Takes the mark of a document away.
    pub fn replicate_key(&mut self, col: &str, id: &str)
        requires
            old(self).wf(),
        ensures
            final(self).wf(),
            final(self)@.collections == old(self)@.collections,
            final(self)@.documents == old(self)@.documents.remove(slot(col@, id@)),
    {
        let ghost before = self@;
        let had = self.keys.remove(&slot_name(col, id));
        proof {
            assert(self@.documents =~= before.documents.remove(slot(col@, id@)));
        }
    }

    /// Takes the mark of a whole collection away, and those of its documents.
    pub fn replicate_collection(&mut self, col: &str)
        requires
            old(self).wf(),
        ensures
            final(self).wf(),
            final(self)@ == released(old(self)@, col@),
    {
        let ghost before = self@;
        let had = self.cols.remove(&col.to_owned());
        proof {
            assert(self@.collections =~= before.collections.remove(col@));
        }
        let mut i: usize = 0;
        while i < self.keys.len()
            invariant
                self.wf(),
                i <= self.keys.seq().len(),
                self@.collections == before.collections.remove(col@),
                forall|s: Seq<char>| #[trigger] self.keys@.contains_key(s) ==> before.documents.contains(s),
                forall|s: Seq<char>| #[trigger] before.documents.contains(s) && slot_collection(s) != Some(col@)
                    ==> self.keys@.contains_key(s),
                forall|j: int| 0 <= j < i ==> slot_collection((#[trigger] self.keys.seq()[j]).0) != Some(col@),
            decreases self.keys.seq().len() - i,
        {
            let ghost s = self.keys.seq();
            let ghost m = self.keys@;
            proof {
                ascending_entry::<String, ()>(s, i as int);
            }
            if slot_of_collection(self.keys.entry(i).0.as_str(), col) {
                let gone = self.keys.remove_at(i);
                proof {
                    assert forall|j: int| 0 <= j < i implies slot_collection((#[trigger] self.keys.seq()[j]).0) != Some(
                        col@,
                    ) by {
                        assert(self.keys.seq()[j] == s[j]);
                    }
                }
            } else {
                i = i + 1;
            }
        }
        proof {
            let s = self.keys.seq();
            assert forall|k: Seq<char>| #[trigger] self.keys@.contains_key(k) implies slot_collection(k) != Some(col@) by {
                let j = choose|j: int| 0 <= j < s.len() && #[trigger] s[j].0 == k;
                assert(slot_collection(s[j].0) != Some(col@));
            }
            assert(self@.documents =~= released(before, col@).documents);
        }
    }

    /// The document that keeps the marks: their names under `cols` and `keys`.
    pub fn to_doc(&self) -> (d: FireLiteDoc)
        requires
            self.wf(),
        ensures
            d@.wf(),
            d@ == marks_doc(self.col_list(), self.key_list()),
    {
        let cols = texts_of(&self.cols);
        let keys = texts_of(&self.keys);
        let mut d = FireLiteDoc::default();
        let c = Value::Array(cols);
        let k = Value::Array(keys);
        proof {
            parts_view(c);
            parts_view(k);
        }
        d.insert("cols".to_owned(), c);
        d.insert("keys".to_owned(), k);
        d
    }

    /// The marked collections in order.
    pub closed spec fn col_list(&self) -> Seq<Seq<char>> {
        names_of(self.cols.seq())
    }

    /// The names of the marked documents in order.
    pub closed spec fn key_list(&self) -> Seq<Seq<char>> {
        names_of(self.keys.seq())
    }

    /// The lists of marks hold the marks, each once.
    pub proof fn lists_are_marks(&self)
        requires
            self.wf(),
        ensures
            self.col_list().to_set() == self@.collections,
            self.key_list().to_set() == self@.documents,
            self.col_list().no_duplicates(),
            self.key_list().no_duplicates(),
    {
        names_are_keys(self.cols);
        names_are_keys(self.keys);
    }

    /// Adds the marks that a document keeps.
    pub fn restore(&mut self, doc: &FireLiteDoc)
        requires
            old(self).wf(),
        ensures
            final(self).wf(),
            final(self)@.collections == old(self)@.collections.union(listed(doc@, "cols"@)),
            final(self)@.documents == old(self)@.documents.union(listed(doc@, "keys"@)),
    {
        let ghost before = self@;
        add_listed(&mut self.cols, doc.get("cols"));
        add_listed(&mut self.keys, doc.get("keys"));
        proof {
            assert(self@.collections =~= before.collections.union(listed(doc@, "cols"@)));
            assert(self@.documents =~= before.documents.union(listed(doc@, "keys"@)));
        }
    }
}

/// The names of entries.
pub open spec fn names_of(s: Seq<(Seq<char>, ())>) -> Seq<Seq<char>> {
    Seq::new(s.len(), |i: int| s[i].0)
}

/// The names of entries are the keys of their map.
proof fn names_are_keys(m: SortedMap<String, ()>)
    requires
        m.wf(),
    ensures
        names_of(m.seq()).to_set() == m@.dom(),
        names_of(m.seq()).no_duplicates(),
{
    let s = m.seq();
    let t = names_of(s);
    assert forall|n: Seq<char>| t.to_set().contains(n) <==> m@.dom().contains(n) by {
        if t.contains(n) {
            let k = choose|k: int| 0 <= k < t.len() && t[k] == n;
            ascending_entry::<String, ()>(s, k);
        }
        if m@.contains_key(n) {
            let k = choose|k: int| 0 <= k < s.len() && #[trigger] s[k].0 == n;
            assert(t[k] == n);
        }
    }
    assert(t.to_set() =~= m@.dom());
    assert forall|i: int, j: int| 0 <= i < t.len() && 0 <= j < t.len() && i != j implies t[i] != t[j] by {
        key_order_total::<String>(s[i].0, s[i].0);
        if i < j {
            assert(key_lt::<String>(s[i].0, s[j].0));
        } else {
            assert(key_lt::<String>(s[j].0, s[i].0));
        }
    }
}

/// The document that keeps marks lists exactly these marks: who restores them has them again.
pub proof fn kept_marks_come_back(m: Marks)
    requires
        m.wf(),
    ensures
        listed(marks_doc(m.col_list(), m.key_list()), "cols"@) == m@.collections,
        listed(marks_doc(m.col_list(), m.key_list()), "keys"@) == m@.documents,
{
    let cols = m.col_list();
    let keys = m.key_list();
    let none = Doc { fields: Seq::empty(), time: 0 };
    let one = with_field(none, "cols"@, Val::Array(text_vals(cols)));
    m.lists_are_marks();
    with_field_holds(none, "cols"@, Val::Array(text_vals(cols)));
    with_field_holds(one, "keys"@, Val::Array(text_vals(keys)));
    reveal_strlit("cols");
    reveal_strlit("keys");
    assert("cols"@[0] != "keys"@[0]);
    vals_hold_texts(cols);
    vals_hold_texts(keys);
    assert(listed(marks_doc(cols, keys), "cols"@) =~= m@.collections);
    assert(listed(marks_doc(cols, keys), "keys"@) =~= m@.documents);
}

/// Texts as values are those of the texts.
proof fn vals_hold_texts(names: Seq<Seq<char>>)
    ensures
        forall|s: Seq<char>| #[trigger] text_vals(names).contains(Val::String(s)) <==> names.to_set().contains(s),
{
    let v = text_vals(names);
    assert forall|s: Seq<char>| #[trigger] v.contains(Val::String(s)) <==> names.to_set().contains(s) by {
        if v.contains(Val::String(s)) {
            let i = choose|i: int| 0 <= i < v.len() && v[i] == Val::String(s);
            assert(names[i] == s);
        }
        if names.contains(s) {
            let i = choose|i: int| 0 <= i < names.len() && names[i] == s;
            assert(v[i] == Val::String(s));
        }
    }
}

/// Texts as values.
pub open spec fn text_vals(names: Seq<Seq<char>>) -> Seq<Val> {
    Seq::new(names.len(), |i: int| Val::String(names[i]))
}

/// The document that keeps marks.
pub open spec fn marks_doc(cols: Seq<Seq<char>>, keys: Seq<Seq<char>>) -> Doc {
    with_field(
        with_field(Doc { fields: Seq::empty(), time: 0 }, "cols"@, Val::Array(text_vals(cols))),
        "keys"@,
        Val::Array(text_vals(keys)),
    )
}

/// The texts that a document lists under a key.
pub open spec fn listed(d: Doc, key: Seq<char>) -> Set<Seq<char>> {
    if d.map().contains_key(key) {
        match d.map()[key] {
            Val::Array(items) => Set::new(|s: Seq<char>| items.contains(Val::String(s))),
            _ => Set::empty(),
        }
    } else {
        Set::empty()
    }
}

/// The keys of a map as texts.
fn texts_of(m: &SortedMap<String, ()>) -> (r: Vec<Value>)
    ensures
        items_view(r@) == text_vals(names_of(m.seq())),
{
    let ghost s = m.seq();
    let mut r: Vec<Value> = Vec::new();
    let mut i: usize = 0;
    while i < m.len()
        invariant
            s == m.seq(),
            i <= s.len(),
            r@.len() == i,
            forall|k: int| 0 <= k < i ==> (#[trigger] r@[k])@ == Val::String(s[k].0),
        decreases s.len() - i,
    {
        let v = Value::String(m.entry(i).0.clone());
        proof {
            parts_view(v);
        }
        r.push(v);
        i = i + 1;
    }
    proof {
        assert(items_view(r@) =~= text_vals(names_of(s)));
    }
    r
}

/// Adds the texts of a list to a map.
fn add_listed(m: &mut SortedMap<String, ()>, list: Option<&Value>)
    requires
        old(m).wf(),
    ensures
        final(m).wf(),
        forall|s: Seq<char>| #[trigger] final(m)@.contains_key(s) <==> old(m)@.contains_key(s) || (match list {
            Some(v) => v@ matches Val::Array(items) && items.contains(Val::String(s)),
            None => false,
        }),
{
    if let Some(v) = list {
        proof {
            parts_view(*v);
        }
        if let Value::Array(items) = v {
            let ghost all = items_view(items@);
            let mut i: usize = 0;
            while i < items.len()
                invariant
                    m.wf(),
                    all == items_view(items@),
                    i <= items@.len(),
                    forall|s: Seq<char>| #[trigger] m@.contains_key(s) <==> old(m)@.contains_key(s) || all.take(
                        i as int,
                    ).contains(Val::String(s)),
                decreases items@.len() - i,
            {
                proof {
                    parts_view(items@[i as int]);
                    assert(all.take(i + 1) =~= all.take(i as int).push(items@[i as int]@));
                    assert(all.take(i + 1)[i as int] == items@[i as int]@);
                    assert forall|s: Seq<char>| all.take(i + 1).contains(Val::String(s)) <==> all.take(i as int).contains(
                        Val::String(s),
                    ) || items@[i as int]@ == Val::String(s) by {
                        if all.take(i as int).contains(Val::String(s)) {
                            let j = choose|j: int| 0 <= j < i && all.take(i as int)[j] == Val::String(s);
                            assert(all.take(i + 1)[j] == Val::String(s));
                        }
                    }
                }
                if let Value::String(s) = &items[i] {
                    let had = m.insert(s.clone(), ());
                }
                i = i + 1;
            }
            proof {
                assert(all.take(i as int) =~= all);
            }
        }
    }
}

/// A document that was marked stays until its mark, or that of its whole collection, is
/// taken away.
pub proof fn marked_stays(m: Kept, collection: Seq<char>, id: Seq<char>)
    ensures
        m.documents.contains(slot(collection, id)) ==> stays(m, collection, id),
        m.documents.contains(slot(collection, id)) ==> stays(m, collection, collection + ":"@ + id),
        m.collections.contains(collection) ==> stays(m, collection, id),
{
    reveal_strlit(":");
    let key = collection + ":"@ + id;
    assert(key.take((collection + ":"@).len() as int) =~= collection + ":"@);
    assert(key.skip(collection.len() as int + 1) =~= id);
}

/// Letting a collection go lets go of each of its documents, and of no others.
pub proof fn release_is_exact(m: Kept, collection: Seq<char>, other: Seq<char>, id: Seq<char>)
    requires
        !collection.contains('\0'),
        !other.contains('\0'),
    ensures
        !stays(released(m, collection), collection, id),
        other != collection ==> stays(released(m, collection), other, id) == stays(m, other, id),
{
    slot_splits(collection, id);
    slot_splits(other, id);
    slot_splits(collection, id.skip(collection.len() as int + 1));
    slot_splits(other, id.skip(other.len() as int + 1));
}

} // verus!
