//! Which documents stand under which key.
use vstd::prelude::*;

use crate::document::firelite_doc::names_view;
use crate::sorted_map::{ascending_entry, Key, SortedMap};

verus! {

/// A set of document ids.
pub type Ids = SortedMap<String, ()>;

/// The ids of a set, in order.
pub open spec fn ids_seq(ids: Ids) -> Seq<Seq<char>> {
    Seq::new(ids.seq().len(), |i: int| ids.seq()[i].0)
}


/// Keys with the ids under them, as they are saved.
pub open spec fn entry_rows<K: Key>(rows: Seq<(K, Vec<String>)>) -> Seq<(K::Model, Seq<Seq<char>>)> {
    Seq::new(rows.len(), |i: int| (rows[i].0.model(), names_view(rows[i].1@)))
}

/// What the last row with a name holds.
pub open spec fn last_row<N, V>(rows: Seq<(N, V)>, name: N) -> Option<V>
    decreases rows.len(),
{
    if rows.len() == 0 {
        None
    } else if rows.last().0 == name {
        Some(rows.last().1)
    } else {
        last_row(rows.drop_last(), name)
    }
}

/// The ids in the last row with a key.
pub open spec fn last_ids<N>(rows: Seq<(N, Seq<Seq<char>>)>, key: N) -> Set<Seq<char>> {
    match last_row(rows, key) {
        Some(ids) => ids.to_set(),
        None => Set::empty(),
    }
}

/// Where no two rows have the same name, each is the last with its own.
pub proof fn row_is_last<N, V>(rows: Seq<(N, V)>, i: int)
    requires
        0 <= i < rows.len(),
        forall|j: int| i < j < rows.len() ==> (#[trigger] rows[j]).0 != rows[i].0,
    ensures
        last_row(rows, rows[i].0) == Some(rows[i].1),
    decreases rows.len(),
{
    if i < rows.len() - 1 {
        assert(rows.last() == rows[rows.len() - 1]);
        assert(rows.drop_last()[i] == rows[i]);
        assert forall|j: int| i < j < rows.drop_last().len() implies (#[trigger] rows.drop_last()[j]).0 != rows[i].0 by {
            assert(rows.drop_last()[j] == rows[j]);
        }
        row_is_last(rows.drop_last(), i);
    }
}

/// A name that no row has has no last row.
pub proof fn no_row_is_last<N, V>(rows: Seq<(N, V)>, name: N)
    requires
        forall|j: int| 0 <= j < rows.len() ==> (#[trigger] rows[j]).0 != name,
    ensures
        last_row(rows, name) is None,
    decreases rows.len(),
{
    if rows.len() > 0 {
        assert(rows.last() == rows[rows.len() - 1]);
        assert forall|j: int| 0 <= j < rows.drop_last().len() implies (#[trigger] rows.drop_last()[j]).0 != name by {
            assert(rows.drop_last()[j] == rows[j]);
        }
        no_row_is_last(rows.drop_last(), name);
    }
}

/// The ids that stand under each key. A key under which none stands is not held.
pub struct Postings<K: Key> {
    pub map: SortedMap<K, Ids>,
}

impl<K: Key> Postings<K> {
    /// The ids under a key.
    pub open spec fn posting(&self, k: K::Model) -> Set<Seq<char>> {
        if self.map@.contains_key(k) {
            self.map@[k]@.dom()
        } else {
            Set::empty()
        }
    }

    /// The keys ascend, and so do the ids under each; none of the sets is empty.
    pub open spec fn wf(&self) -> bool {
        &&& self.map.wf()
        &&& forall|k: K::Model| #[trigger] self.map@.contains_key(k) ==> self.map@[k].wf() && self.map@[k].seq().len() > 0
    }

    /// No ids under any key.
    pub fn new() -> (r: Postings<K>)
        ensures
            r.wf(),
            forall|k: K::Model| #[trigger] r.posting(k) == Set::<Seq<char>>::empty(),
    {
        Postings { map: SortedMap::new() }
    }

    /// Puts `id` under `k`.
    pub fn put(&mut self, k: K, id: &str)
        requires
            old(self).wf(),
        ensures
            final(self).wf(),
            final(self).posting(k.model()) == old(self).posting(k.model()).insert(id@),
            forall|j: K::Model| j != k.model() ==> #[trigger] final(self).posting(j) == old(self).posting(j),
    {
        let ghost m = k.model();
        let mut ids: Ids = match self.map.remove(&k) {
            Some(ids) => ids,
            None => SortedMap::new(),
        };
        let ghost before = ids@;
        proof {
            assert(before.dom() =~= old(self).posting(m));
        }
        let was = ids.insert(id.to_owned(), ());
        proof {
            holds_some(ids, id@);
            assert(ids@.dom() =~= before.dom().insert(id@));
        }
        let gone = self.map.insert(k, ids);
        proof {
            assert forall|j: K::Model| j != m implies #[trigger] self.posting(j) == old(self).posting(j) by {}
        }
    }

    /// Takes `id` out from under `k`.
    pub fn drop_id(&mut self, k: &K, id: &str)
        requires
            old(self).wf(),
        ensures
            final(self).wf(),
            final(self).posting(k.model()) == old(self).posting(k.model()).remove(id@),
            forall|j: K::Model| j != k.model() ==> #[trigger] final(self).posting(j) == old(self).posting(j),
    {
        let ghost m = k.model();
        match self.map.remove(k) {
            Some(mut ids) => {
                let ghost before = ids@;
                let was = ids.remove(&id.to_owned());
                proof {
                    assert(ids@.dom() =~= before.dom().remove(id@));
                }
                if ids.len() > 0 {
                    let gone = self.map.insert(k.copy(), ids);
                } else {
                    proof {
                        assert(ids@.dom() =~= Set::empty());
                    }
                }
            },
            None => {
                proof {
                    assert(self.posting(m) =~= old(self).posting(m).remove(id@));
                }
            },
        }
    }

    /// The ids under `k`.
    pub fn ids(&self, k: &K) -> (r: Option<&Ids>)
        requires
            self.wf(),
        ensures
            match r {
                Some(ids) => ids.wf() && ids@.dom() == self.posting(k.model()) && ids.seq().len() > 0,
                None => self.posting(k.model()) == Set::<Seq<char>>::empty(),
            },
    {
        self.map.get(k)
    }
}

impl<K: Key> Postings<K> {
    /// The keys in order with the ids under them, as they are saved.
    pub open spec fn saved(&self) -> Seq<(K::Model, Seq<Seq<char>>)> {
        Seq::new(self.map.seq().len(), |i: int| (self.map.seq()[i].0, ids_seq(self.map.seq()[i].1)))
    }

    /// The keys in order with the ids under them, to be saved.
    pub fn save(&self) -> (r: Vec<(K, Vec<String>)>)
        ensures
            entry_rows(r@) == self.saved(),
    {
        let mut r: Vec<(K, Vec<String>)> = Vec::new();
        let mut i: usize = 0;
        while i < self.map.len()
            invariant
                i <= self.map.seq().len(),
                r@.len() == i,
                forall|k: int|
                    0 <= k < i ==> (#[trigger] r@[k]).0.model() == self.map.seq()[k].0 && names_view(r@[k].1@) == ids_seq(
                        self.map.seq()[k].1,
                    ),
            decreases self.map.seq().len() - i,
        {
            let e = self.map.entry(i);
            let mut ids: Vec<String> = Vec::new();
            push_ids(&mut ids, e.1);
            proof {
                assert(names_view(Seq::<String>::empty()) + ids_seq(*e.1) =~= ids_seq(*e.1));
            }
            r.push((e.0.copy(), ids));
            i = i + 1;
        }
        proof {
            assert(entry_rows(r@) =~= self.saved());
        }
        r
    }

    /// The postings of what was saved. Of two rows with the same key the later counts.
    pub fn restore(rows: &Vec<(K, Vec<String>)>) -> (r: Postings<K>)
        ensures
            r.wf(),
            forall|k: K::Model| #[trigger] r.posting(k) == last_ids(entry_rows(rows@), k),
    {
        let ghost m = entry_rows(rows@);
        let mut r: Postings<K> = Postings::new();
        let mut i: usize = 0;
        proof {
            assert(m.take(0) =~= Seq::empty());
        }
        while i < rows.len()
            invariant
                r.wf(),
                m == entry_rows(rows@),
                i <= rows@.len(),
                forall|k: K::Model| #[trigger] r.posting(k) == last_ids(m.take(i as int), k),
            decreases rows@.len() - i,
        {
            let ghost before = r;
            let ids = id_set(&rows[i].1);
            let ghost set = ids@.dom();
            proof {
                ids_empty(ids);
                assert(m.take(i + 1).drop_last() =~= m.take(i as int));
                assert(m.take(i + 1).last() == m[i as int]);
            }
            if ids.len() > 0 {
                let gone = r.map.insert(rows[i].0.copy(), ids);
            } else {
                let gone = r.map.remove(&rows[i].0);
            }
            proof {
                assert forall|k: K::Model| #[trigger] r.posting(k) == last_ids(m.take(i + 1), k) by {
                    assert(before.posting(k) == last_ids(m.take(i as int), k));
                    if k == rows@[i as int].0.model() {
                        assert(r.posting(k) =~= set);
                    } else {
                        assert(r.posting(k) == before.posting(k));
                    }
                }
            }
            i = i + 1;
        }
        proof {
            assert(m.take(m.len() as int) =~= m);
        }
        r
    }

    /// What is saved tells which ids stand under a key.
    pub proof fn saved_holds(&self, k: K::Model)
        requires
            self.wf(),
        ensures
            last_ids(self.saved(), k) == self.posting(k),
    {
        let s = self.map.seq();
        if self.map@.contains_key(k) {
            let i = choose|i: int| 0 <= i < s.len() && #[trigger] s[i].0 == k;
            ascending_entry::<K, Ids>(s, i);
            assert forall|j: int| i < j < self.saved().len() implies (#[trigger] self.saved()[j]).0 != self.saved()[i].0 by {
                ascending_entry::<K, Ids>(s, j);
                crate::sorted_map::key_order_total::<K>(s[i].0, s[j].0);
            }
            row_is_last(self.saved(), i);
            ids_are_keys(s[i].1);
        } else {
            no_row_is_last(self.saved(), k);
        }
    }
}

/// The ids of a set in order are those that it holds.
proof fn ids_are_keys(ids: Ids)
    requires
        ids.wf(),
    ensures
        ids_seq(ids).to_set() == ids@.dom(),
{
    let s = ids.seq();
    assert forall|n: Seq<char>| ids_seq(ids).to_set().contains(n) <==> ids@.dom().contains(n) by {
        if ids_seq(ids).contains(n) {
            let i = choose|i: int| 0 <= i < s.len() && ids_seq(ids)[i] == n;
            assert(s[i].0 == n);
            ascending_entry::<String, ()>(s, i);
        }
        if ids@.contains_key(n) {
            let i = choose|i: int| 0 <= i < s.len() && #[trigger] s[i].0 == n;
            assert(ids_seq(ids)[i] == n);
        }
    }
    assert(ids_seq(ids).to_set() =~= ids@.dom());
}

/// The set of ids of a list.
fn id_set(list: &Vec<String>) -> (r: Ids)
    ensures
        r.wf(),
        r@.dom() == names_view(list@).to_set(),
{
    let ghost m = names_view(list@);
    let mut r: Ids = SortedMap::new();
    let mut i: usize = 0;
    proof {
        assert(m.take(0).to_set() =~= Set::empty());
        assert(r@.dom() =~= Set::empty());
    }
    while i < list.len()
        invariant
            r.wf(),
            m == names_view(list@),
            i <= list@.len(),
            r@.dom() == m.take(i as int).to_set(),
        decreases list@.len() - i,
    {
        let was = r.insert(list[i].clone(), ());
        proof {
            let a = m.take(i as int);
            assert(m.take(i + 1) =~= a.push(m[i as int]));
            assert forall|n: Seq<char>| a.push(m[i as int]).contains(n) <==> a.contains(n) || n == m[i as int] by {
                if a.contains(n) {
                    let k = choose|k: int| 0 <= k < a.len() && a[k] == n;
                    assert(a.push(m[i as int])[k] == n);
                }
                if n == m[i as int] {
                    assert(a.push(m[i as int])[i as int] == n);
                }
            }
            assert(r@.dom() =~= m.take(i + 1).to_set());
        }
        i = i + 1;
    }
    proof {
        assert(m.take(m.len() as int) =~= m);
    }
    r
}

/// Appends the ids of a set, in order.
pub fn push_ids(r: &mut Vec<String>, ids: &Ids)
    ensures
        names_view(final(r)@) == names_view(old(r)@)
            + ids_seq(*ids),
{
    let ghost before = names_view(r@);
    let mut i: usize = 0;
    proof {
        assert(ids_seq(*ids).take(0) =~= Seq::empty());
        assert(before + Seq::<Seq<char>>::empty() =~= before);
    }
    while i < ids.len()
        invariant
            i <= ids.seq().len(),
            names_view(r@) == before + ids_seq(*ids).take(i as int),
        decreases ids.seq().len() - i,
    {
        let e = ids.entry(i);
        let ghost was = r@;
        r.push(e.0.clone());
        proof {
            assert(ids_seq(*ids).take(i + 1) =~= ids_seq(*ids).take(i as int).push(e.0@));
            assert(names_view(r@) =~= names_view(was).push(
                e.0@,
            ));
            assert(names_view(r@) =~= before + ids_seq(*ids).take(i + 1));
        }
        i = i + 1;
    }
    proof {
        assert(ids_seq(*ids).take(ids.seq().len() as int) =~= ids_seq(*ids));
    }
}

/// A map with an entry has a first one.
proof fn holds_some(ids: Ids, id: Seq<char>)
    requires
        ids@.contains_key(id),
    ensures
        ids.seq().len() > 0,
{
}

/// A set of ids that holds one is not empty, and one that holds none is.
pub proof fn ids_empty(ids: Ids)
    requires
        ids.wf(),
    ensures
        ids.seq().len() > 0 <==> ids@.dom() != Set::<Seq<char>>::empty(),
{
    if ids.seq().len() > 0 {
        crate::sorted_map::ascending_entry::<String, ()>(ids.seq(), 0);
        assert(ids@.dom().contains(ids.seq()[0].0));
    } else {
        assert(ids@.dom() =~= Set::empty());
    }
}

} // verus!
