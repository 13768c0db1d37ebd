//! Tables of named things: the things in the order in which they came, and a hash map
//! that tells where each name stands.
use vstd::prelude::*;

verus! {

/// A `hashbrown::HashMap` from names to places.
#[verifier::external_body]
pub struct Places {
    map: hashbrown::HashMap<std::string::String, usize>,
}

/// What a directory holds: the place of each name.
pub uninterp spec fn places_map(p: Places) -> Map<Seq<char>, usize>;

/// `hashbrown::HashMap::new`: a map that holds nothing.
#[verifier::external_body]
fn places_new() -> (p: Places)
    ensures
        places_map(p).dom() == Set::<Seq<char>>::empty(),
{
    Places { map: hashbrown::HashMap::new() }
}

/// `hashbrown::HashMap::get`: the value under a key. Two strings are the same key when
/// they hold the same characters.
#[verifier::external_body]
fn places_get(p: &Places, name: &str) -> (r: Option<usize>)
    ensures
        match r {
            Some(i) => places_map(*p).contains_key(name@) && places_map(*p)[name@] == i,
            None => !places_map(*p).contains_key(name@),
        },
{
    p.map.get(name).copied()
}

/// `hashbrown::HashMap::insert`: puts a value under a key, in place of what stood there.
#[verifier::external_body]
fn places_insert(p: &mut Places, name: std::string::String, place: usize)
    ensures
        places_map(*final(p)) == places_map(*old(p)).insert(name@, place),
{
    p.map.insert(name, place);
}

/// `hashbrown::HashMap::remove`: takes a key out, with what stood under it.
#[verifier::external_body]
fn places_remove(p: &mut Places, name: &str)
    ensures
        places_map(*final(p)) == places_map(*old(p)).remove(name@),
{
    p.map.remove(name);
}

/// A table of named things. Each name stands once, in the order in which it came.
pub struct NameTable<T> {
    rows: Vec<(String, T)>,
    places: Places,
}

impl<T> View for NameTable<T> {
    type V = Map<Seq<char>, T>;

    open spec fn view(&self) -> Map<Seq<char>, T> {
        Map::new(|n: Seq<char>| self.has(n), |n: Seq<char>| self.rows()[self.place(n)].1)
    }
}

impl<T> NameTable<T> {
    /// The rows in order.
    pub closed spec fn rows(&self) -> Seq<(Seq<char>, T)> {
        Seq::new(self.rows@.len(), |i: int| (self.rows@[i].0@, self.rows@[i].1))
    }

    /// The directory gives the place of every name, and of no other.
    pub closed spec fn wf(&self) -> bool {
        let m = places_map(self.places);
        &&& forall|i: int| 0 <= i < self.rows@.len() ==> m.contains_key(#[trigger] self.rows@[i].0@)
        &&& forall|i: int| 0 <= i < self.rows@.len() ==> m[#[trigger] self.rows@[i].0@] == i
        &&& forall|k: Seq<char>| #[trigger] m.contains_key(k) ==> m[k] < self.rows@.len() && self.rows@[m[k] as int].0@ == k
    }

    /// Where a name stands.
    pub closed spec fn place(&self, name: Seq<char>) -> int {
        places_map(self.places)[name] as int
    }

    /// Whether a name stands in the table.
    pub closed spec fn has(&self, name: Seq<char>) -> bool {
        places_map(self.places).contains_key(name)
    }

    /// A name stands where its row is, and no row has the name of another.
    pub proof fn place_facts(&self)
        requires
            self.wf(),
        ensures
            forall|name: Seq<char>| #[trigger]
                self.has(name) ==> 0 <= self.place(name) < self.rows().len() && self.rows()[self.place(name)].0 == name,
            forall|i: int| 0 <= i < self.rows().len() ==> self.has(#[trigger] self.rows()[i].0),
            forall|i: int| 0 <= i < self.rows().len() ==> self.place(#[trigger] self.rows()[i].0) == i,
    {
    }

    /// A table with no rows.
    pub fn new() -> (r: NameTable<T>)
        ensures
            r.wf(),
            r.rows() == Seq::<(Seq<char>, T)>::empty(),
            r@ == Map::<Seq<char>, T>::empty(),
    {
        let r = NameTable { rows: Vec::new(), places: places_new() };
        proof {
            assert(r@ =~= Map::<Seq<char>, T>::empty());
            assert(r.rows() =~= Seq::<(Seq<char>, T)>::empty());
        }
        r
    }

    /// The number of rows.
    pub fn len(&self) -> (n: usize)
        ensures
            n == self.rows().len(),
    {
        self.rows.len()
    }

    /// Where a name stands, if it does.
    pub fn find(&self, name: &str) -> (r: Option<usize>)
        requires
            self.wf(),
        ensures
            match r {
                Some(i) => self.has(name@) && self.place(name@) == i && i < self.rows().len() && self.rows()[i as int].0 == name@,
                None => !self.has(name@),
            },
    {
        places_get(&self.places, name)
    }

    /// The name at place `i`.
    pub fn name(&self, i: usize) -> (s: &String)
        requires
            i < self.rows().len(),
        ensures
            s@ == self.rows()[i as int].0,
    {
        &self.rows[i].0
    }

    /// The thing at place `i`.
    pub fn thing(&self, i: usize) -> (t: &T)
        requires
            i < self.rows().len(),
        ensures
            *t == self.rows()[i as int].1,
    {
        &self.rows[i].1
    }

    /// Puts another thing at place `i`, and hands back the one that stood there.
    pub fn swap(&mut self, i: usize, t: T) -> (r: T)
        requires
            old(self).wf(),
            i < old(self).rows().len(),
        ensures
            final(self).wf(),
            final(self).rows() == old(self).rows().update(i as int, (old(self).rows()[i as int].0, t)),
            forall|name: Seq<char>| #[trigger] final(self).has(name) == old(self).has(name),
            forall|name: Seq<char>| #[trigger] final(self).place(name) == old(self).place(name),
            final(self)@ == old(self)@.insert(old(self).rows()[i as int].0, t),
            r == old(self).rows()[i as int].1,
    {
        let mut x = t;
        std::mem::swap(&mut self.rows[i].1, &mut x);
        proof {
            assert(self.rows() =~= old(self).rows().update(i as int, (old(self).rows()[i as int].0, t)));
            self.place_facts();
            old(self).place_facts();
            assert(self@ =~= old(self)@.insert(old(self).rows()[i as int].0, t));
        }
        x
    }

    /// Takes the last row out.
    pub fn pop(&mut self) -> (r: (String, T))
        requires
            old(self).wf(),
            old(self).rows().len() > 0,
        ensures
            final(self).wf(),
            final(self).rows() == old(self).rows().drop_last(),
            r.0@ == old(self).rows().last().0,
            r.1 == old(self).rows().last().1,
            final(self)@ == old(self)@.remove(r.0@),
            old(self)@.contains_key(r.0@),
            old(self)@[r.0@] == r.1,
    {
        let at: usize = self.rows.len() - 1;
        let row = self.rows.remove(at);
        places_remove(&mut self.places, row.0.as_str());
        proof {
            let m = places_map(self.places);
            let before = places_map(old(self).places);
            assert(old(self).rows@[at as int].0@ == row.0@);
            assert(self.rows() =~= old(self).rows().drop_last());
            assert forall|i: int| 0 <= i < self.rows@.len() implies m.contains_key(#[trigger] self.rows@[i].0@)
                && m[self.rows@[i].0@] == i by {
                assert(self.rows@[i] == old(self).rows@[i]);
                assert(before[old(self).rows@[i].0@] == i);
                assert(before[row.0@] == at);
            }
            assert forall|k: Seq<char>| #[trigger] m.contains_key(k) implies m[k] < self.rows@.len()
                && self.rows@[m[k] as int].0@ == k by {
                assert(before.contains_key(k));
            }
            old(self).place_facts();
            assert(self@ =~= old(self)@.remove(row.0@));
        }
        row
    }

    /// Appends a row for a name that has none yet.
    pub fn push(&mut self, name: String, t: T)
        requires
            old(self).wf(),
            !old(self).has(name@),
        ensures
            final(self).wf(),
            final(self).rows() == old(self).rows().push((name@, t)),
            forall|n: Seq<char>| #[trigger] final(self).has(n) == (old(self).has(n) || n == name@),
            final(self).place(name@) == old(self).rows().len(),
            forall|n: Seq<char>| n != name@ ==> #[trigger] final(self).place(n) == old(self).place(n),
            final(self)@ == old(self)@.insert(name@, t),
    {
        let ghost n = name@;
        let place: usize = self.rows.len();
        places_insert(&mut self.places, name.clone(), place);
        self.rows.push((name, t));
        proof {
            assert(self.rows() =~= old(self).rows().push((n, t)));
            let m = places_map(self.places);
            let before = places_map(old(self).places);
            assert forall|i: int| 0 <= i < self.rows@.len() implies m.contains_key(#[trigger] self.rows@[i].0@)
                && m[self.rows@[i].0@] == i by {
                if i < old(self).rows@.len() {
                    assert(before.contains_key(old(self).rows@[i].0@));
                    assert(old(self).rows@[i].0@ != n);
                }
            }
            assert forall|k: Seq<char>| #[trigger] m.contains_key(k) implies m[k] < self.rows@.len()
                && self.rows@[m[k] as int].0@ == k by {
                if k != n {
                    assert(before.contains_key(k));
                }
            }
            old(self).place_facts();
            assert(self@ =~= old(self)@.insert(n, t));
        }
    }
}

} // verus!
