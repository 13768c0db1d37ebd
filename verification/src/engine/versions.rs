//! The version of each document, by which a transaction sees that what it read has
//! changed.
use vstd::prelude::*;
use vstd::wrapping::u64_specs::wrapping_add;

use crate::sorted_map::SortedMap;

verus! {

/// The versions of documents by their ids, and the version of the next change.
pub struct Versions {
    map: SortedMap<String, u64>,
    next: u64,
}

/// What versions stand for.
#[verifier::ext_equal]
pub struct Clock {
    pub of: Map<Seq<char>, u64>,
    pub next: u64,
}

impl View for Versions {
    type V = Clock;

    closed spec fn view(&self) -> Clock {
        Clock { of: self.map@, next: self.next }
    }
}

/// The version of a document, if it has one.
pub open spec fn version_of(c: Clock, key: Seq<char>) -> Option<u64> {
    if c.of.contains_key(key) {
        Some(c.of[key])
    } else {
        None
    }
}

/// The versions after changes of documents, one after the other.
pub open spec fn bumped(c: Clock, keys: Seq<Seq<char>>) -> Clock
    decreases keys.len(),
{
    if keys.len() == 0 {
        c
    } else {
        let b = bumped(c, keys.drop_last());
        Clock { of: b.of.insert(keys.last(), b.next), next: wrapping_add(b.next, 1) }
    }
}

/// Every version is below that of the next change.
pub open spec fn clock_wf(c: Clock) -> bool {
    forall|k: Seq<char>| #[trigger] c.of.contains_key(k) ==> c.of[k] < c.next
}

/// A changed document has a later version than anything had before; other documents keep
/// theirs.
pub proof fn change_is_seen(c: Clock, keys: Seq<Seq<char>>, k: Seq<char>)
    requires
        clock_wf(c),
        c.next + keys.len() <= u64::MAX,
    ensures
        clock_wf(bumped(c, keys)),
        bumped(c, keys).next == c.next + keys.len(),
        keys.contains(k) ==> bumped(c, keys).of.contains_key(k) && bumped(c, keys).of[k] >= c.next,
        !keys.contains(k) ==> version_of(bumped(c, keys), k) == version_of(c, k),
    decreases keys.len(),
{
    if keys.len() > 0 {
        let pre = keys.drop_last();
        change_is_seen(c, pre, k);
        assert(keys =~= pre.push(keys.last()));
        if pre.contains(k) {
            let i = choose|i: int| 0 <= i < pre.len() && pre[i] == k;
            assert(keys[i] == k);
        }
        if keys.contains(k) && k != keys.last() {
            let i = choose|i: int| 0 <= i < keys.len() && keys[i] == k;
            assert(pre[i] == k);
        }
        assert(keys[keys.len() - 1] == keys.last());
    }
}

impl Versions {
    pub closed spec fn wf(&self) -> bool {
        self.map.wf()
    }

    /// No versions yet.
    pub fn new() -> (r: Versions)
        ensures
            r.wf(),
            r@ == (Clock { of: Map::<Seq<char>, u64>::empty(), next: 1 }),
    {
        Versions { map: SortedMap::new(), next: 1 }
    }

    /// The version of a document.
    pub fn current_version(&self, key: &String) -> (r: Option<u64>)
        requires
            self.wf(),
        ensures
            r == version_of(self@, key@),
    {
        match self.map.get(key) {
            Some(v) => Some(*v),
            None => None,
        }
    }

    /// Takes note of a change of a document.
    pub fn bump(&mut self, key: String)
        requires
            old(self).wf(),
        ensures
            final(self).wf(),
            final(self)@ == bumped(old(self)@, seq![key@]),
    {
        let ghost c = self@;
        let ghost k = key@;
        let had = self.map.insert(key, self.next);
        self.next = self.next.wrapping_add(1);
        proof {
            reveal_with_fuel(bumped, 2);
            assert(seq![k].drop_last() =~= Seq::<Seq<char>>::empty());
        }
    }
}

/// Changes after changes are changes one after the other.
pub proof fn bumped_again(c: Clock, a: Seq<Seq<char>>, b: Seq<Seq<char>>)
    ensures
        bumped(bumped(c, a), b) == bumped(c, a + b),
    decreases b.len(),
{
    if b.len() == 0 {
        assert(a + b =~= a);
    } else {
        bumped_again(c, a, b.drop_last());
        assert((a + b).drop_last() =~= a + b.drop_last());
    }
}

} // verus!
