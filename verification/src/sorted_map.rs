//! A map held as a sorted vector, and the keys that it takes.
use vstd::prelude::*;

use crate::order::{byte_codes, char_codes, compare_bytes, int_order, lex, lex_equal, lex_flip, lex_trans, Order};
use crate::text::compare_text;

verus! {

/// What a sorted map can be keyed by: values with a model, ordered by codes of it.
pub trait Key: Sized {
    /// What the key stands for.
    type Model;

    spec fn model(&self) -> Self::Model;

    spec fn codes(m: Self::Model) -> Seq<int>;

    /// Keys with the same codes stand for the same.
    proof fn codes_injective(a: Self::Model, b: Self::Model)
        requires
            Self::codes(a) == Self::codes(b),
        ensures
            a == b,
    ;

    /// How two keys compare.
    fn compare(&self, other: &Self) -> (o: Order)
        ensures
            o == lex(Self::codes(self.model()), Self::codes(other.model())),
    ;

    /// Another key that stands for the same.
    fn copy(&self) -> (r: Self)
        ensures
            r.model() == self.model(),
    ;
}

impl Key for String {
    type Model = Seq<char>;

    open spec fn model(&self) -> Seq<char> {
        self@
    }

    open spec fn codes(m: Seq<char>) -> Seq<int> {
        char_codes(m)
    }

    proof fn codes_injective(a: Seq<char>, b: Seq<char>) {
        assert(Self::codes(a) == char_codes(a));
        assert(Self::codes(b) == char_codes(b));
        assert(a.len() == char_codes(b).len());
        assert forall|i: int| 0 <= i < a.len() implies a[i] == b[i] by {
            assert(char_codes(a)[i] == char_codes(b)[i]);
        }
        assert(a =~= b);
    }

    fn compare(&self, other: &Self) -> (o: Order) {
        compare_text(self.as_str(), other.as_str())
    }

    fn copy(&self) -> (r: Self) {
        self.clone()
    }
}

impl Key for Vec<u8> {
    type Model = Seq<u8>;

    open spec fn model(&self) -> Seq<u8> {
        self@
    }

    open spec fn codes(m: Seq<u8>) -> Seq<int> {
        byte_codes(m)
    }

    proof fn codes_injective(a: Seq<u8>, b: Seq<u8>) {
        assert(Self::codes(a) == byte_codes(a));
        assert(Self::codes(b) == byte_codes(b));
        assert(a.len() == byte_codes(b).len());
        assert forall|i: int| 0 <= i < a.len() implies a[i] == b[i] by {
            assert(byte_codes(a)[i] == byte_codes(b)[i]);
        }
        assert(a =~= b);
    }

    fn compare(&self, other: &Self) -> (o: Order) {
        compare_bytes(self.as_slice(), other.as_slice())
    }

    fn copy(&self) -> (r: Self) {
        let mut r: Vec<u8> = Vec::new();
        r.extend_from_slice(self.as_slice());
        proof {
            assert(r@ =~= self@);
        }
        r
    }
}

impl Key for u64 {
    type Model = u64;

    open spec fn model(&self) -> u64 {
        *self
    }

    open spec fn codes(m: u64) -> Seq<int> {
        seq![m as int]
    }

    proof fn codes_injective(a: u64, b: u64) {
        assert(seq![a as int][0] == seq![b as int][0]);
    }

    fn compare(&self, other: &Self) -> (o: Order) {
        proof {
            let x = seq![*self as int];
            let y = seq![*other as int];
            assert(x.drop_first().len() == 0);
            assert(y.drop_first().len() == 0);
            assert(lex(x.drop_first(), y.drop_first()) == Order::Equal);
            assert(lex(x, y) == int_order(*self as int, *other as int));
        }
        if *self < *other {
            Order::Less
        } else if *self == *other {
            Order::Equal
        } else {
            Order::Greater
        }
    }

    fn copy(&self) -> (r: Self) {
        *self
    }
}

/// How two models of keys compare.
pub open spec fn key_order<K: Key>(a: K::Model, b: K::Model) -> Order {
    lex(K::codes(a), K::codes(b))
}

/// Whether `a` comes before `b`.
pub open spec fn key_lt<K: Key>(a: K::Model, b: K::Model) -> bool {
    key_order::<K>(a, b) == Order::Less
}

/// The order of keys is total.
pub proof fn key_order_total<K: Key>(a: K::Model, b: K::Model)
    ensures
        key_order::<K>(a, b) == Order::Equal <==> a == b,
        key_order::<K>(b, a) == key_order::<K>(a, b).flip(),
{
    lex_equal(K::codes(a), K::codes(b));
    lex_flip(K::codes(a), K::codes(b));
    if K::codes(a) == K::codes(b) {
        K::codes_injective(a, b);
    }
}

/// The order of keys is transitive.
pub proof fn key_order_trans<K: Key>(a: K::Model, b: K::Model, c: K::Model)
    requires
        key_lt::<K>(a, b),
        key_lt::<K>(b, c),
    ensures
        key_lt::<K>(a, c),
{
    lex_trans(K::codes(a), K::codes(b), K::codes(c));
}

/// A map from keys to values. Its entries stand in the order of the keys.
pub struct SortedMap<K: Key, V> {
    entries: Vec<(K, V)>,
}

impl<K: Key, V> SortedMap<K, V> {
    /// The entries in order.
    pub closed spec fn seq(&self) -> Seq<(K::Model, V)> {
        Seq::new(self.entries@.len(), |i: int| (self.entries@[i].0.model(), self.entries@[i].1))
    }

    /// No key stands twice, and the keys ascend.
    pub open spec fn wf(&self) -> bool {
        ascending::<K, V>(self.seq())
    }
}

/// The keys of `s` ascend strictly.
pub open spec fn ascending<K: Key, V>(s: Seq<(K::Model, V)>) -> bool {
    forall|i: int, j: int| #![trigger s[i], s[j]] 0 <= i < j < s.len() ==> key_lt::<K>(s[i].0, s[j].0)
}

/// Whether `k` is a key of `s`.
pub open spec fn has_key<M, V>(s: Seq<(M, V)>, k: M) -> bool {
    exists|i: int| 0 <= i < s.len() && #[trigger] s[i].0 == k
}

/// The map that a sequence of entries holds.
pub open spec fn entries_map<M, V>(s: Seq<(M, V)>) -> Map<M, V> {
    Map::new(|k: M| has_key(s, k), |k: M| s[choose|i: int| 0 <= i < s.len() && #[trigger] s[i].0 == k].1)
}

impl<K: Key, V> View for SortedMap<K, V> {
    type V = Map<K::Model, V>;

    open spec fn view(&self) -> Map<K::Model, V> {
        entries_map(self.seq())
    }
}

/// In an ascending sequence the entry at `i` is what the map holds of its key.
pub proof fn ascending_entry<K: Key, V>(s: Seq<(K::Model, V)>, i: int)
    requires
        ascending::<K, V>(s),
        0 <= i < s.len(),
    ensures
        entries_map(s).contains_key(s[i].0),
        entries_map(s)[s[i].0] == s[i].1,
{
    let k = s[i].0;
    let j = choose|j: int| 0 <= j < s.len() && #[trigger] s[j].0 == k;
    assert(0 <= j < s.len() && s[j].0 == k) by {
        assert(s[i].0 == k);
    }
    key_order_total::<K>(k, k);
    if i < j {
        assert(key_lt::<K>(s[i].0, s[j].0));
    } else if j < i {
        assert(key_lt::<K>(s[j].0, s[i].0));
    }
}

impl<K: Key, V> SortedMap<K, V> {
    /// A map with no entries.
    pub fn new() -> (r: Self)
        ensures
            r.wf(),
            r@ == Map::<K::Model, V>::empty(),
            r.seq() == Seq::<(K::Model, V)>::empty(),
    {
        let r = SortedMap { entries: Vec::new() };
        proof {
            assert(r.seq() =~= Seq::<(K::Model, V)>::empty());
            assert(r@ =~= Map::<K::Model, V>::empty());
        }
        r
    }

    /// The number of entries.
    pub fn len(&self) -> (n: usize)
        ensures
            n == self.seq().len(),
    {
        self.entries.len()
    }

    /// The entry at place `i` in the order of the keys.
    pub fn entry(&self, i: usize) -> (r: (&K, &V))
        requires
            i < self.seq().len(),
        ensures
            r.0.model() == self.seq()[i as int].0,
            *r.1 == self.seq()[i as int].1,
    {
        let e = &self.entries[i];
        (&e.0, &e.1)
    }

    /// Where `k` stands, or where it would be put.
    pub fn find(&self, k: &K) -> (r: Result<usize, usize>)
        requires
            self.wf(),
        ensures
            match r {
                Ok(i) => {
                    &&& i < self.seq().len()
                    &&& self.seq()[i as int].0 == k.model()
                    &&& self@.contains_key(k.model())
                    &&& self@[k.model()] == self.seq()[i as int].1
                },
                Err(i) => {
                    &&& i <= self.seq().len()
                    &&& !self@.contains_key(k.model())
                    &&& forall|j: int| 0 <= j < i ==> key_lt::<K>(#[trigger] self.seq()[j].0, k.model())
                    &&& forall|j: int| i <= j < self.seq().len() ==> key_lt::<K>(k.model(), #[trigger] self.seq()[j].0)
                },
            },
    {
        let mut lo: usize = 0;
        let mut hi: usize = self.entries.len();
        while lo < hi
            invariant
                self.wf(),
                self.seq().len() == self.entries@.len(),
                lo <= hi <= self.entries@.len(),
                forall|j: int| 0 <= j < lo ==> key_lt::<K>(#[trigger] self.seq()[j].0, k.model()),
                forall|j: int| hi <= j < self.seq().len() ==> key_lt::<K>(k.model(), #[trigger] self.seq()[j].0),
            decreases hi - lo,
        {
            let mid: usize = lo + (hi - lo) / 2;
            let o = self.entries[mid].0.compare(k);
            let ghost s = self.seq();
            proof {
                assert(s[mid as int].0 == self.entries@[mid as int].0.model());
                key_order_total::<K>(s[mid as int].0, k.model());
            }
            match o {
                Order::Equal => {
                    proof {
                        ascending_entry::<K, V>(s, mid as int);
                    }
                    return Ok(mid);
                },
                Order::Less => {
                    proof {
                        assert forall|j: int| 0 <= j < mid + 1 implies key_lt::<K>(#[trigger] s[j].0, k.model()) by {
                            if j < mid {
                                assert(key_lt::<K>(s[j].0, s[mid as int].0));
                                key_order_trans::<K>(s[j].0, s[mid as int].0, k.model());
                            }
                        }
                    }
                    lo = mid + 1;
                },
                Order::Greater => {
                    proof {
                        assert forall|j: int| mid <= j < s.len() implies key_lt::<K>(k.model(), #[trigger] s[j].0) by {
                            if j > mid {
                                assert(key_lt::<K>(s[mid as int].0, s[j].0));
                                key_order_trans::<K>(k.model(), s[mid as int].0, s[j].0);
                            }
                        }
                    }
                    hi = mid;
                },
            }
        }
        proof {
            let s = self.seq();
            assert forall|j: int| 0 <= j < s.len() implies #[trigger] s[j].0 != k.model() by {
                key_order_total::<K>(k.model(), k.model());
            }
        }
        Err(lo)
    }

    /// What the map holds of `k`.
    pub fn get(&self, k: &K) -> (r: Option<&V>)
        requires
            self.wf(),
        ensures
            match r {
                Some(v) => self@.contains_key(k.model()) && self@[k.model()] == *v,
                None => !self@.contains_key(k.model()),
            },
    {
        match self.find(k) {
            Ok(i) => Some(&self.entries[i].1),
            Err(_) => None,
        }
    }

    /// Whether `k` is a key of the map.
    pub fn contains(&self, k: &K) -> (r: bool)
        requires
            self.wf(),
        ensures
            r == self@.contains_key(k.model()),
    {
        match self.find(k) {
            Ok(_) => true,
            Err(_) => false,
        }
    }

    /// Puts `v` under `k`, and hands back what stood there.
    pub fn insert(&mut self, k: K, v: V) -> (r: Option<V>)
        requires
            old(self).wf(),
        ensures
            final(self).wf(),
            final(self)@ == old(self)@.insert(k.model(), v),
            match r {
                Some(w) => old(self)@.contains_key(k.model()) && old(self)@[k.model()] == w,
                None => !old(self)@.contains_key(k.model()),
            },
    {
        let ghost before = self.seq();
        let ghost m = k.model();
        match self.find(&k) {
            Ok(i) => {
                let mut entry = (k, v);
                std::mem::swap(&mut self.entries[i], &mut entry);
                proof {
                    assert(self.seq() =~= before.update(i as int, (m, v)));
                    update_holds::<K, V>(before, i as int, v);
                    assert(self@ =~= entries_map(before).insert(m, v));
                }
                Some(entry.1)
            },
            Err(i) => {
                self.entries.insert(i, (k, v));
                proof {
                    assert(self.seq() =~= before.insert(i as int, (m, v)));
                    insert_holds::<K, V>(before, i as int, m, v);
                    assert(self@ =~= entries_map(before).insert(m, v));
                }
                None
            },
        }
    }

    /// Takes `k` out, and hands back what stood there.
    pub fn remove(&mut self, k: &K) -> (r: Option<V>)
        requires
            old(self).wf(),
        ensures
            final(self).wf(),
            final(self)@ == old(self)@.remove(k.model()),
            match r {
                Some(w) => old(self)@.contains_key(k.model()) && old(self)@[k.model()] == w,
                None => !old(self)@.contains_key(k.model()),
            },
    {
        let ghost before = self.seq();
        match self.find(k) {
            Ok(i) => {
                let e = self.entries.remove(i);
                proof {
                    assert(self.seq() =~= before.remove(i as int));
                    remove_holds::<K, V>(before, i as int);
                    assert(self@ =~= entries_map(before).remove(k.model()));
                }
                Some(e.1)
            },
            Err(_) => {
                proof {
                    assert(self@.remove(k.model()) =~= self@);
                }
                None
            },
        }
    }

    /// Takes out the entry at place `i`.
    pub fn remove_at(&mut self, i: usize) -> (r: (K, V))
        requires
            old(self).wf(),
            i < old(self).seq().len(),
        ensures
            final(self).wf(),
            final(self).seq() == old(self).seq().remove(i as int),
            final(self)@ == old(self)@.remove(old(self).seq()[i as int].0),
            r.0.model() == old(self).seq()[i as int].0,
            r.1 == old(self).seq()[i as int].1,
    {
        let ghost before = self.seq();
        let e = self.entries.remove(i);
        proof {
            assert(self.seq() =~= before.remove(i as int));
            remove_holds::<K, V>(before, i as int);
            assert(self@ =~= entries_map(before).remove(before[i as int].0));
        }
        e
    }
}

/// Replacing a value in place is an insertion of the map.
pub proof fn update_holds<K: Key, V>(s: Seq<(K::Model, V)>, i: int, v: V)
    requires
        ascending::<K, V>(s),
        0 <= i < s.len(),
    ensures
        ascending::<K, V>(s.update(i, (s[i].0, v))),
        entries_map(s.update(i, (s[i].0, v))) == entries_map(s).insert(s[i].0, v),
{
    let m = s[i].0;
    let t = s.update(i, (m, v));
    assert forall|a: int, b: int| #![trigger t[a], t[b]] 0 <= a < b < t.len() implies key_lt::<K>(t[a].0, t[b].0) by {
        assert(key_lt::<K>(s[a].0, s[b].0));
    }
    assert forall|k: K::Model| has_key(t, k) <==> has_key(s, k) by {
        if has_key(t, k) {
            let j = choose|j: int| 0 <= j < t.len() && #[trigger] t[j].0 == k;
            assert(s[j].0 == k);
        }
        if has_key(s, k) {
            let j = choose|j: int| 0 <= j < s.len() && #[trigger] s[j].0 == k;
            assert(t[j].0 == k);
        }
    }
    assert(s[i].0 == m);
    assert forall|k: K::Model| has_key(t, k) implies entries_map(t)[k] == entries_map(s).insert(m, v)[k] by {
        let j = choose|j: int| 0 <= j < t.len() && #[trigger] t[j].0 == k;
        ascending_entry::<K, V>(t, j);
        assert(s[j].0 == k);
        ascending_entry::<K, V>(s, j);
        ascending_entry::<K, V>(t, i);
    }
    assert(entries_map(t) =~= entries_map(s).insert(m, v));
}

/// Putting an entry between its neighbours is an insertion of the map.
pub proof fn insert_holds<K: Key, V>(s: Seq<(K::Model, V)>, i: int, m: K::Model, v: V)
    requires
        ascending::<K, V>(s),
        0 <= i <= s.len(),
        forall|j: int| 0 <= j < i ==> key_lt::<K>(#[trigger] s[j].0, m),
        forall|j: int| i <= j < s.len() ==> key_lt::<K>(m, #[trigger] s[j].0),
    ensures
        ascending::<K, V>(s.insert(i, (m, v))),
        entries_map(s.insert(i, (m, v))) == entries_map(s).insert(m, v),
{
    let t = s.insert(i, (m, v));
    assert forall|a: int, b: int| #![trigger t[a], t[b]] 0 <= a < b < t.len() implies key_lt::<K>(t[a].0, t[b].0) by {
        let x = if a < i { a } else { a - 1 };
        let y = if b < i { b } else { b - 1 };
        if a != i {
            assert(t[a] == s[x]);
        }
        if b != i {
            assert(t[b] == s[y]);
        }
        if a != i && b != i {
            assert(key_lt::<K>(s[x].0, s[y].0));
        }
    }
    assert(t[i].0 == m);
    assert forall|k: K::Model| has_key(t, k) <==> (has_key(s, k) || k == m) by {
        if has_key(t, k) {
            let j = choose|j: int| 0 <= j < t.len() && #[trigger] t[j].0 == k;
            if j != i {
                let x = if j < i { j } else { j - 1 };
                assert(s[x].0 == k);
            }
        }
        if has_key(s, k) {
            let j = choose|j: int| 0 <= j < s.len() && #[trigger] s[j].0 == k;
            let y = if j < i { j } else { j + 1 };
            assert(t[y].0 == k);
        }
    }
    assert forall|k: K::Model| has_key(t, k) implies entries_map(t)[k] == entries_map(s).insert(m, v)[k] by {
        let j = choose|j: int| 0 <= j < t.len() && #[trigger] t[j].0 == k;
        ascending_entry::<K, V>(t, j);
        ascending_entry::<K, V>(t, i);
        if j != i {
            let x = if j < i { j } else { j - 1 };
            assert(s[x] == t[j]);
            ascending_entry::<K, V>(s, x);
            key_order_total::<K>(m, m);
        }
    }
    assert(entries_map(t) =~= entries_map(s).insert(m, v));
}

/// Taking an entry out is a removal of the map.
pub proof fn remove_holds<K: Key, V>(s: Seq<(K::Model, V)>, i: int)
    requires
        ascending::<K, V>(s),
        0 <= i < s.len(),
    ensures
        ascending::<K, V>(s.remove(i)),
        entries_map(s.remove(i)) == entries_map(s).remove(s[i].0),
{
    let m = s[i].0;
    let t = s.remove(i);
    assert forall|a: int, b: int| #![trigger t[a], t[b]] 0 <= a < b < t.len() implies key_lt::<K>(t[a].0, t[b].0) by {
        let x = if a < i { a } else { a + 1 };
        let y = if b < i { b } else { b + 1 };
        assert(t[a] == s[x]);
        assert(t[b] == s[y]);
    }
    assert forall|k: K::Model| has_key(t, k) <==> (has_key(s, k) && k != m) by {
        if has_key(t, k) {
            let j = choose|j: int| 0 <= j < t.len() && #[trigger] t[j].0 == k;
            let x = if j < i { j } else { j + 1 };
            assert(s[x].0 == k);
            key_order_total::<K>(m, m);
            if x < i {
                assert(key_lt::<K>(s[x].0, s[i].0));
            } else {
                assert(key_lt::<K>(s[i].0, s[x].0));
            }
        }
        if has_key(s, k) && k != m {
            let j = choose|j: int| 0 <= j < s.len() && #[trigger] s[j].0 == k;
            let y = if j < i { j } else { j - 1 };
            assert(t[y].0 == k);
        }
    }
    assert forall|k: K::Model| has_key(t, k) implies entries_map(t)[k] == entries_map(s)[k] by {
        let j = choose|j: int| 0 <= j < t.len() && #[trigger] t[j].0 == k;
        ascending_entry::<K, V>(t, j);
        let x = if j < i { j } else { j + 1 };
        assert(s[x] == t[j]);
        ascending_entry::<K, V>(s, x);
    }
    assert(entries_map(t) =~= entries_map(s).remove(m));
}

/// Entries in the order of their keys are determined by what they hold.
pub proof fn ascending_unique<K: Key, V>(a: Seq<(K::Model, V)>, b: Seq<(K::Model, V)>)
    requires
        ascending::<K, V>(a),
        ascending::<K, V>(b),
        entries_map(a) == entries_map(b),
    ensures
        a == b,
    decreases a.len(),
{
    if a.len() == 0 {
        if b.len() > 0 {
            ascending_entry::<K, V>(b, 0);
            assert(entries_map(a).contains_key(b[0].0));
        }
        assert(a =~= b);
    } else {
        ascending_entry::<K, V>(a, 0);
        assert(entries_map(b).contains_key(a[0].0));
        assert(b.len() > 0);
        ascending_entry::<K, V>(b, 0);
        assert(entries_map(a).contains_key(b[0].0));
        let j = choose|j: int| 0 <= j < b.len() && #[trigger] b[j].0 == a[0].0;
        let i = choose|i: int| 0 <= i < a.len() && #[trigger] a[i].0 == b[0].0;
        key_order_total::<K>(a[0].0, b[0].0);
        if j > 0 {
            assert(key_lt::<K>(b[0].0, b[j].0));
            if i > 0 {
                assert(key_lt::<K>(a[0].0, a[i].0));
            }
        }
        assert(a[0].0 == b[0].0);
        assert(a[0] == b[0]);
        remove_holds::<K, V>(a, 0);
        remove_holds::<K, V>(b, 0);
        ascending_unique::<K, V>(a.remove(0), b.remove(0));
        assert(a =~= seq![a[0]] + a.remove(0));
        assert(b =~= seq![b[0]] + b.remove(0));
    }
}

/// Entries in the order of their keys have as many keys as there are entries.
pub proof fn ascending_dom_len<K: Key, V>(s: Seq<(K::Model, V)>)
    requires
        ascending::<K, V>(s),
    ensures
        entries_map(s).dom().finite(),
        entries_map(s).dom().len() == s.len(),
    decreases s.len(),
{
    if s.len() == 0 {
        assert(entries_map(s).dom() =~= Set::<K::Model>::empty());
    } else {
        let i = s.len() - 1;
        ascending_entry::<K, V>(s, i);
        remove_holds::<K, V>(s, i);
        ascending_dom_len::<K, V>(s.remove(i));
        assert(entries_map(s).dom() =~= entries_map(s.remove(i)).dom().insert(s[i].0));
    }
}

/// Texts stand in the order of their code points, byte strings in that of their bytes, and numbers
/// in their own: what differs first decides, and what another goes on from comes before it.
pub proof fn keys_stand_in_order(p: Seq<char>, c: char, d: char, x: Seq<char>, y: Seq<char>, m: u64, n: u64)
    ensures
        (c as int) < (d as int) ==> key_lt::<String>(p + seq![c] + x, p + seq![d] + y),
        x.len() > 0 ==> key_lt::<String>(p, p + x),
        !key_lt::<String>(p, p),
        key_lt::<u64>(m, n) <==> m < n,
{
    let (e, f) = (char_codes(p), Seq::<int>::empty());
    let (g, h) = (seq![c as int] + char_codes(x), seq![d as int] + char_codes(y));
    assert(char_codes(p + seq![c] + x) =~= e + g);
    assert(char_codes(p + seq![d] + y) =~= e + h);
    crate::order::lex_common_head(e, g, h);
    assert(char_codes(p + x) =~= e + char_codes(x));
    assert(e + f =~= e);
    crate::order::lex_common_head(e, f, char_codes(x));
    crate::order::lex_equal(e, e);
    let (a, b) = (seq![m as int], seq![n as int]);
    assert(a.drop_first().len() == 0 && b.drop_first().len() == 0);
    assert(<u64 as Key>::codes(m) == a && <u64 as Key>::codes(n) == b);
    assert(lex(a.drop_first(), b.drop_first()) == Order::Equal);
}

} // verus!
