//! What is saved of the indexes of single fields and of words, and how it comes back.
use vstd::prelude::*;
use vstd::string::*;

use crate::directory::NameTable;
use crate::engine::access::begins;
use crate::error::{error_message, HakoError};
use crate::index::inverted_index::InvertedIndex;
use crate::index::manager::{merged, tables_wf, under, IndexManager};
use crate::index::postings::{entry_rows, last_ids, last_row, row_is_last, Postings};
use crate::index::secondary_index::SecondaryIndex;
use crate::sorted_map::Key;
use crate::util::fixed::{pow256, pow256_values};
use crate::util::layout::{
    begins_once, behind, in_list, in_pair, list_begins_once, of_bytes, of_text, pair_begins_once, takes_room,
    texts_begin_once,
};

verus! {

/// An index that can be saved as rows: keys with the ids under them.
pub trait Saved: Sized {
    type K: Key;

    /// The rows of the index.
    spec fn rows(&self) -> Seq<(<Self::K as Key>::Model, Seq<Seq<char>>)>;

    /// The ids under a key.
    spec fn held(&self, k: <Self::K as Key>::Model) -> Set<Seq<char>>;

    spec fn sound(&self) -> bool;

    /// The rows tell which ids stand under a key.
    proof fn rows_hold(&self, k: <Self::K as Key>::Model)
        requires
            self.sound(),
        ensures
            last_ids(self.rows(), k) == self.held(k),
    ;

    /// The rows, to be saved.
    fn save(&self) -> (r: Vec<(Self::K, Vec<String>)>)
        ensures
            entry_rows(r@) == self.rows(),
    ;

    /// The index of rows that were saved. Of two with the same key the later counts.
    fn restore(rows: &Vec<(Self::K, Vec<String>)>) -> (r: Self)
        ensures
            r.sound(),
            forall|k: <Self::K as Key>::Model| #[trigger] r.held(k) == last_ids(entry_rows(rows@), k),
    ;
}

impl Saved for SecondaryIndex {
    type K = Vec<u8>;

    open spec fn rows(&self) -> Seq<(Seq<u8>, Seq<Seq<char>>)> {
        self.saved()
    }

    open spec fn held(&self, k: Seq<u8>) -> Set<Seq<char>> {
        self.posting(k)
    }

    open spec fn sound(&self) -> bool {
        self.wf()
    }

    proof fn rows_hold(&self, k: Seq<u8>) {
        self.saved_holds(k);
    }

    fn save(&self) -> (r: Vec<(Vec<u8>, Vec<String>)>) {
        self.to_rows()
    }

    fn restore(rows: &Vec<(Vec<u8>, Vec<String>)>) -> (r: SecondaryIndex) {
        SecondaryIndex::of_rows(rows)
    }
}

impl Saved for InvertedIndex {
    type K = String;

    open spec fn rows(&self) -> Seq<(Seq<char>, Seq<Seq<char>>)> {
        self.map.saved()
    }

    open spec fn held(&self, k: Seq<char>) -> Set<Seq<char>> {
        self.posting(k)
    }

    open spec fn sound(&self) -> bool {
        self.wf()
    }

    proof fn rows_hold(&self, k: Seq<char>) {
        self.map.saved_holds(k);
    }

    fn save(&self) -> (r: Vec<(String, Vec<String>)>) {
        self.map.save()
    }

    fn restore(rows: &Vec<(String, Vec<String>)>) -> (r: InvertedIndex) {
        InvertedIndex { map: Postings::restore(rows) }
    }
}

/// The rows of the indexes of a collection, by their fields.
pub type FieldRows<K> = Vec<(String, Vec<(K, Vec<String>)>)>;

/// The rows of the indexes of all collections.
pub type TableRows<K> = Vec<(String, FieldRows<K>)>;

/// What the rows of the indexes of a collection tell.
pub open spec fn field_rows<K: Key>(s: Seq<(String, Vec<(K, Vec<String>)>)>) -> Seq<
    (Seq<char>, Seq<(K::Model, Seq<Seq<char>>)>),
> {
    Seq::new(s.len(), |i: int| (s[i].0@, entry_rows(s[i].1@)))
}

/// What the rows of the indexes of all collections tell.
pub open spec fn table_rows<K: Key>(s: Seq<(String, FieldRows<K>)>) -> Seq<
    (Seq<char>, Seq<(Seq<char>, Seq<(K::Model, Seq<Seq<char>>)>)>),
> {
    Seq::new(s.len(), |i: int| (s[i].0@, field_rows(s[i].1@)))
}

/// The indexes of a collection as they are saved.
pub open spec fn saved_fields<X: Saved>(t: NameTable<X>) -> Seq<
    (Seq<char>, Seq<(<X::K as Key>::Model, Seq<Seq<char>>)>),
> {
    Seq::new(t.rows().len(), |i: int| (t.rows()[i].0, t.rows()[i].1.rows()))
}

/// The indexes of all collections as they are saved.
pub open spec fn saved_tables<X: Saved>(t: NameTable<NameTable<X>>) -> Seq<
    (Seq<char>, Seq<(Seq<char>, Seq<(<X::K as Key>::Model, Seq<Seq<char>>)>)>),
> {
    Seq::new(t.rows().len(), |i: int| (t.rows()[i].0, saved_fields(t.rows()[i].1)))
}

/// The rows of the indexes of a collection.
fn save_fields<X: Saved>(t: &NameTable<X>) -> (r: FieldRows<X::K>)
    ensures
        field_rows(r@) == saved_fields(*t),
{
    let mut r: FieldRows<X::K> = Vec::new();
    let mut i: usize = 0;
    while i < t.len()
        invariant
            i <= t.rows().len(),
            r@.len() == i,
            forall|k: int|
                0 <= k < i ==> (#[trigger] r@[k]).0@ == t.rows()[k].0 && entry_rows(r@[k].1@) == t.rows()[k].1.rows(),
        decreases t.rows().len() - i,
    {
        let rows = t.thing(i).save();
        r.push((t.name(i).clone(), rows));
        i = i + 1;
    }
    proof {
        assert(field_rows(r@) =~= saved_fields(*t));
    }
    r
}

/// The rows of the indexes of all collections.
fn save_tables<X: Saved>(t: &NameTable<NameTable<X>>) -> (r: TableRows<X::K>)
    ensures
        table_rows(r@) == saved_tables(*t),
{
    let mut r: TableRows<X::K> = Vec::new();
    let mut i: usize = 0;
    while i < t.len()
        invariant
            i <= t.rows().len(),
            r@.len() == i,
            forall|k: int|
                0 <= k < i ==> (#[trigger] r@[k]).0@ == t.rows()[k].0 && field_rows(r@[k].1@) == saved_fields(
                    t.rows()[k].1,
                ),
        decreases t.rows().len() - i,
    {
        let fields = save_fields(t.thing(i));
        r.push((t.name(i).clone(), fields));
        i = i + 1;
    }
    proof {
        assert(table_rows(r@) =~= saved_tables(*t));
    }
    r
}

/// An index holds what rows tell.
pub open spec fn holds<X: Saved>(x: X, rows: Seq<(<X::K as Key>::Model, Seq<Seq<char>>)>) -> bool {
    x.sound() && forall|k: <X::K as Key>::Model| #[trigger] x.held(k) == last_ids(rows, k)
}

/// The indexes of a collection hold what rows tell. Of two rows for the same field the later
/// counts.
pub open spec fn fields_hold<X: Saved>(
    t: NameTable<X>,
    rows: Seq<(Seq<char>, Seq<(<X::K as Key>::Model, Seq<Seq<char>>)>)>,
) -> bool {
    forall|f: Seq<char>|
        #![trigger t@.contains_key(f)]
        match last_row(rows, f) {
            Some(e) => t@.contains_key(f) && holds(t@[f], e),
            None => !t@.contains_key(f),
        }
}

/// The indexes of all collections hold what rows tell. Of two rows for the same collection
/// the later counts.
pub open spec fn tables_hold<X: Saved>(
    t: NameTable<NameTable<X>>,
    rows: Seq<(Seq<char>, Seq<(Seq<char>, Seq<(<X::K as Key>::Model, Seq<Seq<char>>)>)>)>,
) -> bool {
    forall|c: Seq<char>|
        #![trigger t@.contains_key(c)]
        match last_row(rows, c) {
            Some(e) => t@.contains_key(c) && fields_hold(t@[c], e),
            None => !t@.contains_key(c),
        }
}

/// Puts a thing under a name, in place of what stood there.
fn place<T>(t: &mut NameTable<T>, name: &String, x: T)
    requires
        old(t).wf(),
    ensures
        final(t).wf(),
        final(t)@ == old(t)@.insert(name@, x),
{
    match t.find(name.as_str()) {
        Some(i) => {
            let gone = t.swap(i, x);
        },
        None => {
            t.push(name.clone(), x);
        },
    }
}

/// The indexes of a collection from their rows.
fn restore_fields<X: Saved>(rows: &FieldRows<X::K>) -> (t: NameTable<X>)
    ensures
        t.wf(),
        fields_hold(t, field_rows(rows@)),
{
    let ghost m = field_rows(rows@);
    let mut t: NameTable<X> = NameTable::new();
    let mut i: usize = 0;
    proof {
        assert(m.take(0) =~= Seq::empty());
    }
    while i < rows.len()
        invariant
            t.wf(),
            m == field_rows(rows@),
            i <= rows@.len(),
            fields_hold(t, m.take(i as int)),
        decreases rows@.len() - i,
    {
        let ghost before = t;
        let x = X::restore(&rows[i].1);
        place(&mut t, &rows[i].0, x);
        proof {
            assert(m.take(i + 1).drop_last() =~= m.take(i as int));
            assert(m.take(i + 1).last() == m[i as int]);
            assert forall|f: Seq<char>|
                #![trigger t@.contains_key(f)]
                match last_row(m.take(i + 1), f) {
                    Some(e) => t@.contains_key(f) && holds(t@[f], e),
                    None => !t@.contains_key(f),
                } by {
                assert(before@.contains_key(f) == before@.contains_key(f));
                if f == rows@[i as int].0@ {
                    assert(t@[f] == x);
                    assert(holds(x, m[i as int].1));
                }
            }
        }
        i = i + 1;
    }
    proof {
        assert(m.take(m.len() as int) =~= m);
    }
    t
}

/// The indexes of all collections from their rows.
fn restore_tables<X: Saved>(rows: &TableRows<X::K>) -> (t: NameTable<NameTable<X>>)
    ensures
        tables_wf(t),
        tables_hold(t, table_rows(rows@)),
{
    let ghost m = table_rows(rows@);
    let mut t: NameTable<NameTable<X>> = NameTable::new();
    let mut i: usize = 0;
    proof {
        assert(m.take(0) =~= Seq::empty());
    }
    while i < rows.len()
        invariant
            tables_wf(t),
            m == table_rows(rows@),
            i <= rows@.len(),
            tables_hold(t, m.take(i as int)),
        decreases rows@.len() - i,
    {
        let ghost before = t;
        let x: NameTable<X> = restore_fields(&rows[i].1);
        place(&mut t, &rows[i].0, x);
        proof {
            assert(m.take(i + 1).drop_last() =~= m.take(i as int));
            assert(m.take(i + 1).last() == m[i as int]);
            assert forall|c: Seq<char>|
                #![trigger t@.contains_key(c)]
                match last_row(m.take(i + 1), c) {
                    Some(e) => t@.contains_key(c) && fields_hold(t@[c], e),
                    None => !t@.contains_key(c),
                } by {
                assert(before@.contains_key(c) == before@.contains_key(c));
                if c == rows@[i as int].0@ {
                    assert(t@[c] == x);
                }
            }
            assert forall|c: Seq<char>| #[trigger] t@.contains_key(c) implies t@[c].wf() by {
                assert(c == rows@[i as int].0@ || before@.contains_key(c));
            }
        }
        i = i + 1;
    }
    proof {
        assert(m.take(m.len() as int) =~= m);
    }
    t
}

/// What rows tell of an index.
pub open spec fn row_under<M>(
    rows: Seq<(Seq<char>, Seq<(Seq<char>, Seq<(M, Seq<Seq<char>>)>)>)>,
    c: Seq<char>,
    f: Seq<char>,
) -> Option<Seq<(M, Seq<Seq<char>>)>> {
    match last_row(rows, c) {
        Some(fields) => last_row(fields, f),
        None => None,
    }
}

/// `b` are the indexes `a`, those that rows tell of with what the rows tell in place of what
/// they held.
pub open spec fn taken_over<X: Saved>(
    a: NameTable<NameTable<X>>,
    b: NameTable<NameTable<X>>,
    rows: Seq<(Seq<char>, Seq<(Seq<char>, Seq<(<X::K as Key>::Model, Seq<Seq<char>>)>)>)>,
) -> bool {
    forall|c: Seq<char>, f: Seq<char>|
        #![trigger under(b, c, f)]
        match (under(a, c, f), row_under(rows, c, f)) {
            (Some(_), Some(e)) => under(b, c, f) is Some && holds(under(b, c, f)->Some_0, e),
            (x, _) => under(b, c, f) == x,
        }
}

/// Indexes that hold what rows tell, taken over.
proof fn merged_is_taken_over<X: Saved>(
    a: NameTable<NameTable<X>>,
    t: NameTable<NameTable<X>>,
    b: NameTable<NameTable<X>>,
    rows: Seq<(Seq<char>, Seq<(Seq<char>, Seq<(<X::K as Key>::Model, Seq<Seq<char>>)>)>)>,
)
    requires
        merged(a, t, b),
        tables_hold(t, rows),
    ensures
        taken_over(a, b, rows),
{
    assert forall|c: Seq<char>, f: Seq<char>|
        #![trigger under(b, c, f)]
        match (under(a, c, f), row_under(rows, c, f)) {
            (Some(_), Some(e)) => under(b, c, f) is Some && holds(under(b, c, f)->Some_0, e),
            (x, _) => under(b, c, f) == x,
        } by {
        held_under(t, rows, c, f);
    }
}

/// What a table of indexes holds under two names is what rows tell of it.
proof fn held_under<X: Saved>(
    t: NameTable<NameTable<X>>,
    rows: Seq<(Seq<char>, Seq<(Seq<char>, Seq<(<X::K as Key>::Model, Seq<Seq<char>>)>)>)>,
    c: Seq<char>,
    f: Seq<char>,
)
    requires
        tables_hold(t, rows),
    ensures
        match row_under(rows, c, f) {
            Some(e) => under(t, c, f) is Some && holds(under(t, c, f)->Some_0, e),
            None => under(t, c, f) is None,
        },
{
    if t@.contains_key(c) {
        if t@[c]@.contains_key(f) {
        }
    }
}

/// The saved state of the indexes of single fields and of words.
#[verifier::ext_equal]
pub struct State {
    pub secondary: Seq<(Seq<char>, Seq<(Seq<char>, Seq<(Seq<u8>, Seq<Seq<char>>)>)>)>,
    pub fts: Seq<(Seq<char>, Seq<(Seq<char>, Seq<(Seq<char>, Seq<Seq<char>>)>)>)>,
}

/// A saved state in rows.
pub type StateRows = (TableRows<Vec<u8>>, TableRows<String>);

/// The state that rows tell.
pub open spec fn rows_state(rows: StateRows) -> State {
    State { secondary: table_rows(rows.0@), fts: table_rows(rows.1@) }
}

/// The state that rows tell, where there are any.
pub open spec fn found_state(rows: Result<StateRows, String>) -> Option<State> {
    match rows {
        Ok(x) => Some(rows_state(x)),
        Err(_) => None,
    }
}

/// How the rows of the indexes of all collections are laid out, where keys are by `key`.
pub open spec fn of_tables<K>(key: spec_fn(K) -> Seq<u8>) -> spec_fn(
    Seq<(Seq<char>, Seq<(Seq<char>, Seq<(K, Seq<Seq<char>>)>)>)>,
) -> Seq<u8> {
    in_list(in_pair(of_text(), in_list(in_pair(of_text(), in_list(in_pair(key, in_list(of_text())))))))
}

/// The bytes of a saved state: the rows of the indexes of single fields, and behind them those
/// of the indexes of words.
pub open spec fn state_bytes(s: State) -> Seq<u8> {
    of_tables(of_bytes())(s.secondary) + of_tables(of_text())(s.fts)
}

/// Whether bytes begin with those of a saved state.
pub open spec fn holds_state(bytes: Seq<u8>, s: State) -> bool {
    state_bytes(s).is_prefix_of(bytes)
}

/// The saved state that bytes hold; whatever comes behind it is not looked at.
pub open spec fn bytes_state(bytes: Seq<u8>) -> Option<State> {
    if exists|s: State| #[trigger] holds_state(bytes, s) {
        Some(choose|s: State| #[trigger] holds_state(bytes, s))
    } else {
        None
    }
}

/// Bytes begin with no more than one table of rows.
proof fn tables_begin_once<K>(key: spec_fn(K) -> Seq<u8>)
    requires
        begins_once(key),
        takes_room(key),
    ensures
        begins_once(of_tables(key)),
{
    texts_begin_once();
    list_begins_once(of_text());
    pair_begins_once(key, in_list(of_text()));
    list_begins_once(in_pair(key, in_list(of_text())));
    pair_begins_once(of_text(), in_list(in_pair(key, in_list(of_text()))));
    list_begins_once(in_pair(of_text(), in_list(in_pair(key, in_list(of_text())))));
    pair_begins_once(of_text(), in_list(in_pair(of_text(), in_list(in_pair(key, in_list(of_text()))))));
    list_begins_once(in_pair(of_text(), in_list(in_pair(of_text(), in_list(in_pair(key, in_list(of_text())))))));
}

/// Bytes hold no more than one saved state.
pub proof fn one_state(bytes: Seq<u8>, s: State, t: State)
    requires
        bytes.len() < pow256(8),
        holds_state(bytes, s),
        holds_state(bytes, t),
    ensures
        s == t,
{
    texts_begin_once();
    tables_begin_once(of_bytes());
    tables_begin_once(of_text());
    let (f, g) = (of_tables(of_bytes()), of_tables(of_text()));
    behind(bytes, f(s.secondary), g(s.fts));
    behind(bytes, f(t.secondary), g(t.fts));
    assert(s.secondary == t.secondary);
    let rest = bytes.skip(f(s.secondary).len() as int);
    assert(g(s.fts).is_prefix_of(rest) && g(t.fts).is_prefix_of(rest));
}

/// The bytes of a saved state hold that state, whatever comes behind them.
pub proof fn saved_state_is_found(s: State, more: Seq<u8>)
    requires
        (state_bytes(s) + more).len() < pow256(8),
    ensures
        bytes_state(state_bytes(s) + more) == Some(s),
{
    let b = state_bytes(s) + more;
    assert(b.take(state_bytes(s).len() as int) =~= state_bytes(s));
    assert(holds_state(b, s));
    one_state(b, s, choose|t: State| #[trigger] holds_state(b, t));
}

/// `bincode::serialize` of the rows of a state: numbers with the low byte first, and texts,
/// bytes and lists behind their lengths of eight bytes.
#[verifier::external_body]
fn pack_state(rows: &StateRows) -> (r: Vec<u8>)
    ensures
        r@ == state_bytes(rows_state(*rows)),
{
    bincode::serialize(rows).unwrap_or_default()
}

/// `bincode::deserialize` to the rows of a state: those with whose bytes the given bytes
/// begin, and an error where they begin with none. Nothing is said of the words of the error.
#[verifier::external_body]
fn unpack_state(bytes: &[u8]) -> (r: Result<StateRows, String>)
    ensures
        found_state(r) == bytes_state(bytes@),
{
    bincode::deserialize(bytes).map_err(|e| e.to_string())
}

/// What is saved of all indexes.
pub open spec fn saved_state(m: IndexManager) -> State {
    State { secondary: saved_tables(m.secondary), fts: saved_tables(m.fts) }
}

/// `b` are the indexes `a` with a saved state taken over.
pub open spec fn state_taken(a: IndexManager, b: IndexManager, s: State) -> bool {
    &&& b.composite == a.composite
    &&& taken_over(a.secondary, b.secondary, s.secondary)
    &&& taken_over(a.fts, b.fts, s.fts)
}

impl IndexManager {
    /// The state of the indexes of single fields and of words, to be saved.
    pub fn export_state(&self) -> (r: Vec<u8>)
        ensures
            r@ == state_bytes(saved_state(*self)),
    {
        let rows: StateRows = (save_tables(&self.secondary), save_tables(&self.fts));
        pack_state(&rows)
    }

    /// Takes a saved state over, each index where one of that field stands already. Bytes
    /// that hold none change nothing, and the error tells why.
    pub fn import_state(&mut self, bytes: &[u8]) -> (r: Result<(), HakoError>)
        requires
            old(self).wf(),
        ensures
            final(self).wf(),
            match bytes_state(bytes@) {
                Some(s) => r is Ok && state_taken(*old(self), *final(self), s),
                None => {
                    &&& r matches Err(e) && e is Corrupt && begins(error_message(e), "Index import failed: "@)
                    &&& *final(self) == *old(self)
                },
            },
            forall|s: State| bytes@ == #[trigger] state_bytes(s) ==> bytes_state(bytes@) == Some(s),
    {
        let total: usize = bytes.len();
        proof {
            pow256_values();
            assert forall|s: State| bytes@ == #[trigger] state_bytes(s) implies bytes_state(bytes@) == Some(s) by {
                assert(state_bytes(s) + Seq::<u8>::empty() =~= bytes@);
                assert(bytes@.len() == total);
                saved_state_is_found(s, Seq::empty());
            }
        }
        match unpack_state(bytes) {
            Err(m) => {
                let mut why = "Index import failed: ".to_owned();
                why.append(m.as_str());
                proof {
                    assert(why@ =~= "Index import failed: "@ + m@);
                    assert(why@.subrange(0, "Index import failed: "@.len() as int) =~= "Index import failed: "@);
                    assert(begins(why@, "Index import failed: "@));
                }
                Err(HakoError::Corrupt(why))
            },
            Ok(rows) => {
                self.import_rows(&rows);
                Ok(())
            },
        }
    }

    /// Takes the rows of a saved state over, each index where one of that field stands
    /// already.
    pub fn import_rows(&mut self, rows: &StateRows)
        requires
            old(self).wf(),
        ensures
            final(self).wf(),
            state_taken(*old(self), *final(self), rows_state(*rows)),
    {
        let secondary: NameTable<NameTable<SecondaryIndex>> = restore_tables(&rows.0);
        let fts: NameTable<NameTable<InvertedIndex>> = restore_tables(&rows.1);
        let ghost (s, w) = (secondary, fts);
        proof {
            assert forall|c: Seq<char>, f: Seq<char>| (#[trigger] under(s, c, f)) is Some implies under(s, c, f)->Some_0.wf() by {
                held_under(s, table_rows(rows.0@), c, f);
            }
            assert forall|c: Seq<char>, f: Seq<char>| (#[trigger] under(w, c, f)) is Some implies under(w, c, f)->Some_0.wf() by {
                held_under(w, table_rows(rows.1@), c, f);
            }
        }
        self.take_over(secondary, fts);
        proof {
            merged_is_taken_over(old(self).secondary, s, self.secondary, table_rows(rows.0@));
            merged_is_taken_over(old(self).fts, w, self.fts, table_rows(rows.1@));
        }
    }
}

/// The last row for a name in the saved table is that of the index that stands there.
proof fn saved_row<X: Saved>(t: NameTable<NameTable<X>>, c: Seq<char>, f: Seq<char>)
    requires
        tables_wf(t),
        under(t, c, f) is Some,
    ensures
        row_under(saved_tables(t), c, f) == Some(under(t, c, f)->Some_0.rows()),
{
    t.place_facts();
    let i = t.place(c);
    let inner = t@[c];
    inner.place_facts();
    let j = inner.place(f);
    assert(t.has(c));
    assert(inner.has(f));
    let rows = saved_tables(t);
    assert(rows[i].0 == c);
    assert forall|k: int| i < k < rows.len() implies (#[trigger] rows[k]).0 != rows[i].0 by {
        assert(t.place(t.rows()[k].0) == k);
    }
    row_is_last(rows, i);
    let fields = saved_fields(inner);
    assert(fields[j].0 == f);
    assert forall|k: int| j < k < fields.len() implies (#[trigger] fields[k]).0 != fields[j].0 by {
        assert(inner.place(inner.rows()[k].0) == k);
    }
    row_is_last(fields, j);
}

/// Indexes that take over what others have saved hold the same documents as those: under
/// every key of a field, and under every word.
pub proof fn import_gives_back_export(a: IndexManager, b: IndexManager, c: IndexManager)
    requires
        a.wf(),
        state_taken(b, c, saved_state(a)),
    ensures
        forall|n: Seq<char>, f: Seq<char>, k: Seq<u8>|
            #![trigger c.secondary_at(n, f)->Some_0.posting(k)]
            a.secondary_at(n, f) is Some && b.secondary_at(n, f) is Some ==> c.secondary_at(n, f) is Some
                && c.secondary_at(n, f)->Some_0.posting(k) == a.secondary_at(n, f)->Some_0.posting(k),
        forall|n: Seq<char>, f: Seq<char>, w: Seq<char>|
            #![trigger c.fts_at(n, f)->Some_0.posting(w)]
            a.fts_at(n, f) is Some && b.fts_at(n, f) is Some ==> c.fts_at(n, f) is Some
                && c.fts_at(n, f)->Some_0.posting(w) == a.fts_at(n, f)->Some_0.posting(w),
{
    assert forall|n: Seq<char>, f: Seq<char>, k: Seq<u8>|
        #![trigger c.secondary_at(n, f)->Some_0.posting(k)]
        a.secondary_at(n, f) is Some && b.secondary_at(n, f) is Some implies c.secondary_at(n, f) is Some
        && c.secondary_at(n, f)->Some_0.posting(k) == a.secondary_at(n, f)->Some_0.posting(k) by {
        saved_row(a.secondary, n, f);
        let x = under(a.secondary, n, f)->Some_0;
        x.rows_hold(k);
        let y = under(c.secondary, n, f)->Some_0;
        assert(holds(y, x.rows()));
        assert(y.held(k) == last_ids(x.rows(), k));
    }
    assert forall|n: Seq<char>, f: Seq<char>, w: Seq<char>|
        #![trigger c.fts_at(n, f)->Some_0.posting(w)]
        a.fts_at(n, f) is Some && b.fts_at(n, f) is Some implies c.fts_at(n, f) is Some
        && c.fts_at(n, f)->Some_0.posting(w) == a.fts_at(n, f)->Some_0.posting(w) by {
        saved_row(a.fts, n, f);
        let x = under(a.fts, n, f)->Some_0;
        x.rows_hold(w);
        let y = under(c.fts, n, f)->Some_0;
        assert(holds(y, x.rows()));
        assert(y.held(w) == last_ids(x.rows(), w));
    }
}

} // verus!
