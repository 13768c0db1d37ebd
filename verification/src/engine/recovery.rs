//! How a store is opened: what is kept of its indexes, and how they and the collections
//! come back.
use vstd::prelude::*;
use vstd::string::*;

use crate::config::HakoConfig;
use crate::directory::NameTable;
use crate::document::firelite_doc::{decode_doc, names_view, Doc, FireLiteDoc};
use crate::engine::catalog::{direction_name, list_fields, listing, name_of_direction};
use crate::engine::engine::Hako;
use crate::engine::files::{file_doc, files_wf, find_read, FileReads};
use crate::engine::marks::listed;
use crate::engine::versions::Clock;
use crate::engine::worker::defs_of;
use crate::index::composite::composite_index::CompositeIndex;
use crate::index::composite::definition::{columns, CompositeField, CompositeIndexDefinition, Definition, SortDirection};
use crate::index::manager::{indexed, IndexManager};
use crate::index::saved_state::{bytes_state, state_taken, State};
use crate::index::storage::index_recovery::{log_entries, replay_log, replayed, valid_len};
use crate::storage::pointer::{place_bytes, Pointer};
use crate::storage::shard::Shard;
use crate::text::chars_of;

verus! {

/// What is kept of a composite index: its number, its collection, and its columns with the
/// names of their directions.
#[derive(Debug)]
pub struct PersistedCompositeIndex {
    pub id: u32,
    pub collection: String,
    pub fields: Vec<(String, String)>,
}

/// What is kept of the indexes of a store: the indexed fields of each collection, and the
/// composite indexes.
#[derive(Debug)]
pub struct PersistedIndexState {
    pub secondary: Vec<(String, Vec<String>)>,
    pub fts: Vec<(String, Vec<String>)>,
    pub composite: Vec<PersistedCompositeIndex>,
}

/// What is kept of a composite index, in full.
pub struct KeptIndex {
    pub id: u32,
    pub collection: Seq<char>,
    pub fields: Seq<(Seq<char>, Seq<char>)>,
}

impl View for PersistedCompositeIndex {
    type V = KeptIndex;

    open spec fn view(&self) -> KeptIndex {
        KeptIndex {
            id: self.id,
            collection: self.collection@,
            fields: Seq::new(self.fields@.len(), |i: int| (self.fields@[i].0@, self.fields@[i].1@)),
        }
    }
}

/// What is kept of a composite index.
pub open spec fn kept_index(d: Definition) -> KeptIndex {
    KeptIndex {
        id: d.id,
        collection: d.collection,
        fields: Seq::new(d.columns.len(), |i: int| (d.columns[i].0, direction_name(d.columns[i].1))),
    }
}

/// Whether a text is `desc`, in small letters or capitals.
pub open spec fn is_desc(s: Seq<char>) -> bool {
    s.len() == 4 && (s[0] == 'd' || s[0] == 'D') && (s[1] == 'e' || s[1] == 'E') && (s[2] == 's' || s[2] == 'S') && (s[3]
        == 'c' || s[3] == 'C')
}

/// The direction with a name: descending for `desc`, and ascending for any other.
pub open spec fn named_direction(s: Seq<char>) -> SortDirection {
    if is_desc(s) {
        SortDirection::Desc
    } else {
        SortDirection::Asc
    }
}

/// The index that is kept.
pub open spec fn definition_of(k: KeptIndex) -> Definition {
    Definition {
        id: k.id,
        collection: k.collection,
        columns: Seq::new(k.fields.len(), |i: int| (k.fields[i].0, named_direction(k.fields[i].1))),
    }
}

/// What is kept of an index gives it back.
pub proof fn kept_index_comes_back(d: Definition)
    ensures
        definition_of(kept_index(d)) == d,
{
    reveal_strlit("asc");
    reveal_strlit("desc");
    assert(definition_of(kept_index(d)).columns =~= d.columns);
}

/// Whether a kept index comes in: it has columns, and a number that is not 0 and not taken.
pub open spec fn comes_in(have: Seq<Definition>, d: Definition) -> bool {
    d.columns.len() > 0 && d.id != 0 && forall|i: int| 0 <= i < have.len() ==> (#[trigger] have[i]).id != d.id
}

/// The highest number that an index has had, once kept ones are added.
pub open spec fn restored_last(have: Seq<Definition>, last: u32, add: Seq<Definition>) -> u32
    decreases add.len(),
{
    if add.len() == 0 {
        last
    } else {
        let before = restored_last(have, last, add.drop_last());
        let d = add.last();
        if comes_in(restored_defs(have, add.drop_last()), d) && d.id > before {
            d.id
        } else {
            before
        }
    }
}

/// The indexes that are there once kept ones are added.
pub open spec fn restored_defs(have: Seq<Definition>, add: Seq<Definition>) -> Seq<Definition>
    decreases add.len(),
{
    if add.len() == 0 {
        have
    } else {
        let before = restored_defs(have, add.drop_last());
        let d = add.last();
        if comes_in(before, d) {
            before.push(d)
        } else {
            before
        }
    }
}

/// The indexes that are kept.
pub open spec fn kept_defs(s: Seq<PersistedCompositeIndex>) -> Seq<Definition> {
    Seq::new(s.len(), |i: int| definition_of(s[i]@))
}

/// Indexes with columns and different numbers all come back into a store without any.
pub proof fn kept_indexes_come_back(defs: Seq<Definition>)
    requires
        forall|i: int| 0 <= i < defs.len() ==> (#[trigger] defs[i]).columns.len() > 0 && defs[i].id != 0,
        forall|i: int, j: int| #![trigger defs[i], defs[j]] 0 <= i < j < defs.len() ==> defs[i].id != defs[j].id,
    ensures
        restored_defs(Seq::empty(), Seq::new(defs.len(), |i: int| definition_of(kept_index(defs[i])))) == defs,
    decreases defs.len(),
{
    let all = Seq::new(defs.len(), |i: int| definition_of(kept_index(defs[i])));
    if defs.len() == 0 {
        assert(defs =~= Seq::<Definition>::empty());
    } else {
        let pre = defs.drop_last();
        assert forall|i: int| 0 <= i < pre.len() implies (#[trigger] pre[i]).columns.len() > 0 && pre[i].id != 0 by {
            assert(pre[i] == defs[i]);
        }
        assert forall|i: int, j: int| #![trigger pre[i], pre[j]] 0 <= i < j < pre.len() implies pre[i].id != pre[j].id by {
            assert(pre[i] == defs[i] && pre[j] == defs[j]);
        }
        kept_indexes_come_back(pre);
        assert(all.drop_last() =~= Seq::new(pre.len(), |i: int| definition_of(kept_index(pre[i]))));
        kept_index_comes_back(defs.last());
        assert(defs[defs.len() - 1] == defs.last());
        assert forall|i: int| 0 <= i < pre.len() implies (#[trigger] pre[i]).id != defs.last().id by {
            assert(pre[i] == defs[i]);
        }
        assert(defs =~= pre.push(defs.last()));
    }
}

/// The direction with a name.
fn direction_of(s: &str) -> (d: SortDirection)
    ensures
        d == named_direction(s@),
{
    let c = chars_of(s);
    if c.len() == 4 && (c[0] == 'd' || c[0] == 'D') && (c[1] == 'e' || c[1] == 'E') && (c[2] == 's' || c[2] == 'S') && (c[3]
        == 'c' || c[3] == 'C') {
        SortDirection::Desc
    } else {
        SortDirection::Asc
    }
}

/// What is to be kept of a composite index.
fn keep_index(def: &CompositeIndexDefinition) -> (k: PersistedCompositeIndex)
    ensures
        k@ == kept_index(def@),
{
    let mut fields: Vec<(String, String)> = Vec::new();
    let mut i: usize = 0;
    while i < def.fields.len()
        invariant
            i <= def.fields@.len(),
            fields@.len() == i,
            forall|k: int|
                0 <= k < i ==> (#[trigger] fields@[k]).0@ == def@.columns[k].0 && fields@[k].1@ == direction_name(
                    def@.columns[k].1,
                ),
        decreases def.fields@.len() - i,
    {
        fields.push((def.fields[i].field.clone(), name_of_direction(&def.fields[i].direction)));
        i = i + 1;
    }
    let k = PersistedCompositeIndex { id: def.id, collection: def.collection.clone(), fields };
    proof {
        assert(k@.fields =~= kept_index(def@).fields);
    }
    k
}

/// What is to be kept of indexes: the fields of each collection, in order, and the composite
/// indexes.
pub open spec fn state_of(mgr: IndexManager, r: PersistedIndexState) -> bool {
    &&& listing(mgr.secondary, None, r.secondary@)
    &&& listing(mgr.fts, None, r.fts@)
    &&& r.composite@.len() == mgr.composite.indexes().len()
    &&& forall|i: int|
        0 <= i < r.composite@.len() ==> (#[trigger] r.composite@[i])@ == kept_index(
            mgr.composite.indexes()[i].definition@,
        )
}

impl Hako {
    /// What is to be kept of the indexes of the store.
    pub fn persist_index_defs(&self) -> (r: PersistedIndexState)
        requires
            self.wf(),
        ensures
            state_of(self.indexes, r),
    {
        index_state(&self.indexes)
    }
}

/// What is to be kept of the indexes of a store.
fn index_state(mgr: &IndexManager) -> (r: PersistedIndexState)
    requires
        mgr.wf(),
    ensures
        state_of(*mgr, r),
{
    let mut composite: Vec<PersistedCompositeIndex> = Vec::new();
    let mut i: usize = 0;
    while i < mgr.composite.len()
        invariant
            i <= mgr.composite.indexes().len(),
            composite@.len() == i,
            forall|k: int|
                0 <= k < i ==> (#[trigger] composite@[k])@ == kept_index(mgr.composite.indexes()[k].definition@),
        decreases mgr.composite.indexes().len() - i,
    {
        composite.push(keep_index(&mgr.composite.index_at(i).definition));
        i = i + 1;
    }
    PersistedIndexState {
        secondary: list_fields(&mgr.secondary, None),
        fts: list_fields(&mgr.fts, None),
        composite,
    }
}

/// Whether a list names a field of a collection.
pub open spec fn names_field(s: Seq<(String, Vec<String>)>, c: Seq<char>, f: Seq<char>) -> bool {
    exists|i: int| 0 <= i < s.len() && (#[trigger] s[i]).0@ == c && names_view(s[i].1@).contains(f)
}

/// `b` are the indexes `a` after kept ones were added: each field that is named has an empty
/// index, and the composite indexes that could be added are there and empty.
pub open spec fn restored(a: IndexManager, b: IndexManager, state: PersistedIndexState) -> bool {
    &&& forall|c: Seq<char>, f: Seq<char>|
        if names_field(state.secondary@, c, f) {
            (#[trigger] b.secondary_at(c, f)) matches Some(x) && forall|k: Seq<u8>| #[trigger]
                x.posting(k) == Set::<Seq<char>>::empty()
        } else {
            b.secondary_at(c, f) == a.secondary_at(c, f)
        }
    &&& forall|c: Seq<char>, f: Seq<char>|
        if names_field(state.fts@, c, f) {
            (#[trigger] b.fts_at(c, f)) matches Some(x) && forall|w: Seq<char>| #[trigger]
                x.posting(w) == Set::<Seq<char>>::empty()
        } else {
            b.fts_at(c, f) == a.fts_at(c, f)
        }
    &&& composite_restored(a.composite.indexes(), b.composite.indexes(), kept_defs(state.composite@))
    &&& b.composite.last_id() == restored_last(
        defs_of(a.composite.indexes()),
        a.composite.last_id(),
        kept_defs(state.composite@),
    )
}

/// `b` are the indexes `a` after kept ones were added, which are empty.
pub open spec fn composite_restored(a: Seq<CompositeIndex>, b: Seq<CompositeIndex>, add: Seq<Definition>) -> bool {
    &&& defs_of(b) == restored_defs(defs_of(a), add)
    &&& a.len() <= b.len()
    &&& b.take(a.len() as int) == a
    &&& forall|i: int| a.len() <= i < b.len() ==> (#[trigger] b[i]).entries() == Map::<Seq<u8>, Seq<char>>::empty()
}

/// Makes an empty index for each field that is named.
fn restore_secondary(mgr: &mut IndexManager, list: &Vec<(String, Vec<String>)>)
    requires
        old(mgr).wf(),
    ensures
        final(mgr).wf(),
        final(mgr).composite == old(mgr).composite,
        final(mgr).fts == old(mgr).fts,
        forall|c: Seq<char>, f: Seq<char>|
            if names_field(list@, c, f) {
                (#[trigger] final(mgr).secondary_at(c, f)) matches Some(x) && forall|k: Seq<u8>| #[trigger]
                    x.posting(k) == Set::<Seq<char>>::empty()
            } else {
                final(mgr).secondary_at(c, f) == old(mgr).secondary_at(c, f)
            },
{
    let mut i: usize = 0;
    while i < list.len()
        invariant
            mgr.wf(),
            i <= list@.len(),
            mgr.composite == old(mgr).composite,
            mgr.fts == old(mgr).fts,
            forall|c: Seq<char>, f: Seq<char>|
                if names_field(list@.take(i as int), c, f) {
                    (#[trigger] mgr.secondary_at(c, f)) matches Some(x) && forall|k: Seq<u8>| #[trigger]
                        x.posting(k) == Set::<Seq<char>>::empty()
                } else {
                    mgr.secondary_at(c, f) == old(mgr).secondary_at(c, f)
                },
        decreases list@.len() - i,
    {
        let ghost col = list@[i as int].0@;
        let ghost fs = names_view(list@[i as int].1@);
        let fields = &list[i].1;
        let mut j: usize = 0;
        while j < fields.len()
            invariant
                mgr.wf(),
                i < list@.len(),
                *fields == list@[i as int].1,
                col == list@[i as int].0@,
                fs == names_view(list@[i as int].1@),
                j <= fields@.len(),
                mgr.composite == old(mgr).composite,
                mgr.fts == old(mgr).fts,
                forall|c: Seq<char>, f: Seq<char>|
                    if names_field(list@.take(i as int), c, f) || c == col && fs.take(j as int).contains(f) {
                        (#[trigger] mgr.secondary_at(c, f)) matches Some(x) && forall|k: Seq<u8>| #[trigger]
                            x.posting(k) == Set::<Seq<char>>::empty()
                    } else {
                        mgr.secondary_at(c, f) == old(mgr).secondary_at(c, f)
                    },
            decreases fields@.len() - j,
        {
            let ghost before = *mgr;
            mgr.create_secondary_index(list[i].0.as_str(), fields[j].as_str());
            proof {
                one_more(fs, j as int);
                assert forall|c: Seq<char>, f: Seq<char>|
                    if names_field(list@.take(i as int), c, f) || c == col && fs.take(j + 1).contains(f) {
                        (#[trigger] mgr.secondary_at(c, f)) matches Some(x) && forall|k: Seq<u8>| #[trigger]
                            x.posting(k) == Set::<Seq<char>>::empty()
                    } else {
                        mgr.secondary_at(c, f) == old(mgr).secondary_at(c, f)
                    } by {
                    assert(fs.take(j + 1).contains(f) <==> fs.take(j as int).contains(f) || f == fs[j as int]);
                    if c != col || f != fs[j as int] {
                        assert(mgr.secondary_at(c, f) == before.secondary_at(c, f));
                    }
                }
            }
            j = j + 1;
        }
        proof {
            assert(fs.take(j as int) =~= fs);
            assert forall|c: Seq<char>, f: Seq<char>|
                if names_field(list@.take(i + 1), c, f) {
                    (#[trigger] mgr.secondary_at(c, f)) matches Some(x) && forall|k: Seq<u8>| #[trigger]
                        x.posting(k) == Set::<Seq<char>>::empty()
                } else {
                    mgr.secondary_at(c, f) == old(mgr).secondary_at(c, f)
                } by {
                one_more_list(list@, i as int, c, f);
            }
        }
        i = i + 1;
    }
    proof {
        assert(list@.take(i as int) =~= list@);
    }
}

/// What the first of some names hold with one more.
proof fn one_more(fs: Seq<Seq<char>>, j: int)
    requires
        0 <= j < fs.len(),
    ensures
        forall|f: Seq<char>| #[trigger] fs.take(j + 1).contains(f) <==> fs.take(j).contains(f) || f == fs[j],
{
    assert(fs.take(j + 1) =~= fs.take(j).push(fs[j]));
    assert forall|f: Seq<char>| #[trigger] fs.take(j + 1).contains(f) <==> fs.take(j).contains(f) || f == fs[j] by {
        if fs.take(j).contains(f) {
            let k = choose|k: int| 0 <= k < j && fs.take(j)[k] == f;
            assert(fs.take(j + 1)[k] == f);
        }
        if f == fs[j] {
            assert(fs.take(j + 1)[j] == f);
        }
        if fs.take(j + 1).contains(f) && f != fs[j] {
            let t = fs.take(j + 1);
            let k = choose|k: int| 0 <= k < t.len() && t[k] == f;
            assert(fs.take(j)[k] == f);
        }
    }
}

/// What the first of some lists name with one more.
proof fn one_more_list(s: Seq<(String, Vec<String>)>, i: int, c: Seq<char>, f: Seq<char>)
    requires
        0 <= i < s.len(),
    ensures
        names_field(s.take(i + 1), c, f) <==> names_field(s.take(i), c, f) || c == s[i].0@ && names_view(s[i].1@).contains(
            f,
        ),
{
    let (a, b) = (s.take(i), s.take(i + 1));
    if names_field(a, c, f) {
        let k = choose|k: int| 0 <= k < a.len() && (#[trigger] a[k]).0@ == c && names_view(a[k].1@).contains(f);
        assert(b[k] == a[k]);
    }
    if c == s[i].0@ && names_view(s[i].1@).contains(f) {
        assert(b[i] == s[i]);
    }
    if names_field(b, c, f) {
        let k = choose|k: int| 0 <= k < b.len() && (#[trigger] b[k]).0@ == c && names_view(b[k].1@).contains(f);
        if k < i {
            assert(a[k] == b[k]);
        }
    }
}

/// Makes an empty full-text index for each field that is named.
fn restore_fts(mgr: &mut IndexManager, list: &Vec<(String, Vec<String>)>)
    requires
        old(mgr).wf(),
    ensures
        final(mgr).wf(),
        final(mgr).composite == old(mgr).composite,
        final(mgr).secondary == old(mgr).secondary,
        forall|c: Seq<char>, f: Seq<char>|
            if names_field(list@, c, f) {
                (#[trigger] final(mgr).fts_at(c, f)) matches Some(x) && forall|w: Seq<char>| #[trigger]
                    x.posting(w) == Set::<Seq<char>>::empty()
            } else {
                final(mgr).fts_at(c, f) == old(mgr).fts_at(c, f)
            },
{
    let mut i: usize = 0;
    while i < list.len()
        invariant
            mgr.wf(),
            i <= list@.len(),
            mgr.composite == old(mgr).composite,
            mgr.secondary == old(mgr).secondary,
            forall|c: Seq<char>, f: Seq<char>|
                if names_field(list@.take(i as int), c, f) {
                    (#[trigger] mgr.fts_at(c, f)) matches Some(x) && forall|w: Seq<char>| #[trigger]
                        x.posting(w) == Set::<Seq<char>>::empty()
                } else {
                    mgr.fts_at(c, f) == old(mgr).fts_at(c, f)
                },
        decreases list@.len() - i,
    {
        let ghost col = list@[i as int].0@;
        let ghost fs = names_view(list@[i as int].1@);
        let fields = &list[i].1;
        let mut j: usize = 0;
        while j < fields.len()
            invariant
                mgr.wf(),
                i < list@.len(),
                *fields == list@[i as int].1,
                col == list@[i as int].0@,
                fs == names_view(list@[i as int].1@),
                j <= fields@.len(),
                mgr.composite == old(mgr).composite,
                mgr.secondary == old(mgr).secondary,
                forall|c: Seq<char>, f: Seq<char>|
                    if names_field(list@.take(i as int), c, f) || c == col && fs.take(j as int).contains(f) {
                        (#[trigger] mgr.fts_at(c, f)) matches Some(x) && forall|w: Seq<char>| #[trigger]
                            x.posting(w) == Set::<Seq<char>>::empty()
                    } else {
                        mgr.fts_at(c, f) == old(mgr).fts_at(c, f)
                    },
            decreases fields@.len() - j,
        {
            let ghost before = *mgr;
            mgr.create_fts_index(list[i].0.as_str(), fields[j].as_str());
            proof {
                one_more(fs, j as int);
                assert forall|c: Seq<char>, f: Seq<char>|
                    if names_field(list@.take(i as int), c, f) || c == col && fs.take(j + 1).contains(f) {
                        (#[trigger] mgr.fts_at(c, f)) matches Some(x) && forall|w: Seq<char>| #[trigger]
                            x.posting(w) == Set::<Seq<char>>::empty()
                    } else {
                        mgr.fts_at(c, f) == old(mgr).fts_at(c, f)
                    } by {
                    assert(fs.take(j + 1).contains(f) <==> fs.take(j as int).contains(f) || f == fs[j as int]);
                    if c != col || f != fs[j as int] {
                        assert(mgr.fts_at(c, f) == before.fts_at(c, f));
                    }
                }
            }
            j = j + 1;
        }
        proof {
            assert(fs.take(j as int) =~= fs);
            assert forall|c: Seq<char>, f: Seq<char>|
                if names_field(list@.take(i + 1), c, f) {
                    (#[trigger] mgr.fts_at(c, f)) matches Some(x) && forall|w: Seq<char>| #[trigger]
                        x.posting(w) == Set::<Seq<char>>::empty()
                } else {
                    mgr.fts_at(c, f) == old(mgr).fts_at(c, f)
                } by {
                one_more_list(list@, i as int, c, f);
            }
        }
        i = i + 1;
    }
    proof {
        assert(list@.take(i as int) =~= list@);
    }
}

/// The index that is kept.
fn revive(k: &PersistedCompositeIndex) -> (d: CompositeIndexDefinition)
    ensures
        d@ == definition_of(k@),
{
    let mut fields: Vec<CompositeField> = Vec::new();
    let mut i: usize = 0;
    while i < k.fields.len()
        invariant
            i <= k.fields@.len(),
            fields@.len() == i,
            forall|j: int|
                0 <= j < i ==> (#[trigger] fields@[j]).field@ == k@.fields[j].0 && fields@[j].direction == named_direction(
                    k@.fields[j].1,
                ),
        decreases k.fields@.len() - i,
    {
        fields.push(
            CompositeField { field: k.fields[i].0.clone(), direction: direction_of(k.fields[i].1.as_str()) },
        );
        i = i + 1;
    }
    let d = CompositeIndexDefinition { id: k.id, collection: k.collection.clone(), fields };
    proof {
        assert(d@.columns =~= definition_of(k@).columns);
    }
    d
}

/// Adds the composite indexes that are kept.
fn restore_composite(mgr: &mut IndexManager, list: &Vec<PersistedCompositeIndex>)
    requires
        old(mgr).wf(),
    ensures
        final(mgr).wf(),
        final(mgr).secondary == old(mgr).secondary,
        final(mgr).fts == old(mgr).fts,
        composite_restored(old(mgr).composite.indexes(), final(mgr).composite.indexes(), kept_defs(list@)),
        final(mgr).composite.last_id() == restored_last(
            defs_of(old(mgr).composite.indexes()),
            old(mgr).composite.last_id(),
            kept_defs(list@),
        ),
{
    let ghost a = mgr.composite.indexes();
    let ghost last = mgr.composite.last_id();
    let ghost add = kept_defs(list@);
    let mut i: usize = 0;
    proof {
        assert(add.take(0) =~= Seq::<Definition>::empty());
        assert(a.take(a.len() as int) =~= a);
    }
    while i < list.len()
        invariant
            mgr.wf(),
            i <= list@.len(),
            a == old(mgr).composite.indexes(),
            last == old(mgr).composite.last_id(),
            add == kept_defs(list@),
            mgr.composite.last_id() == restored_last(defs_of(a), last, add.take(i as int)),
            mgr.secondary == old(mgr).secondary,
            mgr.fts == old(mgr).fts,
            composite_restored(a, mgr.composite.indexes(), add.take(i as int)),
        decreases list@.len() - i,
    {
        let ghost b = mgr.composite.indexes();
        proof {
            assert(add.take(i + 1).drop_last() =~= add.take(i as int));
            assert(add.take(i + 1).last() == definition_of(list@[i as int]@));
            assert forall|k: int| 0 <= k < b.len() implies (#[trigger] defs_of(b)[k]).id == b[k].definition.id by {}
        }
        if list[i].fields.len() > 0 {
            let def = revive(&list[i]);
            let ghost d = def@;
            let done = mgr.composite.restore_index(def);
            proof {
                let c = mgr.composite.indexes();
                if done {
                    assert(c =~= b.push(c.last()));
                    assert(defs_of(c) =~= defs_of(b).push(d));
                    assert(c.take(a.len() as int) =~= b.take(a.len() as int));
                    assert forall|k: int| 0 <= k < defs_of(b).len() implies (#[trigger] defs_of(b)[k]).id != d.id by {
                        assert(b[k].definition.id != d.id);
                    }
                } else if d.id != 0 {
                    let k = choose|k: int| 0 <= k < b.len() && (#[trigger] b[k]).definition.id == d.id;
                    assert(defs_of(b)[k].id == d.id);
                }
            }
        } else {
            proof {
                assert(definition_of(list@[i as int]@).columns.len() == 0);
            }
        }
        i = i + 1;
    }
    proof {
        assert(add.take(i as int) =~= add);
    }
}

/// Adds the indexes that are kept.
pub fn restore_index_defs(mgr: &mut IndexManager, state: &PersistedIndexState)
    requires
        old(mgr).wf(),
    ensures
        final(mgr).wf(),
        restored(*old(mgr), *final(mgr), *state),
{
    let ghost a = *mgr;
    restore_secondary(mgr, &state.secondary);
    let ghost b = *mgr;
    restore_fts(mgr, &state.fts);
    let ghost c = *mgr;
    restore_composite(mgr, &state.composite);
    proof {
        let d = *mgr;
        assert forall|x: Seq<char>, f: Seq<char>|
            if names_field(state.secondary@, x, f) {
                (#[trigger] d.secondary_at(x, f)) matches Some(i) && forall|k: Seq<u8>| #[trigger]
                    i.posting(k) == Set::<Seq<char>>::empty()
            } else {
                d.secondary_at(x, f) == a.secondary_at(x, f)
            } by {
            assert(d.secondary_at(x, f) == b.secondary_at(x, f));
        }
        assert forall|x: Seq<char>, f: Seq<char>|
            if names_field(state.fts@, x, f) {
                (#[trigger] d.fts_at(x, f)) matches Some(i) && forall|w: Seq<char>| #[trigger]
                    i.posting(w) == Set::<Seq<char>>::empty()
            } else {
                d.fts_at(x, f) == a.fts_at(x, f)
            } by {
            assert(d.fts_at(x, f) == c.fts_at(x, f));
            assert(b.fts_at(x, f) == a.fts_at(x, f));
        }
    }
}

/// A collection that was found on disk.
pub struct FoundShard {
    pub name: String,
    pub shard: Shard,
}

/// The documents of the first entries of a collection, as they are stored.
pub open spec fn entry_docs(
    entries: Seq<(Seq<char>, Pointer)>,
    files: Map<Seq<char>, FileReads>,
    c: Seq<char>,
) -> Seq<(Seq<char>, Seq<char>, Doc)>
    decreases entries.len(),
{
    if entries.len() == 0 {
        Seq::empty()
    } else {
        let before = entry_docs(entries.drop_last(), files, c);
        let e = entries.last();
        match place_bytes(e.1@, file_doc(files, c, e.0)) {
            Some(b) => match decode_doc(b) {
                Some(d) => before.push((c, e.0, d)),
                None => before,
            },
            None => before,
        }
    }
}

/// The documents of collections that were found, as they are stored.
pub open spec fn found_docs(found: Seq<FoundShard>, files: Map<Seq<char>, FileReads>) -> Seq<
    (Seq<char>, Seq<char>, Doc),
>
    decreases found.len(),
{
    if found.len() == 0 {
        Seq::empty()
    } else {
        found_docs(found.drop_last(), files) + entry_docs(found.last().shard.index.seq(), files, found.last().name@)
    }
}

/// A chain of states of the indexes, each with one document more.
pub open spec fn rebuild_steps(steps: Seq<IndexManager>, docs: Seq<(Seq<char>, Seq<char>, Doc)>) -> bool {
    &&& steps.len() == docs.len() + 1
    &&& forall|k: int|
        0 <= k < docs.len() ==> indexed(#[trigger] steps[k], steps[k + 1], true, docs[k].0, docs[k].1, docs[k].2)
}

/// `b` are the indexes `a` with documents put in.
pub open spec fn rebuilt(a: IndexManager, b: IndexManager, docs: Seq<(Seq<char>, Seq<char>, Doc)>) -> bool {
    exists|steps: Seq<IndexManager>| #[trigger]
        rebuild_steps(steps, docs) && steps[0] == a && steps[docs.len() as int] == b
}

/// More documents after documents.
proof fn rebuilt_more(
    a: IndexManager,
    b: IndexManager,
    c: IndexManager,
    docs: Seq<(Seq<char>, Seq<char>, Doc)>,
    x: Seq<char>,
    id: Seq<char>,
    d: Doc,
)
    requires
        rebuilt(a, b, docs),
        indexed(b, c, true, x, id, d),
    ensures
        rebuilt(a, c, docs.push((x, id, d))),
{
    let steps = choose|steps: Seq<IndexManager>| #[trigger]
        rebuild_steps(steps, docs) && steps[0] == a && steps[docs.len() as int] == b;
    let more = steps.push(c);
    let ds = docs.push((x, id, d));
    assert forall|k: int| 0 <= k < ds.len() implies indexed(
        #[trigger] more[k],
        more[k + 1],
        true,
        ds[k].0,
        ds[k].1,
        ds[k].2,
    ) by {
        assert(more[k] == steps[k]);
        if k < docs.len() {
            assert(more[k + 1] == steps[k + 1]);
            assert(ds[k] == docs[k]);
        }
    }
    assert(rebuild_steps(more, ds));
}

/// Puts the documents of a collection into its indexes.
fn rebuild(mgr: &mut IndexManager, found: &FoundShard, files: &NameTable<FileReads>, Ghost(first): Ghost<IndexManager>, Ghost(docs): Ghost<Seq<(Seq<char>, Seq<char>, Doc)>>)
    requires
        old(mgr).wf(),
        files_wf(*files),
        rebuilt(first, *old(mgr), docs),
    ensures
        final(mgr).wf(),
        rebuilt(first, *final(mgr), docs + entry_docs(found.shard.index.seq(), files@, found.name@)),
{
    let ghost s = found.shard.index.seq();
    let ghost c = found.name@;
    let mut i: usize = 0;
    proof {
        assert(s.take(0) =~= Seq::<(Seq<char>, Pointer)>::empty());
        assert(docs + Seq::<(Seq<char>, Seq<char>, Doc)>::empty() =~= docs);
    }
    while i < found.shard.index.len()
        invariant
            mgr.wf(),
            files_wf(*files),
            s == found.shard.index.seq(),
            c == found.name@,
            i <= s.len(),
            rebuilt(first, *mgr, docs + entry_docs(s.take(i as int), files@, c)),
        decreases s.len() - i,
    {
        proof {
            assert(s.take(i + 1).drop_last() =~= s.take(i as int));
            assert(s.take(i + 1).last() == s[i as int]);
        }
        let ghost before = *mgr;
        let ghost had = entry_docs(s.take(i as int), files@, c);
        let (k, p) = found.shard.index.entry(i);
        if let Some(b) = p.bytes(find_read(files, found.name.as_str(), k)) {
            if let Some(d) = FireLiteDoc::decode(b.as_slice()) {
                mgr.index_document(found.name.as_str(), k.as_str(), &d);
                proof {
                    rebuilt_more(first, before, *mgr, docs + had, c, s[i as int].0, d@);
                    assert((docs + had).push((c, s[i as int].0, d@)) =~= docs + had.push((c, s[i as int].0, d@)));
                }
            }
        }
        i = i + 1;
    }
    proof {
        assert(s.take(i as int) =~= s);
    }
}

/// The first collection with a name among those that were found.
pub open spec fn first_found(found: Seq<FoundShard>, c: Seq<char>) -> Option<Shard>
    decreases found.len(),
{
    if found.len() == 0 {
        None
    } else {
        match first_found(found.drop_last(), c) {
            Some(s) => Some(s),
            None => if found.last().name@ == c {
                Some(found.last().shard)
            } else {
                None
            },
        }
    }
}

/// The collections after those that were found are taken over: one that is there stays.
pub open spec fn adopted(a: Map<Seq<char>, Shard>, b: Map<Seq<char>, Shard>, found: Seq<FoundShard>) -> bool {
    &&& forall|c: Seq<char>| #[trigger] b.contains_key(c) <==> a.contains_key(c) || first_found(found, c) is Some
    &&& forall|c: Seq<char>| #[trigger]
        b.contains_key(c) ==> b[c] == if a.contains_key(c) {
            a[c]
        } else {
            first_found(found, c)->Some_0
        }
}

/// `b` are the indexes `a` as they come back: from a snapshot, or else from the documents
/// that were found; and then the composite ones by their log.
pub open spec fn indexes_recovered(
    a: IndexManager,
    b: IndexManager,
    snapshot: Option<Seq<u8>>,
    docs: Seq<(Seq<char>, Seq<char>, Doc)>,
    log: Seq<u8>,
) -> bool {
    exists|m: IndexManager| #[trigger]
        indexes_filled(a, m, snapshot, docs) && b.secondary == m.secondary && b.fts == m.fts && replayed(
            m.composite.indexes(),
            b.composite.indexes(),
            log_entries(log),
        ) && b.composite.last_id() == m.composite.last_id()
}

/// The state that a snapshot holds; none where there is no snapshot, or it holds none.
pub open spec fn read_back(snapshot: Option<Seq<u8>>) -> Option<State> {
    match snapshot {
        Some(b) => bytes_state(b),
        None => None,
    }
}

/// The bytes that there may be.
pub open spec fn bytes_view(b: Option<&[u8]>) -> Option<Seq<u8>> {
    match b {
        Some(s) => Some(s@),
        None => None,
    }
}

/// `m` are the indexes `a` from a snapshot, or else from documents.
pub open spec fn indexes_filled(
    a: IndexManager,
    m: IndexManager,
    snapshot: Option<Seq<u8>>,
    docs: Seq<(Seq<char>, Seq<char>, Doc)>,
) -> bool {
    match read_back(snapshot) {
        Some(s) => state_taken(a, m, s),
        None => rebuilt(a, m, docs),
    }
}

/// A store that was opened with the given settings, with what is kept of its indexes and of
/// what stays on this device.
pub open spec fn opened_with(
    db: Hako,
    config: HakoConfig,
    defs: Option<&PersistedIndexState>,
    marks: Option<&FireLiteDoc>,
) -> bool {
    &&& db.wf()
    &&& db.config == config
    &&& !db.indexes_ready
    &&& db.shards@ == Map::<Seq<char>, Shard>::empty()
    &&& db.versions@ == (Clock { of: Map::<Seq<char>, u64>::empty(), next: 1 })
    &&& db.doc_cache@ == Map::<Seq<char>, (u64, FireLiteDoc)>::empty()
    &&& db.security_rules@.len() == 0
    &&& db.audit_data@.len() == 0
    &&& db.id_sequence == 0
    &&& defs is Some ==> exists|none: IndexManager| #[trigger]
        no_indexes(none) && restored(none, db.indexes, *defs->Some_0)
    &&& defs is None ==> no_indexes(db.indexes)
    &&& db.marks@.collections == (match marks {
        Some(d) => listed(d@, "cols"@),
        None => Set::<Seq<char>>::empty(),
    })
    &&& db.marks@.documents == (match marks {
        Some(d) => listed(d@, "keys"@),
        None => Set::<Seq<char>>::empty(),
    })
}

impl Hako {
    /// Opens a store: its settings, what is kept of its indexes, and the document that keeps
    /// the marks of what stays on this device. Its collections come back by `recover`.
    pub fn open(config: HakoConfig, defs: Option<&PersistedIndexState>, marks: Option<&FireLiteDoc>) -> (db: Hako)
        ensures
            opened_with(db, config, defs, marks),
    {
        let mut db = Hako::new(config);
        db.indexes = IndexManager::default();
        let ghost none = db.indexes;
        proof {
            assert(no_indexes(none));
        }
        if let Some(state) = defs {
            restore_index_defs(&mut db.indexes, state);
        }
        if let Some(doc) = marks {
            db.restore_local_only(doc);
        }
        proof {
            if let Some(doc) = marks {
                assert(Set::<Seq<char>>::empty().union(listed(doc@, "cols"@)) =~= listed(doc@, "cols"@));
                assert(Set::<Seq<char>>::empty().union(listed(doc@, "keys"@)) =~= listed(doc@, "keys"@));
            }
        }
        db
    }

    /// Brings the collections and the indexes back. `snapshot` is that of the indexes, where
    /// it could be read; `found` are the collections on disk, `files` what was read for
    /// their documents that lie in files, and `index_log` the log of the composite indexes.
    /// Hands back the length to which that log is to be cut.
    pub fn recover(
        &mut self,
        snapshot: Option<&[u8]>,
        found: Vec<FoundShard>,
        files: &NameTable<FileReads>,
        index_log: &[u8],
    ) -> (end: usize)
        requires
            old(self).wf(),
            files_wf(*files),
            forall|i: int| 0 <= i < found@.len() ==> (#[trigger] found@[i]).shard.wf(),
        ensures
            final(self).wf(),
            final(self).config == old(self).config,
            final(self).security_rules == old(self).security_rules,
            final(self).marks == old(self).marks,
            final(self).versions == old(self).versions,
            final(self).audit_data == old(self).audit_data,
            final(self).doc_cache == old(self).doc_cache,
            final(self).id_sequence == old(self).id_sequence,
            final(self).indexes_ready,
            adopted(old(self).shards@, final(self).shards@, found@),
            indexes_recovered(
                old(self).indexes,
                final(self).indexes,
                bytes_view(snapshot),
                found_docs(found@, files@),
                index_log@,
            ),
            end == valid_len(index_log@),
    {
        let ghost first = self.indexes;
        let ghost all = found@;
        let loaded: bool = match snapshot {
            Some(bytes) => self.indexes.import_state(bytes).is_ok(),
            None => false,
        };
        let ghost begun = self.indexes;
        let mut left = found;
        let mut order: Vec<FoundShard> = Vec::new();
        while left.len() > 0
            invariant
                left@.len() + order@.len() == all.len(),
                left@ == all.take(left@.len() as int),
                forall|k: int| 0 <= k < order@.len() ==> #[trigger] order@[k] == all[all.len() - 1 - k],
            decreases left@.len(),
        {
            let last: usize = left.len() - 1;
            let f = left.remove(last);
            order.push(f);
            proof {
                assert(left@ =~= all.take(left@.len() as int));
            }
        }
        let ghost mut k: int = 0;
        proof {
            assert(all.take(0) =~= Seq::<FoundShard>::empty());
            if !loaded {
                assert(rebuild_steps(seq![begun], Seq::<(Seq<char>, Seq<char>, Doc)>::empty()));
            }
        }
        while order.len() > 0
            invariant
                self.wf(),
                files_wf(*files),
                0 <= k,
                k + order@.len() == all.len(),
                forall|i: int| 0 <= i < order@.len() ==> #[trigger] order@[i] == all[all.len() - 1 - i],
                forall|i: int| 0 <= i < all.len() ==> (#[trigger] all[i]).shard.wf(),
                self.config == old(self).config,
                self.security_rules == old(self).security_rules,
                self.marks == old(self).marks,
                self.versions == old(self).versions,
                self.audit_data == old(self).audit_data,
                self.doc_cache == old(self).doc_cache,
                self.id_sequence == old(self).id_sequence,
                adopted(old(self).shards@, self.shards@, all.take(k)),
                loaded ==> self.indexes == begun,
                !loaded ==> rebuilt(begun, self.indexes, found_docs(all.take(k), files@)),
            decreases order@.len(),
        {
            let last: usize = order.len() - 1;
            let ghost whole = order@;
            let f = order.remove(last);
            proof {
                assert(whole[last as int] == all[k]);
                assert(f == all[k]);
                assert(all.take(k + 1).drop_last() =~= all.take(k));
                assert(all.take(k + 1).last() == all[k]);
            }
            if !loaded {
                rebuild(&mut self.indexes, &f, files, Ghost(begun), Ghost(found_docs(all.take(k), files@)));
            }
            let ghost before = self.shards@;
            let ghost name = f.name@;
            proof {
                self.shards.place_facts();
            }
            if self.shards.find(f.name.as_str()).is_none() {
                self.shards.push(f.name, f.shard);
                proof {
                    assert(!before.contains_key(name));
                    assert(self.shards@ == before.insert(name, f.shard));
                }
            }
            proof {
                let a = old(self).shards@;
                let b = self.shards@;
                assert forall|c: Seq<char>| #[trigger] b.contains_key(c) <==> a.contains_key(c) || first_found(
                    all.take(k + 1),
                    c,
                ) is Some by {
                    assert(before.contains_key(c) <==> a.contains_key(c) || first_found(all.take(k), c) is Some);
                }
                assert forall|c: Seq<char>| #[trigger] b.contains_key(c) implies b[c] == (if a.contains_key(c) {
                    a[c]
                } else {
                    first_found(all.take(k + 1), c)->Some_0
                }) by {
                    assert(before.contains_key(c) <==> a.contains_key(c) || first_found(all.take(k), c) is Some);
                }
                k = k + 1;
            }
        }
        let ghost filled = self.indexes;
        let end = replay_log(index_log, &mut self.indexes.composite);
        self.indexes_ready = true;
        proof {
            assert(all.take(k) =~= all);
            assert(indexes_filled(first, filled, bytes_view(snapshot), found_docs(all, files@)));
        }
        end
    }
}

/// There are no indexes.
pub open spec fn no_indexes(m: IndexManager) -> bool {
    &&& m.composite.indexes().len() == 0
    &&& m.composite.last_id() == 0
    &&& forall|c: Seq<char>, f: Seq<char>| (#[trigger] m.secondary_at(c, f)) is None
    &&& forall|c: Seq<char>, f: Seq<char>| (#[trigger] m.fts_at(c, f)) is None
}

} // verus!
