//! The indexes of a store: which there are, how they are made and filled, and what is kept
//! of them.
use vstd::prelude::*;
use vstd::string::*;
use vstd::utf8::encode_utf8;

use crate::directory::NameTable;
use crate::document::firelite_doc::{decode_doc, names_view, Doc, FireLiteDoc};
use crate::document::value::{parts_view, Value};
use crate::engine::engine::{opened, Hako};
use crate::engine::types::{CompositeIndexFieldInfo, CompositeIndexInfo, IndexList};
use crate::engine::write::table_names;
use crate::index::composite::composite_index::{
    docs_view, document_key, with_documents, CompositeIndex,
};
use crate::index::composite::definition::{
    columns, pairs, CompositeIndexDefinition, Definition, SortDirection,
};
use crate::index::composite::key_encoder::{encode_composite_key, key_slice};
use crate::index::composite::manager::CompositeIndexManager;
use crate::index::manager::{fts_filled, secondary_filled, tables_wf};
use crate::index::service::IndexingService;
use crate::index::storage::index_log::{encode_entry, record_bytes, INSERT};
use crate::order::Order;
use crate::sorted_map::{key_lt, key_order_total, key_order_trans, SortedMap};
use crate::storage::blob::{attempted_doc, resolve_doc, works_view, Work};
use crate::storage::shard::Shard;
use crate::text::{compare_text, same_text};
use crate::util::sort::{sort_texts, sorted_from};

verus! {

/// Whether a name is the one that is asked for, if one is.
pub open spec fn asked(only: Option<Seq<char>>, name: Seq<char>) -> bool {
    match only {
        Some(n) => n == name,
        None => true,
    }
}

/// The view of an optional name.
pub open spec fn opt_text(s: Option<&str>) -> Option<Seq<char>> {
    match s {
        Some(t) => Some(t@),
        None => None,
    }
}

/// The collections of a table that are asked for, each once, with the names under it in
/// order.
pub open spec fn listing<T>(
    t: NameTable<NameTable<T>>,
    only: Option<Seq<char>>,
    out: Seq<(String, Vec<String>)>,
) -> bool {
    &&& forall|i: int, j: int| #![trigger out[i], out[j]] 0 <= i < j < out.len() ==> out[i].0@ != out[j].0@
    &&& forall|i: int|
        0 <= i < out.len() ==> t@.contains_key((#[trigger] out[i]).0@) && asked(only, out[i].0@) && sorted_from(
            names_view(out[i].1@),
            table_names(t@[out[i].0@]),
        )
    &&& forall|c: Seq<char>| #[trigger]
        t@.contains_key(c) && asked(only, c) ==> exists|i: int| 0 <= i < out.len() && (#[trigger] out[i]).0@ == c
}

/// The names in a table, in order.
fn sorted_names<T>(t: &NameTable<T>) -> (r: Vec<String>)
    ensures
        sorted_from(names_view(r@), table_names(*t)),
{
    let mut v: Vec<String> = Vec::new();
    let mut i: usize = 0;
    while i < t.len()
        invariant
            i <= t.rows().len(),
            v@.len() == i,
            forall|k: int| 0 <= k < i ==> (#[trigger] v@[k])@ == t.rows()[k].0,
        decreases t.rows().len() - i,
    {
        v.push(t.name(i).clone());
        i = i + 1;
    }
    proof {
        assert(names_view(v@) =~= table_names(*t));
    }
    sort_texts(&v)
}

/// The collections of a table that are asked for, with the names under each in order.
pub fn list_fields<T>(t: &NameTable<NameTable<T>>, only: Option<&str>) -> (out: Vec<(String, Vec<String>)>)
    requires
        tables_wf(*t),
    ensures
        listing(*t, opt_text(only), out@),
{
    let ghost o = opt_text(only);
    let mut out: Vec<(String, Vec<String>)> = Vec::new();
    let mut i: usize = 0;
    proof {
        t.place_facts();
    }
    while i < t.len()
        invariant
            tables_wf(*t),
            o == opt_text(only),
            i <= t.rows().len(),
            forall|k: int| 0 <= k < t.rows().len() ==> t.place(#[trigger] t.rows()[k].0) == k && t.has(t.rows()[k].0),
            forall|a: int, b: int| #![trigger out@[a], out@[b]] 0 <= a < b < out@.len() ==> out@[a].0@ != out@[b].0@,
            forall|a: int|
                0 <= a < out@.len() ==> t@.contains_key((#[trigger] out@[a]).0@) && asked(o, out@[a].0@) && sorted_from(
                    names_view(out@[a].1@),
                    table_names(t@[out@[a].0@]),
                ) && t.place(out@[a].0@) < i,
            forall|k: int|
                0 <= k < i && asked(o, #[trigger] t.rows()[k].0) ==> exists|a: int|
                    0 <= a < out@.len() && (#[trigger] out@[a]).0@ == t.rows()[k].0,
        decreases t.rows().len() - i,
    {
        let name = t.name(i);
        let ghost n = name@;
        let wanted: bool = match only {
            Some(x) => same_text(x, name.as_str()),
            None => true,
        };
        let ghost before = out@;
        proof {
            assert(t.place(t.rows()[i as int].0) == i);
            assert(t@.contains_key(n));
        }
        if wanted {
            let fields = sorted_names(t.thing(i));
            out.push((name.clone(), fields));
            proof {
                assert(t@[n] == t.rows()[i as int].1);
                assert forall|a: int, b: int| #![trigger out@[a], out@[b]] 0 <= a < b < out@.len() implies out@[a].0@
                    != out@[b].0@ by {
                    assert(out@[a] == before[a]);
                    if b < before.len() {
                        assert(out@[b] == before[b]);
                    } else {
                        assert(t.place(before[a].0@) < i);
                    }
                }
                assert(out@[before.len() as int].0@ == n);
            }
        }
        proof {
            assert forall|k: int| 0 <= k < i + 1 && asked(o, #[trigger] t.rows()[k].0) implies exists|a: int|
                0 <= a < out@.len() && (#[trigger] out@[a]).0@ == t.rows()[k].0 by {
                if k < i {
                    let a = choose|a: int| 0 <= a < before.len() && (#[trigger] before[a]).0@ == t.rows()[k].0;
                    assert(out@[a] == before[a]);
                } else {
                    assert(out@[before.len() as int].0@ == n);
                }
            }
            assert forall|a: int| 0 <= a < out@.len() implies t@.contains_key((#[trigger] out@[a]).0@) && asked(
                o,
                out@[a].0@,
            ) && sorted_from(names_view(out@[a].1@), table_names(t@[out@[a].0@])) && t.place(out@[a].0@) < i + 1 by {
                if a < before.len() {
                    assert(out@[a] == before[a]);
                }
            }
        }
        i = i + 1;
    }
    proof {
        t.place_facts();
        assert forall|c: Seq<char>| #[trigger] t@.contains_key(c) && asked(o, c) implies exists|a: int|
            0 <= a < out@.len() && (#[trigger] out@[a]).0@ == c by {
            assert(t.has(c));
            assert(t.rows()[t.place(c)].0 == c);
        }
    }
    out
}

/// The name of a direction.
pub open spec fn direction_name(d: SortDirection) -> Seq<char> {
    match d {
        SortDirection::Asc => "asc"@,
        SortDirection::Desc => "desc"@,
    }
}

/// The name of a direction.
pub fn name_of_direction(d: &SortDirection) -> (s: String)
    ensures
        s@ == direction_name(*d),
{
    match d {
        SortDirection::Asc => "asc".to_owned(),
        SortDirection::Desc => "desc".to_owned(),
    }
}

/// An entry of a listing tells of an index.
pub open spec fn info_is(info: CompositeIndexInfo, d: Definition) -> bool {
    &&& info.id == d.id
    &&& info.collection@ == d.collection
    &&& info.fields@.len() == d.columns.len()
    &&& forall|i: int|
        0 <= i < d.columns.len() ==> (#[trigger] info.fields@[i]).field@ == d.columns[i].0 && info.fields@[i].direction@
            == direction_name(d.columns[i].1)
}

/// The entry for an index.
fn info_of(def: &CompositeIndexDefinition) -> (info: CompositeIndexInfo)
    ensures
        info_is(info, def@),
{
    let mut fields: Vec<CompositeIndexFieldInfo> = Vec::new();
    let mut i: usize = 0;
    while i < def.fields.len()
        invariant
            i <= def.fields@.len(),
            fields@.len() == i,
            forall|k: int|
                0 <= k < i ==> (#[trigger] fields@[k]).field@ == def@.columns[k].0 && fields@[k].direction@ == direction_name(
                    def@.columns[k].1,
                ),
        decreases def.fields@.len() - i,
    {
        fields.push(
            CompositeIndexFieldInfo {
                field: def.fields[i].field.clone(),
                direction: name_of_direction(&def.fields[i].direction),
            },
        );
        i = i + 1;
    }
    CompositeIndexInfo { id: def.id, collection: def.collection.clone(), fields }
}

/// Whether an entry comes before another: by collection, then by number.
pub open spec fn info_lt(a: CompositeIndexInfo, b: CompositeIndexInfo) -> bool {
    key_lt::<String>(a.collection@, b.collection@) || a.collection@ == b.collection@ && a.id < b.id
}

proof fn info_lt_trans(a: CompositeIndexInfo, b: CompositeIndexInfo, c: CompositeIndexInfo)
    requires
        info_lt(a, b),
        info_lt(b, c),
    ensures
        info_lt(a, c),
{
    if key_lt::<String>(a.collection@, b.collection@) && key_lt::<String>(b.collection@, c.collection@) {
        key_order_trans::<String>(a.collection@, b.collection@, c.collection@);
    }
}

/// Whether an entry comes before another.
fn info_before(a: &CompositeIndexInfo, b: &CompositeIndexInfo) -> (r: bool)
    ensures
        r == info_lt(*a, *b),
        !r && a.id != b.id ==> info_lt(*b, *a),
{
    proof {
        key_order_total::<String>(a.collection@, b.collection@);
        key_order_total::<String>(b.collection@, a.collection@);
    }
    match compare_text(a.collection.as_str(), b.collection.as_str()) {
        Order::Less => true,
        Order::Equal => a.id < b.id,
        Order::Greater => false,
    }
}

/// The composite indexes that are asked for, by collection and number.
pub open spec fn composite_listing(
    s: Seq<CompositeIndex>,
    only: Option<Seq<char>>,
    out: Seq<CompositeIndexInfo>,
) -> bool {
    &&& forall|i: int, j: int| #![trigger out[i], out[j]] 0 <= i < j < out.len() ==> info_lt(out[i], out[j])
    &&& forall|i: int| 0 <= i < out.len() ==> tells_of(s, only, #[trigger] out[i])
    &&& forall|k: int|
        0 <= k < s.len() && asked(only, (#[trigger] s[k]).definition@.collection) ==> exists|i: int|
            0 <= i < out.len() && info_is(#[trigger] out[i], s[k].definition@)
}

/// An entry tells of one of the indexes that are asked for.
pub open spec fn tells_of(s: Seq<CompositeIndex>, only: Option<Seq<char>>, info: CompositeIndexInfo) -> bool {
    exists|k: int|
        0 <= k < s.len() && asked(only, (#[trigger] s[k]).definition@.collection) && info_is(info, s[k].definition@)
}

/// No entry stands behind one that comes after it.
pub open spec fn infos_ascend(out: Seq<CompositeIndexInfo>) -> bool {
    forall|i: int, j: int| #![trigger out[i], out[j]] 0 <= i < j < out.len() ==> info_lt(out[i], out[j])
}

/// Puts an entry where it belongs. Hands back where that is.
fn insert_info(out: &mut Vec<CompositeIndexInfo>, info: CompositeIndexInfo) -> (at: usize)
    requires
        infos_ascend(old(out)@),
        forall|k: int| 0 <= k < old(out)@.len() ==> (#[trigger] old(out)@[k]).id != info.id,
    ensures
        at <= old(out)@.len(),
        final(out)@ == old(out)@.insert(at as int, info),
        infos_ascend(final(out)@),
{
    let ghost before = out@;
    let ghost made = info;
    let mut at: usize = out.len();
    while at > 0 && !info_before(&out[at - 1], &info)
        invariant
            at <= out@.len(),
            out@ == before,
            forall|k: int| 0 <= k < before.len() ==> (#[trigger] before[k]).id != info.id,
            forall|k: int| at <= k < before.len() ==> info_lt(info, #[trigger] before[k]),
        decreases at,
    {
        at = at - 1;
    }
    out.insert(at, info);
    proof {
        assert forall|a: int, b: int| #![trigger out@[a], out@[b]] 0 <= a < b < out@.len() implies info_lt(
            out@[a],
            out@[b],
        ) by {
            if b < at {
                assert(out@[a] == before[a] && out@[b] == before[b]);
            } else if b == at {
                assert(out@[a] == before[a]);
                if a < at - 1 {
                    assert(info_lt(before[a], before[at - 1]));
                    info_lt_trans(before[a], before[at - 1], made);
                }
            } else if a < at {
                assert(out@[a] == before[a] && out@[b] == before[b - 1]);
            } else if a == at {
                assert(out@[b] == before[b - 1]);
            } else {
                assert(out@[a] == before[a - 1] && out@[b] == before[b - 1]);
            }
        }
    }
    at
}

/// What tells of one of the first indexes tells of one of more.
proof fn tells_of_more(s: Seq<CompositeIndex>, n: int, only: Option<Seq<char>>, info: CompositeIndexInfo)
    requires
        0 <= n < s.len(),
        tells_of(s.take(n), only, info),
    ensures
        tells_of(s.take(n + 1), only, info),
{
    let p = s.take(n);
    let k = choose|k: int|
        0 <= k < p.len() && asked(only, (#[trigger] p[k]).definition@.collection) && info_is(info, p[k].definition@);
    assert(s.take(n + 1)[k] == p[k]);
}

/// The composite indexes that are asked for, by collection and number.
pub fn list_composite(m: &CompositeIndexManager, only: Option<&str>) -> (out: Vec<CompositeIndexInfo>)
    requires
        m.wf(),
    ensures
        composite_listing(m.indexes(), opt_text(only), out@),
{
    let ghost s = m.indexes();
    let ghost o = opt_text(only);
    let mut out: Vec<CompositeIndexInfo> = Vec::new();
    let mut i: usize = 0;
    while i < m.len()
        invariant
            m.wf(),
            s == m.indexes(),
            o == opt_text(only),
            i <= s.len(),
            infos_ascend(out@),
            forall|a: int| 0 <= a < out@.len() ==> tells_of(s.take(i as int), o, #[trigger] out@[a]),
            forall|k: int|
                0 <= k < i && asked(o, (#[trigger] s[k]).definition@.collection) ==> exists|a: int|
                    0 <= a < out@.len() && info_is(#[trigger] out@[a], s[k].definition@),
        decreases s.len() - i,
    {
        let x = m.index_at(i);
        let ghost before = out@;
        proof {
            assert forall|a: int| 0 <= a < before.len() implies tells_of(s.take(i + 1), o, #[trigger] before[a]) by {
                tells_of_more(s, i as int, o, before[a]);
            }
        }
        let wanted: bool = match only {
            Some(n) => same_text(n, x.definition.collection.as_str()),
            None => true,
        };
        if wanted {
            let info = info_of(&x.definition);
            let ghost made = info;
            proof {
                let pre = s.take(i as int);
                assert forall|k: int| 0 <= k < before.len() implies (#[trigger] before[k]).id != info.id by {
                    assert(tells_of(pre, o, before[k]));
                    let j = choose|j: int|
                        0 <= j < pre.len() && asked(o, (#[trigger] pre[j]).definition@.collection) && info_is(
                            before[k],
                            pre[j].definition@,
                        );
                    assert(s[j] == pre[j]);
                    assert(s[j].definition.id != s[i as int].definition.id);
                }
            }
            let at = insert_info(&mut out, info);
            proof {
                assert(s.take(i + 1)[i as int] == s[i as int]);
                assert(tells_of(s.take(i + 1), o, made));
                assert forall|a: int| 0 <= a < out@.len() implies tells_of(s.take(i + 1), o, #[trigger] out@[a]) by {
                    if a < at {
                        assert(out@[a] == before[a]);
                    } else if a > at {
                        assert(out@[a] == before[a - 1]);
                    }
                }
                assert(out@[at as int] == made);
                assert forall|k: int| 0 <= k < i + 1 && asked(o, (#[trigger] s[k]).definition@.collection) implies exists|
                    a: int,
                | 0 <= a < out@.len() && info_is(#[trigger] out@[a], s[k].definition@) by {
                    if k < i {
                        let b = choose|b: int| 0 <= b < before.len() && info_is(#[trigger] before[b], s[k].definition@);
                        if b < at {
                            assert(out@[b] == before[b]);
                        } else {
                            assert(out@[b + 1] == before[b]);
                        }
                    }
                }
            }
        }
        i = i + 1;
    }
    proof {
        assert(s.take(i as int) =~= s);
    }
    out
}

impl Hako {
    /// The indexes of a collection, or of all.
    pub fn list_indexes(&self, collection: Option<&str>) -> (r: IndexList)
        requires
            self.wf(),
        ensures
            listing(self.indexes.secondary, opt_text(collection), r.simple@),
            listing(self.indexes.secondary, opt_text(collection), r.secondary@),
            listing(self.indexes.fts, opt_text(collection), r.fts@),
            composite_listing(self.indexes.composite.indexes(), opt_text(collection), r.composite@),
    {
        IndexList {
            simple: list_fields(&self.indexes.secondary, collection),
            secondary: list_fields(&self.indexes.secondary, collection),
            fts: list_fields(&self.indexes.fts, collection),
            composite: list_composite(&self.indexes.composite, collection),
        }
    }

    /// Makes an empty index of a field, unless there is one. Tells whether it was made, and
    /// is to be filled.
    pub fn create_index(&mut self, collection: &str, field: &str) -> (made: bool)
        requires
            old(self).wf(),
        ensures
            final(self).wf(),
            field_index_made(*old(self), *final(self), collection@, field@, made),
    {
        proof {
            self.indexes.secondary.place_facts();
        }
        if let Some(i) = self.indexes.secondary.find(collection) {
            proof {
                assert(self.indexes.secondary@.contains_key(collection@));
                self.indexes.secondary.rows()[i as int].1.place_facts();
            }
            if self.indexes.secondary.thing(i).find(field).is_some() {
                proof {
                    assert(self.indexes.secondary_at(collection@, field@) is Some);
                }
                return false;
            }
        }
        self.indexes.create_secondary_index(collection, field);
        let ghost mid = *self;
        let at = self.get_shard(collection);
        true
    }

    /// Makes an empty full-text index of a field, in place of one that stood there. It is
    /// to be filled.
    pub fn create_fts_index(&mut self, collection: &str, field: &str)
        requires
            old(self).wf(),
        ensures
            final(self).wf(),
            fts_index_made(*old(self), *final(self), collection@, field@),
    {
        self.indexes.create_fts_index(collection, field);
        let at = self.get_shard(collection);
    }

    /// Makes an empty composite index, unless there is one of the same collection and
    /// columns. Hands back its number, and whether it was made and is to be filled.
    pub fn create_composite_index(&mut self, col: &str, fields: Vec<(String, SortDirection)>) -> (r: (u32, bool))
        requires
            old(self).wf(),
            same_index(old(self).indexes.composite.indexes(), col@, pairs(fields@)) is None ==> old(
                self,
            ).indexes.composite.last_id() < u32::MAX,
        ensures
            final(self).wf(),
            composite_index_made(*old(self), *final(self), col@, pairs(fields@), r),
    {
        let ghost s = self.indexes.composite.indexes();
        let mut i: usize = 0;
        proof {
            assert(s.skip(0) =~= s);
        }
        while i < self.indexes.composite.len()
            invariant
                *self == *old(self),
                self.wf(),
                s == self.indexes.composite.indexes(),
                i <= s.len(),
                same_index(s, col@, pairs(fields@)) == same_index(s.skip(i as int), col@, pairs(fields@)),
            decreases s.len() - i,
        {
            let x = self.indexes.composite.index_at(i);
            proof {
                assert(s.skip(i as int)[0] == s[i as int]);
                assert(s.skip(i as int).drop_first() =~= s.skip(i + 1));
            }
            if same_text(x.definition.collection.as_str(), col) && same_columns(&x.definition, &fields) {
                return (x.definition.id, false);
            }
            i = i + 1;
        }
        let def = CompositeIndexDefinition::new(col).with_fields(fields);
        let id = self.indexes.create_index(def);
        let at = self.get_shard(col);
        (id, true)
    }
}

/// `b` is the store `a` with an empty index of a field, unless `a` had one.
pub open spec fn field_index_made(a: Hako, b: Hako, c: Seq<char>, f: Seq<char>, made: bool) -> bool {
    &&& made == (a.indexes.secondary_at(c, f) is None)
    &&& !made ==> b == a
    &&& made ==> {
        &&& index_made(a, b, c)
        &&& b.indexes.composite == a.indexes.composite
        &&& b.indexes.fts == a.indexes.fts
        &&& b.indexes.secondary_at(c, f) matches Some(x) && forall|k: Seq<u8>| #[trigger]
            x.posting(k) == Set::<Seq<char>>::empty()
        &&& forall|d: Seq<char>, g: Seq<char>|
            d != c || g != f ==> #[trigger] b.indexes.secondary_at(d, g) == a.indexes.secondary_at(d, g)
    }
}

/// `b` is the store `a` with an empty full-text index of a field.
pub open spec fn fts_index_made(a: Hako, b: Hako, c: Seq<char>, f: Seq<char>) -> bool {
    &&& index_made(a, b, c)
    &&& b.indexes.composite == a.indexes.composite
    &&& b.indexes.secondary == a.indexes.secondary
    &&& b.indexes.fts_at(c, f) matches Some(x) && forall|w: Seq<char>| #[trigger]
        x.posting(w) == Set::<Seq<char>>::empty()
    &&& forall|d: Seq<char>, g: Seq<char>|
        d != c || g != f ==> #[trigger] b.indexes.fts_at(d, g) == a.indexes.fts_at(d, g)
}

/// `b` is the store `a` with an empty composite index, unless `a` had one of the same
/// collection and columns. `r` is its number, and whether it was made.
pub open spec fn composite_index_made(
    a: Hako,
    b: Hako,
    c: Seq<char>,
    cols: Seq<(Seq<char>, SortDirection)>,
    r: (u32, bool),
) -> bool {
    match same_index(a.indexes.composite.indexes(), c, cols) {
        Some(id) => r == (id, false) && b == a,
        None => {
            &&& r == ((a.indexes.composite.last_id() + 1) as u32, true)
            &&& index_made(a, b, c)
            &&& b.indexes.secondary == a.indexes.secondary
            &&& b.indexes.fts == a.indexes.fts
            &&& b.indexes.composite.last_id() == r.0
            &&& b.indexes.composite.indexes().len() == a.indexes.composite.indexes().len() + 1
            &&& b.indexes.composite.indexes().drop_last() == a.indexes.composite.indexes()
            &&& b.indexes.composite.indexes().last().definition@ == (Definition { id: r.0, collection: c, columns: cols })
            &&& b.indexes.composite.indexes().last().entries() == Map::<Seq<u8>, Seq<char>>::empty()
        },
    }
}

/// `b` is the store `a` with other indexes, where a collection was opened.
pub open spec fn index_made(a: Hako, b: Hako, c: Seq<char>) -> bool {
    &&& b.config == a.config
    &&& b.security_rules == a.security_rules
    &&& b.marks == a.marks
    &&& b.indexes_ready == a.indexes_ready
    &&& opened(a.shards@, b.shards@, c)
    &&& b.versions == a.versions
    &&& b.audit_data == a.audit_data
    &&& b.doc_cache == a.doc_cache
    &&& b.id_sequence == a.id_sequence
}

/// The number of the first index of a collection with the given columns.
pub open spec fn same_index(
    s: Seq<CompositeIndex>,
    c: Seq<char>,
    cols: Seq<(Seq<char>, SortDirection)>,
) -> Option<u32>
    decreases s.len(),
{
    if s.len() == 0 {
        None
    } else if s[0].definition@.collection == c && s[0].definition@.columns == cols {
        Some(s[0].definition.id)
    } else {
        same_index(s.drop_first(), c, cols)
    }
}

/// Where the first index of a collection with the given columns stands, if there is one.
proof fn same_index_at(s: Seq<CompositeIndex>, c: Seq<char>, cols: Seq<(Seq<char>, SortDirection)>) -> (k: int)
    ensures
        match same_index(s, c, cols) {
            Some(id) => {
                &&& 0 <= k < s.len()
                &&& s[k].definition@.collection == c
                &&& s[k].definition@.columns == cols
                &&& s[k].definition.id == id
            },
            None => forall|i: int|
                0 <= i < s.len() ==> (#[trigger] s[i]).definition@.collection != c || s[i].definition@.columns != cols,
        },
    decreases s.len(),
{
    if s.len() == 0 {
        0
    } else if s[0].definition@.collection == c && s[0].definition@.columns == cols {
        0
    } else {
        let t = s.drop_first();
        let k = same_index_at(t, c, cols);
        assert forall|i: int| 0 <= i < s.len() && same_index(s, c, cols) is None implies (
        #[trigger] s[i]).definition@.collection != c || s[i].definition@.columns != cols by {
            if i > 0 {
                assert(s[i] == t[i - 1]);
            }
        }
        k + 1
    }
}

/// A composite index that was asked for is there, and has the number that was handed back.
pub proof fn composite_index_is_there(
    a: Hako,
    b: Hako,
    c: Seq<char>,
    cols: Seq<(Seq<char>, SortDirection)>,
    r: (u32, bool),
)
    requires
        a.wf(),
        b.wf(),
        composite_index_made(a, b, c, cols, r),
        same_index(a.indexes.composite.indexes(), c, cols) is None ==> a.indexes.composite.last_id() < u32::MAX,
    ensures
        same_index(b.indexes.composite.indexes(), c, cols) == Some(r.0),
{
    let s = a.indexes.composite.indexes();
    let t = b.indexes.composite.indexes();
    let k = same_index_at(t, c, cols);
    if same_index(s, c, cols) is None {
        let j = same_index_at(s, c, cols);
        assert(t[t.len() - 1] == t.last());
        if same_index(t, c, cols) is Some && k < s.len() {
            assert(t.drop_last()[k] == t[k]);
            assert(s[k].definition@.collection != c || s[k].definition@.columns != cols);
        }
    }
}

/// Asking again for a composite index gives the same number, and changes nothing. The same
/// columns in another order or with another direction make another index, with another
/// number.
pub proof fn composite_index_again(
    a: Hako,
    b: Hako,
    c: Seq<char>,
    cols: Seq<(Seq<char>, SortDirection)>,
    id: u32,
    other: Seq<(Seq<char>, SortDirection)>,
    r: (u32, bool),
)
    requires
        a.wf(),
        b.wf(),
        same_index(a.indexes.composite.indexes(), c, cols) == Some(id),
        composite_index_made(a, b, c, other, r),
        same_index(a.indexes.composite.indexes(), c, other) is None ==> a.indexes.composite.last_id() < u32::MAX,
    ensures
        other == cols ==> r == (id, false) && b == a,
        other != cols ==> r.0 != id,
        same_index(b.indexes.composite.indexes(), c, cols) == Some(id),
{
    let s = a.indexes.composite.indexes();
    let t = b.indexes.composite.indexes();
    let k = same_index_at(s, c, cols);
    let n = same_index_at(s, c, other);
    let m = same_index_at(t, c, cols);
    if same_index(s, c, other) is None {
        assert(t.drop_last()[k] == t[k]);
        assert(t[k].definition@.collection == c && t[k].definition@.columns == cols);
        if m < s.len() {
            assert(t.drop_last()[m] == t[m]);
            first_is_same(s, t, c, cols);
        } else {
            assert(t[t.len() - 1] == t.last());
        }
    } else if other != cols {
        if n < k {
            assert(s[n].definition.id != s[k].definition.id);
        } else if k < n {
            assert(s[k].definition.id != s[n].definition.id);
        }
    }
}

/// The first index with the given columns stays the first when one more comes behind.
proof fn first_is_same(
    s: Seq<CompositeIndex>,
    t: Seq<CompositeIndex>,
    c: Seq<char>,
    cols: Seq<(Seq<char>, SortDirection)>,
)
    requires
        t.len() == s.len() + 1,
        t.drop_last() == s,
        same_index(s, c, cols) is Some,
    ensures
        same_index(t, c, cols) == same_index(s, c, cols),
    decreases s.len(),
{
    assert(t[0] == t.drop_last()[0]);
    if !(s[0].definition@.collection == c && s[0].definition@.columns == cols) {
        assert(t.drop_first().drop_last() =~= s.drop_first());
        first_is_same(s.drop_first(), t.drop_first(), c, cols);
    }
}

/// Whether an index has the given columns.
fn same_columns(def: &CompositeIndexDefinition, fields: &Vec<(String, SortDirection)>) -> (r: bool)
    ensures
        r == (def@.columns == pairs(fields@)),
{
    if def.fields.len() != fields.len() {
        proof {
            assert(def@.columns.len() != pairs(fields@).len());
        }
        return false;
    }
    let mut i: usize = 0;
    while i < fields.len()
        invariant
            def.fields@.len() == fields@.len(),
            i <= fields@.len(),
            forall|k: int| 0 <= k < i ==> #[trigger] def@.columns[k] == pairs(fields@)[k],
        decreases fields@.len() - i,
    {
        if !same_text(def.fields[i].field.as_str(), fields[i].0.as_str()) || def.fields[i].direction != fields[i].1 {
            proof {
                assert(def@.columns[i as int] != pairs(fields@)[i as int]);
            }
            return false;
        }
        i = i + 1;
    }
    proof {
        assert(def@.columns =~= pairs(fields@));
    }
    true
}

/// What an index is filled with.
#[derive(Debug, Clone, Copy, PartialEq, Eq, Structural)]
pub enum Filling {
    /// The documents that have a field, as they are stored.
    Field,
    /// The documents that have a text in a field, with what they link to.
    Text,
    /// All documents, with what they link to.
    All,
}

/// The document that comes into an index, if it does.
pub open spec fn filling_doc(
    how: Filling,
    field: Seq<char>,
    bytes: Seq<u8>,
    has_file: bool,
    queue: Seq<Work>,
    reads: Map<u64, Vec<u8>>,
) -> Option<Doc> {
    match decode_doc(bytes) {
        None => None,
        Some(d) => match how {
            Filling::Field => if d.map().contains_key(field) {
                Some(d)
            } else {
                None
            },
            Filling::Text => {
                let f = attempted_doc(d, has_file, queue, reads);
                if f.map().contains_key(field) && f.map()[field] is String {
                    Some(f)
                } else {
                    None
                }
            },
            Filling::All => Some(attempted_doc(d, has_file, queue, reads)),
        },
    }
}

/// The documents that come into an index.
pub open spec fn filling_docs(
    how: Filling,
    field: Seq<char>,
    rows: Seq<(String, Vec<u8>)>,
    has_file: bool,
    queue: Seq<Work>,
    reads: Map<u64, Vec<u8>>,
) -> Seq<(Seq<char>, Doc)>
    decreases rows.len(),
{
    if rows.len() == 0 {
        Seq::empty()
    } else {
        let before = filling_docs(how, field, rows.drop_last(), has_file, queue, reads);
        match filling_doc(how, field, rows.last().1@, has_file, queue, reads) {
            Some(d) => before.push((rows.last().0@, d)),
            None => before,
        }
    }
}

/// The documents of a collection that come into an index. `rows` are their ids and bytes.
pub fn gather(
    how: Filling,
    field: &str,
    rows: &Vec<(String, Vec<u8>)>,
    shard: &Shard,
    blobs: &SortedMap<u64, Vec<u8>>,
) -> (r: Vec<(String, FireLiteDoc)>)
    requires
        blobs.wf(),
    ensures
        docs_view(r@) == filling_docs(
            how,
            field@,
            rows@,
            shard.blob_end is Some,
            works_view(shard.blob_flush_queue@),
            blobs@,
        ),
{
    let ghost q = works_view(shard.blob_flush_queue@);
    let ghost h = shard.blob_end is Some;
    let mut r: Vec<(String, FireLiteDoc)> = Vec::new();
    let mut i: usize = 0;
    proof {
        assert(rows@.take(0) =~= Seq::<(String, Vec<u8>)>::empty());
        assert(docs_view(r@) =~= Seq::<(Seq<char>, Doc)>::empty());
    }
    while i < rows.len()
        invariant
            blobs.wf(),
            q == works_view(shard.blob_flush_queue@),
            h == (shard.blob_end is Some),
            i <= rows@.len(),
            docs_view(r@) == filling_docs(how, field@, rows@.take(i as int), h, q, blobs@),
        decreases rows@.len() - i,
    {
        let ghost before = r@;
        proof {
            assert(rows@.take(i + 1).drop_last() =~= rows@.take(i as int));
            assert(rows@.take(i + 1).last() == rows@[i as int]);
        }
        if let Some(d) = FireLiteDoc::decode(rows[i].1.as_slice()) {
            let mut doc = d;
            let ghost plain = doc@;
            match how {
                Filling::Field => {},
                _ => {
                    proof {
                    }
                    let tried = resolve_doc(&mut doc, shard.blob_end.is_some(), &shard.blob_flush_queue, blobs);
                },
            }
            let take: bool = match how {
                Filling::Field => doc.get(field).is_some(),
                Filling::Text => match doc.get(field) {
                    Some(v) => {
                        proof {
                            parts_view(*v);
                        }
                        match v {
                            Value::String(_) => true,
                            _ => false,
                        }
                    },
                    None => false,
                },
                Filling::All => true,
            };
            if take {
                let ghost last = doc@;
                r.push((rows[i].0.clone(), doc));
                proof {
                    assert(docs_view(r@) =~= docs_view(before).push((rows@[i as int].0@, last)));
                }
            }
        }
        i = i + 1;
    }
    proof {
        assert(rows@.take(i as int) =~= rows@);
    }
    r
}

/// The records that the log of an index gets for documents: one for each that has all of
/// its columns.
pub open spec fn index_records(op: u8, d: Definition, docs: Seq<(Seq<char>, Doc)>) -> Seq<u8>
    decreases docs.len(),
{
    if docs.len() == 0 {
        Seq::empty()
    } else {
        let before = index_records(op, d, docs.drop_last());
        match document_key(d, docs.last().0, docs.last().1) {
            Some(k) => before + record_bytes(op, d.id, k, encode_utf8(docs.last().0)),
            None => before,
        }
    }
}

/// Appends the records that the log of an index gets for documents.
pub fn put_index_records(op: u8, x: &CompositeIndex, docs: &Vec<(String, FireLiteDoc)>, out: &mut Vec<u8>)
    ensures
        final(out)@ == old(out)@ + index_records(op, x.definition@, docs_view(docs@)),
{
    let ghost ds = docs_view(docs@);
    let ghost start = out@;
    let mut i: usize = 0;
    proof {
        assert(ds.take(0) =~= Seq::<(Seq<char>, Doc)>::empty());
        assert(start + Seq::<u8>::empty() =~= start);
    }
    while i < docs.len()
        invariant
            ds == docs_view(docs@),
            i <= docs@.len(),
            out@ == start + index_records(op, x.definition@, ds.take(i as int)),
        decreases docs@.len() - i,
    {
        proof {
            assert(ds.take(i + 1).drop_last() =~= ds.take(i as int));
            assert(ds.take(i + 1).last() == ds[i as int]);
        }
        if let Some(values) = x.document_values(docs[i].0.as_str(), &docs[i].1) {
            let key = encode_composite_key(&x.definition, &values, docs[i].0.as_str());
            let mut record = encode_entry(op, x.definition.id, key_slice(&key), docs[i].0.as_str());
            let ghost rec = record@;
            let ghost before = out@;
            out.append(&mut record);
            proof {
                assert(out@ =~= start + (index_records(op, x.definition@, ds.take(i as int)) + rec));
            }
        }
        i = i + 1;
    }
    proof {
        assert(ds.take(i as int) =~= ds);
    }
}

impl Hako {
    /// Fills the single-field indexes of a collection with documents that have a field.
    pub fn backfill_secondary(
        &mut self,
        collection: &str,
        field: &str,
        rows: &Vec<(String, Vec<u8>)>,
    )
        requires
            old(self).wf(),
        ensures
            final(self).wf(),
            *final(self) == (Hako { indexes: final(self).indexes, ..*old(self) }),
            final(self).indexes.composite == old(self).indexes.composite,
            final(self).indexes.fts == old(self).indexes.fts,
            secondary_filled(
                old(self).indexes,
                final(self).indexes,
                collection@,
                filling_docs(Filling::Field, field@, rows@, false, Seq::empty(), Map::empty()),
            ),
    {
        let shard = Shard::new(None);
        let blobs: SortedMap<u64, Vec<u8>> = SortedMap::new();
        proof {
            assert(works_view(shard.blob_flush_queue@) =~= Seq::<Work>::empty());
        }
        let docs = gather(Filling::Field, field, rows, &shard, &blobs);
        IndexingService::backfill_secondary(&mut self.indexes, collection, &docs);
    }

    /// Fills the full-text indexes of a collection with documents that have a text in a
    /// field.
    pub fn backfill_fts(
        &mut self,
        collection: &str,
        field: &str,
        rows: &Vec<(String, Vec<u8>)>,
        shard: &Shard,
        blobs: &SortedMap<u64, Vec<u8>>,
    )
        requires
            old(self).wf(),
            blobs.wf(),
        ensures
            final(self).wf(),
            *final(self) == (Hako { indexes: final(self).indexes, ..*old(self) }),
            final(self).indexes.composite == old(self).indexes.composite,
            final(self).indexes.secondary == old(self).indexes.secondary,
            fts_filled(
                old(self).indexes,
                final(self).indexes,
                collection@,
                filling_docs(
                    Filling::Text,
                    field@,
                    rows@,
                    shard.blob_end is Some,
                    works_view(shard.blob_flush_queue@),
                    blobs@,
                ),
            ),
    {
        let docs = gather(Filling::Text, field, rows, shard, blobs);
        IndexingService::backfill_fts(&mut self.indexes, collection, &docs);
    }

    /// Fills a composite index with documents. Hands back the records for its log; nothing
    /// happens where there is no index with the number.
    pub fn backfill_composite(
        &mut self,
        index_id: u32,
        rows: &Vec<(String, Vec<u8>)>,
        shard: &Shard,
        blobs: &SortedMap<u64, Vec<u8>>,
    ) -> (log: Vec<u8>)
        requires
            old(self).wf(),
            blobs.wf(),
        ensures
            final(self).wf(),
            *final(self) == (Hako { indexes: final(self).indexes, ..*old(self) }),
            final(self).indexes.fts == old(self).indexes.fts,
            final(self).indexes.secondary == old(self).indexes.secondary,
            final(self).indexes.composite.last_id() == old(self).indexes.composite.last_id(),
            composite_filled(
                old(self).indexes.composite.indexes(),
                final(self).indexes.composite.indexes(),
                index_id,
                filling_docs(
                    Filling::All,
                    Seq::empty(),
                    rows@,
                    shard.blob_end is Some,
                    works_view(shard.blob_flush_queue@),
                    blobs@,
                ),
                log@,
            ),
    {
        let docs = gather(Filling::All, "", rows, shard, blobs);
        let ghost ds = docs_view(docs@);
        proof {
            reveal_strlit("");
            assert(""@ =~= Seq::<char>::empty());
        }
        let mut log: Vec<u8> = Vec::new();
        let ghost a = self.indexes.composite.indexes();
        let ghost before = self.indexes.composite;
        match self.indexes.composite.get_mut(index_id) {
            Some(x) => {
                put_index_records(INSERT, x, &docs, &mut log);
                x.index_batch(&docs);
            },
            None => {},
        }
        proof {
            let b = self.indexes.composite.indexes();
            assert(Seq::<u8>::empty() + log@ =~= log@);
            assert forall|i: int| 0 <= i < b.len() implies (#[trigger] b[i]).wf() && b[i].definition == a[i].definition by {
                assert(a[i].wf());
            }
            assert(self.indexes.composite.wf()) by {
                assert forall|i: int, j: int| 0 <= i < j < b.len() implies (#[trigger] b[i]).definition.id != (
                #[trigger] b[j]).definition.id by {
                    assert(a[i].definition.id != a[j].definition.id);
                }
            }
            assert forall|i: int| 0 <= i < a.len() implies filled_one(#[trigger] a[i], b[i], index_id, ds) by {}
        }
        log
    }
}

/// `b` is the index `a` with documents put in, where it has the number.
pub open spec fn filled_one(a: CompositeIndex, b: CompositeIndex, id: u32, docs: Seq<(Seq<char>, Doc)>) -> bool {
    if a.definition.id == id {
        b.definition == a.definition && b.entries() == with_documents(a.entries(), a.definition@, docs)
    } else {
        b == a
    }
}

/// `b` are the indexes `a` with documents put into the one with a number, and `log` are the
/// records of it.
pub open spec fn composite_filled(
    a: Seq<CompositeIndex>,
    b: Seq<CompositeIndex>,
    id: u32,
    docs: Seq<(Seq<char>, Doc)>,
    log: Seq<u8>,
) -> bool {
    &&& a.len() == b.len()
    &&& forall|i: int| 0 <= i < a.len() ==> filled_one(#[trigger] a[i], b[i], id, docs)
    &&& forall|i: int| 0 <= i < a.len() && (#[trigger] a[i]).definition.id == id ==> log == index_records(INSERT, a[i].definition@, docs)
    &&& (forall|i: int| 0 <= i < a.len() ==> (#[trigger] a[i]).definition.id != id) ==> log.len() == 0
}

} // verus!
