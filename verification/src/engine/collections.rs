//! Which collections there are, and how far each has come.
use vstd::prelude::*;
use vstd::string::*;

use crate::config::HakoConfig;
use crate::document::firelite_doc::names_view;
use crate::engine::access::{is_sync_excluded_effective, withheld};
use crate::engine::engine::{is_shard, opened, same_setup, Hako};
use crate::engine::types::QuiescenceStatus;
use crate::engine::write::shard_places;
use crate::storage::shard::{is_version, live_keys, Shard};
use crate::text::{chars_of, same_text};
use crate::util::sort::{sort_texts, sorted_from, sorted_holds};

verus! {

/// Whether a directory is a collection that users see.
pub open spec fn visible(name: Seq<char>) -> bool {
    !(name.len() > 0 && name[0] == '_') && name != "snapshots"@
}

/// Whether a directory is a collection that replicates from a store.
pub open spec fn syncs(config: HakoConfig, name: Seq<char>) -> bool {
    name != "snapshots"@ && !withheld(config, name)
}

/// The visible ones among names.
pub open spec fn visible_of(names: Seq<Seq<char>>) -> Seq<Seq<char>>
    decreases names.len(),
{
    if names.len() == 0 {
        Seq::empty()
    } else if visible(names.last()) {
        visible_of(names.drop_last()).push(names.last())
    } else {
        visible_of(names.drop_last())
    }
}

/// Those among names that replicate.
pub open spec fn syncing_of(config: HakoConfig, names: Seq<Seq<char>>) -> Seq<Seq<char>>
    decreases names.len(),
{
    if names.len() == 0 {
        Seq::empty()
    } else if syncs(config, names.last()) {
        syncing_of(config, names.drop_last()).push(names.last())
    } else {
        syncing_of(config, names.drop_last())
    }
}

/// Whether a directory is a collection that users see.
pub fn is_visible(name: &str) -> (r: bool)
    ensures
        r == visible(name@),
{
    let c = chars_of(name);
    !(c.len() > 0 && c[0] == '_') && !same_text(name, "snapshots")
}

/// The visible collections among directories, in the order in which they stand.
pub fn discovered(dirs: &Vec<String>) -> (r: Vec<String>)
    ensures
        names_view(r@) == visible_of(names_view(dirs@)),
{
    let ghost s = names_view(dirs@);
    let mut r: Vec<String> = Vec::new();
    let mut i: usize = 0;
    proof {
        assert(s.take(0) =~= Seq::<Seq<char>>::empty());
        assert(names_view(r@) =~= Seq::<Seq<char>>::empty());
    }
    while i < dirs.len()
        invariant
            s == names_view(dirs@),
            i <= dirs@.len(),
            names_view(r@) == visible_of(s.take(i as int)),
        decreases dirs@.len() - i,
    {
        proof {
            assert(s.take(i + 1).drop_last() =~= s.take(i as int));
            assert(s.take(i + 1).last() == dirs@[i as int]@);
        }
        if is_visible(dirs[i].as_str()) {
            let ghost before = r@;
            r.push(dirs[i].clone());
            proof {
                assert(names_view(r@) =~= names_view(before).push(dirs@[i as int]@));
            }
        }
        i = i + 1;
    }
    proof {
        assert(s.take(i as int) =~= s);
    }
    r
}

/// The collections that users see among directories, in order.
pub fn list_collections(dirs: &Vec<String>) -> (r: Vec<String>)
    ensures
        sorted_from(names_view(r@), visible_of(names_view(dirs@))),
{
    let found = discovered(dirs);
    sort_texts(&found)
}

/// The collections that replicate from a store among directories, in order.
pub fn sync_collections(config: &HakoConfig, dirs: &Vec<String>) -> (r: Vec<String>)
    ensures
        sorted_from(names_view(r@), syncing_of(*config, names_view(dirs@))),
        forall|i: int| 0 <= i < r@.len() ==> !withheld(*config, (#[trigger] r@[i])@),
{
    let ghost s = names_view(dirs@);
    let mut found: Vec<String> = Vec::new();
    let mut i: usize = 0;
    proof {
        assert(s.take(0) =~= Seq::<Seq<char>>::empty());
        assert(names_view(found@) =~= Seq::<Seq<char>>::empty());
    }
    while i < dirs.len()
        invariant
            s == names_view(dirs@),
            i <= dirs@.len(),
            names_view(found@) == syncing_of(*config, s.take(i as int)),
        decreases dirs@.len() - i,
    {
        proof {
            assert(s.take(i + 1).drop_last() =~= s.take(i as int));
            assert(s.take(i + 1).last() == dirs@[i as int]@);
        }
        if !same_text(dirs[i].as_str(), "snapshots") && !is_sync_excluded_effective(config, dirs[i].as_str()) {
            let ghost before = found@;
            found.push(dirs[i].clone());
            proof {
                assert(names_view(found@) =~= names_view(before).push(dirs@[i as int]@));
            }
        }
        i = i + 1;
    }
    let r = sort_texts(&found);
    proof {
        assert(s.take(i as int) =~= s);
        let all = syncing_of(*config, s);
        assert forall|k: int| 0 <= k < r@.len() implies !withheld(*config, (#[trigger] r@[k])@) by {
            sorted_holds(names_view(r@), all, r@[k]@);
            assert(names_view(r@)[k] == r@[k]@);
            assert(all.contains(r@[k]@));
            syncing_syncs(*config, s, r@[k]@);
        }
    }
    r
}

/// What replicates is among the names, and is not withheld.
pub proof fn syncing_syncs(config: HakoConfig, names: Seq<Seq<char>>, x: Seq<char>)
    ensures
        syncing_of(config, names).contains(x) <==> names.contains(x) && syncs(config, x),
    decreases names.len(),
{
    if names.len() > 0 {
        let pre = names.drop_last();
        syncing_syncs(config, pre, x);
        let a = syncing_of(config, pre);
        let b = syncing_of(config, names);
        assert(names =~= pre.push(names.last()));
        if a.contains(x) {
            let i = choose|i: int| 0 <= i < a.len() && a[i] == x;
            assert(b[i] == x);
        }
        if pre.contains(x) {
            let i = choose|i: int| 0 <= i < pre.len() && pre[i] == x;
            assert(names[i] == x);
        }
        if names.contains(x) {
            let i = choose|i: int| 0 <= i < names.len() && names[i] == x;
            if i < pre.len() {
                assert(pre[i] == x);
            }
        }
        if syncs(config, names.last()) {
            assert(b =~= a.push(names.last()));
            assert(b[a.len() as int] == names.last());
            if b.contains(x) && x != names.last() {
                let i = choose|i: int| 0 <= i < b.len() && b[i] == x;
                assert(a[i] == x);
            }
        }
        assert(names[names.len() - 1] == names.last());
    }
}

/// The collections in a list, each with its latest time.
pub open spec fn version_map(shards: Map<Seq<char>, Shard>, names: Seq<Seq<char>>, r: Seq<(String, i64)>) -> bool {
    &&& r.len() == names.len()
    &&& forall|i: int|
        0 <= i < r.len() ==> (#[trigger] r[i]).0@ == names[i] && is_version(shard_places(shards, names[i]), r[i].1)
}

impl Hako {
    /// The latest time of each collection that replicates, in the order of their names.
    pub fn get_version_map(&mut self, dirs: &Vec<String>) -> (r: Vec<(String, i64)>)
        requires
            old(self).wf(),
        ensures
            final(self).wf(),
            exists|names: Seq<Seq<char>>|
                sorted_from(names, syncing_of(old(self).config, names_view(dirs@))) && #[trigger] version_map(
                    old(self).shards@,
                    names,
                    r@,
                ),
            places_same(*old(self), *final(self)),
    {
        let cols = sync_collections(&self.config, dirs);
        self.versions_of(&cols)
    }

    /// The latest time of each of some collections.
    pub fn versions_of(&mut self, cols: &Vec<String>) -> (r: Vec<(String, i64)>)
        requires
            old(self).wf(),
        ensures
            final(self).wf(),
            version_map(old(self).shards@, names_view(cols@), r@),
            places_same(*old(self), *final(self)),
    {
        let mut r: Vec<(String, i64)> = Vec::new();
        let mut i: usize = 0;
        while i < cols.len()
            invariant
                self.wf(),
                i <= cols@.len(),
                r@.len() == i,
                places_same(*old(self), *self),
                forall|k: int|
                    0 <= k < i ==> (#[trigger] r@[k]).0@ == cols@[k]@ && is_version(
                        shard_places(old(self).shards@, cols@[k]@),
                        r@[k].1,
                    ),
            decreases cols@.len() - i,
        {
            let ghost before = *self;
            let t = self.get_collection_version(cols[i].as_str());
            proof {
                let c = cols@[i as int]@;
                assert(shard_places(before.shards@, c) == shard_places(old(self).shards@, c));
                assert forall|x: Seq<char>| #[trigger] shard_places(self.shards@, x) == shard_places(old(self).shards@, x) by {
                    assert(shard_places(before.shards@, x) == shard_places(old(self).shards@, x));
                    opened_places(before.shards@, self.shards@, c, x);
                }
            }
            r.push((cols[i].clone(), t));
            i = i + 1;
        }
        r
    }

    /// What still goes on in the background of the store. The other counts are the caller's.
    pub fn quiescence_status(&self, pending_index_ops: usize, index_backfills: usize, maintenance_running: bool) -> (s:
        QuiescenceStatus)
        ensures
            s.indexes_ready == self.indexes_ready,
            s.pending_index_ops == pending_index_ops,
            s.index_backfills == index_backfills,
            s.maintenance_running == maintenance_running,
            s.pending_blob_bytes == waiting_bytes(self.shards.rows()),
            s.queued_blob_items == waiting_items(self.shards.rows()),
    {
        let ghost rows = self.shards.rows();
        let mut bytes: usize = 0;
        let mut items: usize = 0;
        let mut i: usize = 0;
        proof {
            assert(rows.take(0) =~= Seq::<(Seq<char>, Shard)>::empty());
        }
        while i < self.shards.len()
            invariant
                rows == self.shards.rows(),
                i <= rows.len(),
                bytes == waiting_bytes(rows.take(i as int)),
                items == waiting_items(rows.take(i as int)),
            decreases rows.len() - i,
        {
            proof {
                assert(rows.take(i + 1).drop_last() =~= rows.take(i as int));
                assert(rows.take(i + 1).last() == rows[i as int]);
            }
            let shard = self.shards.thing(i);
            bytes = bytes.wrapping_add(shard.pending_blob_bytes);
            items = items.wrapping_add(shard.blob_flush_queue.len());
            i = i + 1;
        }
        proof {
            assert(rows.take(i as int) =~= rows);
        }
        QuiescenceStatus {
            indexes_ready: self.indexes_ready,
            pending_index_ops,
            index_backfills,
            pending_blob_bytes: bytes,
            queued_blob_items: items,
            maintenance_running,
        }
    }

    /// The number of documents and of waiting bytes of each collection, under its name with
    /// an ending.
    pub fn get_stats(&self) -> (r: Vec<(String, usize)>)
        ensures
            stats_of(*self, r@),
    {
        let ghost rows = self.shards.rows();
        let mut r: Vec<(String, usize)> = Vec::new();
        let mut i: usize = 0;
        while i < self.shards.len()
            invariant
                rows == self.shards.rows(),
                i <= rows.len(),
                r@.len() == 2 * i,
                forall|k: int| 0 <= k < i ==> stat_lines(#[trigger] rows[k], r@[2 * k], r@[2 * k + 1]),
            decreases rows.len() - i,
        {
            let ghost before = r@;
            let shard = self.shards.thing(i);
            let mut a = self.shards.name(i).clone();
            a.append("_count");
            let mut b = self.shards.name(i).clone();
            b.append("_pending_blob_bytes");
            let live = shard.live_keys();
            r.push((a, live.len()));
            r.push((b, shard.pending_blob_bytes));
            proof {
                assert(names_view(live@).len() == live@.len());
                assert forall|k: int| 0 <= k < i + 1 implies stat_lines(#[trigger] rows[k], r@[2 * k], r@[2 * k + 1]) by {
                    if k < i {
                        assert(r@[2 * k] == before[2 * k]);
                        assert(r@[2 * k + 1] == before[2 * k + 1]);
                    }
                }
            }
            i = i + 1;
        }
        r
    }
}

/// The figures of a collection.
pub open spec fn stat_lines(row: (Seq<char>, Shard), count: (String, usize), bytes: (String, usize)) -> bool {
    &&& count.0@ == row.0 + "_count"@
    &&& count.1 == live_keys(row.1.index.seq()).len()
    &&& bytes.0@ == row.0 + "_pending_blob_bytes"@
    &&& bytes.1 == row.1.pending_blob_bytes
}

/// The number of documents and of waiting bytes of each collection, two lines for each.
pub open spec fn stats_of(db: Hako, r: Seq<(String, usize)>) -> bool {
    &&& r.len() == 2 * db.shards.rows().len()
    &&& forall|i: int|
        0 <= i < db.shards.rows().len() ==> stat_lines(#[trigger] db.shards.rows()[i], r[2 * i], r[2 * i + 1])
}

/// The bytes that wait in collections.
pub open spec fn waiting_bytes(rows: Seq<(Seq<char>, Shard)>) -> usize
    decreases rows.len(),
{
    if rows.len() == 0 {
        0
    } else {
        vstd::wrapping::usize_specs::wrapping_add(waiting_bytes(rows.drop_last()), rows.last().1.pending_blob_bytes)
    }
}

/// The values that wait in collections.
pub open spec fn waiting_items(rows: Seq<(Seq<char>, Shard)>) -> usize
    decreases rows.len(),
{
    if rows.len() == 0 {
        0
    } else {
        vstd::wrapping::usize_specs::wrapping_add(
            waiting_items(rows.drop_last()),
            rows.last().1.blob_flush_queue@.len() as usize,
        )
    }
}

/// Every document lies where it did, and nothing else has changed: collections may have
/// been opened.
pub open spec fn places_same(a: Hako, b: Hako) -> bool {
    &&& same_setup(a, b)
    &&& b.versions == a.versions
    &&& b.audit_data == a.audit_data
    &&& b.doc_cache == a.doc_cache
    &&& b.id_sequence == a.id_sequence
    &&& forall|c: Seq<char>| #[trigger] shard_places(b.shards@, c) == shard_places(a.shards@, c)
    &&& forall|c: Seq<char>| #[trigger]
        b.shards@.contains_key(c) ==> is_shard(a.shards@, c, b.shards@[c])
    &&& forall|c: Seq<char>| #[trigger] a.shards@.contains_key(c) ==> b.shards@.contains_key(c)
}

/// Opening a collection leaves every document where it was.
pub proof fn opened_places(a: Map<Seq<char>, Shard>, b: Map<Seq<char>, Shard>, c: Seq<char>, x: Seq<char>)
    requires
        opened(a, b, c),
    ensures
        shard_places(b, x) == shard_places(a, x),
{
    if x == c && !a.contains_key(c) {
        assert(shard_places(b, x) =~= shard_places(a, x));
    }
}

} // verus!
