//! The talk between two nodes.
use vstd::prelude::*;
use vstd::string::*;

use crate::cloud_sync::ingest::own_fp;
use crate::cloud_sync::seen::remembered;
use crate::cloud_sync::session::{own_versions, pairs_map, version_table};
use crate::directory::NameTable;
use crate::document::firelite_doc::{names_copy, names_view};
use crate::engine::access::{encrypted, is_collection_encrypted};
use crate::engine::catalog::{composite_listing, listing};
use crate::engine::collections::{places_same, sync_collections, syncing_of};
use crate::engine::engine::Hako;
use crate::engine::files::{files_wf, reads_are, reads_for, FileReads};
use crate::engine::store::shard_opened;
use crate::engine::types::{CompositeIndexFieldInfo, CompositeIndexInfo, IndexList};
use crate::engine::write::{shard_places, Applied};
use crate::index::composite::definition::{pairs, SortDirection};
use crate::net_sync::delta::{
    bootstrap, bootstrapped, brings, delta_send, delta_sent, fan_out, fan_out_to, mesh_outgoing, mesh_tailed, passed_on,
    relay_mesh,
};
use crate::engine::engine::shard_queue;
use crate::engine::write::shard_end;
use crate::net_sync::intake::{apply_replication_batch, intake_done};
use crate::net_sync::packet::NetPacket;
use crate::net_sync::syncer::NetSyncer;
use crate::sorted_map::SortedMap;
use crate::storage::shard::is_version;
use crate::storage::wal::{ops_view, Change, WalOp};
use crate::sync_guard::{caps_allow, caps_of, config_fingerprint, flows, known_caps, local_caps, told_fp, PeerCaps};
use crate::text::same_text;
use crate::util::sort::sorted_from;

verus! {

/// An index that another node has, and this one is to have.
pub enum IndexWish {
    Secondary { collection: String, field: String },
    Fts { collection: String, field: String },
    Composite { collection: String, fields: Vec<(String, SortDirection)> },
}

/// What a wish for an index stands for.
pub enum IndexNeed {
    Secondary { collection: Seq<char>, field: Seq<char> },
    Fts { collection: Seq<char>, field: Seq<char> },
    Composite { collection: Seq<char>, columns: Seq<(Seq<char>, SortDirection)> },
}

impl View for IndexWish {
    type V = IndexNeed;

    open spec fn view(&self) -> IndexNeed {
        match *self {
            IndexWish::Secondary { collection, field } => IndexNeed::Secondary { collection: collection@, field: field@ },
            IndexWish::Fts { collection, field } => IndexNeed::Fts { collection: collection@, field: field@ },
            IndexWish::Composite { collection, fields } => IndexNeed::Composite {
                collection: collection@,
                columns: pairs(fields@),
            },
        }
    }
}

/// What wishes for indexes stand for.
pub open spec fn needs(s: Seq<IndexWish>) -> Seq<IndexNeed> {
    Seq::new(s.len(), |i: int| s[i]@)
}

/// The needs for the fields of a collection.
pub open spec fn field_needs(text: bool, c: Seq<char>, fields: Seq<Seq<char>>) -> Seq<IndexNeed> {
    Seq::new(
        fields.len(),
        |i: int|
            if text {
                IndexNeed::Fts { collection: c, field: fields[i] }
            } else {
                IndexNeed::Secondary { collection: c, field: fields[i] }
            },
    )
}

/// The needs for the fields of collections.
pub open spec fn list_needs(text: bool, list: Seq<(String, Vec<String>)>) -> Seq<IndexNeed>
    decreases list.len(),
{
    if list.len() == 0 {
        Seq::empty()
    } else {
        list_needs(text, list.drop_last()) + field_needs(text, list.last().0@, names_view(list.last().1@))
    }
}

/// The direction with a name: descending for `desc`, and else ascending.
pub open spec fn named_direction(name: Seq<char>) -> SortDirection {
    if name == "desc"@ {
        SortDirection::Desc
    } else {
        SortDirection::Asc
    }
}

/// The columns of a composite index in a listing.
pub open spec fn info_columns(fields: Seq<CompositeIndexFieldInfo>) -> Seq<(Seq<char>, SortDirection)> {
    Seq::new(fields.len(), |i: int| (fields[i].field@, named_direction(fields[i].direction@)))
}

/// The needs for composite indexes.
pub open spec fn composite_needs(list: Seq<CompositeIndexInfo>) -> Seq<IndexNeed> {
    Seq::new(
        list.len(),
        |i: int| IndexNeed::Composite { collection: list[i].collection@, columns: info_columns(list[i].fields@) },
    )
}

/// Adds wishes for the fields of collections.
fn wish_fields(text: bool, list: &Vec<(String, Vec<String>)>, out: &mut Vec<IndexWish>)
    ensures
        needs(final(out)@) == needs(old(out)@) + list_needs(text, list@),
{
    let ghost start = needs(out@);
    let mut i: usize = 0;
    proof {
        assert(list@.take(0) =~= Seq::<(String, Vec<String>)>::empty());
        assert(needs(out@) =~= start + list_needs(text, list@.take(0)));
    }
    while i < list.len()
        invariant
            i <= list@.len(),
            needs(out@) == start + list_needs(text, list@.take(i as int)),
        decreases list@.len() - i,
    {
        let ghost here = needs(out@);
        let ghost names = names_view(list@[i as int].1@);
        let ghost more = field_needs(text, list@[i as int].0@, names);
        let mut j: usize = 0;
        proof {
            assert(needs(out@) =~= here + more.take(0));
        }
        while j < list[i].1.len()
            invariant
                i < list@.len(),
                names == names_view(list@[i as int].1@),
                more == field_needs(text, list@[i as int].0@, names),
                j <= list@[i as int].1@.len(),
                needs(out@) == here + more.take(j as int),
            decreases list@[i as int].1@.len() - j,
        {
            let ghost before = out@;
            let collection = list[i].0.clone();
            let field = list[i].1[j].clone();
            let w = if text {
                IndexWish::Fts { collection, field }
            } else {
                IndexWish::Secondary { collection, field }
            };
            let ghost need = w@;
            out.push(w);
            proof {
                assert(need == more[j as int]);
                assert(needs(out@) =~= needs(before).push(need));
                assert(more.take(j + 1) =~= more.take(j as int).push(more[j as int]));
                assert(needs(out@) =~= here + more.take(j + 1));
            }
            j = j + 1;
        }
        proof {
            assert(more.take(j as int) =~= more);
            assert(list@.take(i + 1).drop_last() =~= list@.take(i as int));
            assert(list@.take(i + 1).last() == list@[i as int]);
            assert(needs(out@) =~= start + list_needs(text, list@.take(i + 1)));
        }
        i = i + 1;
    }
    proof {
        assert(list@.take(i as int) =~= list@);
    }
}

/// The columns of a composite index in a listing.
fn columns_of(fields: &Vec<CompositeIndexFieldInfo>) -> (r: Vec<(String, SortDirection)>)
    ensures
        pairs(r@) == info_columns(fields@),
{
    let mut r: Vec<(String, SortDirection)> = Vec::new();
    let mut i: usize = 0;
    while i < fields.len()
        invariant
            i <= fields@.len(),
            r@.len() == i,
            forall|k: int|
                0 <= k < i ==> (#[trigger] r@[k]).0@ == fields@[k].field@ && r@[k].1 == named_direction(
                    fields@[k].direction@,
                ),
        decreases fields@.len() - i,
    {
        let d = if same_text(fields[i].direction.as_str(), "desc") {
            SortDirection::Desc
        } else {
            SortDirection::Asc
        };
        r.push((fields[i].field.clone(), d));
        i = i + 1;
    }
    proof {
        assert(pairs(r@) =~= info_columns(fields@));
    }
    r
}

/// All that a listing of indexes asks for.
pub open spec fn wished(list: IndexList) -> Seq<IndexNeed> {
    list_needs(false, list.secondary@) + list_needs(true, list.fts@) + composite_needs(list.composite@)
}

/// The indexes that another node has, and this one is to have.
pub fn index_wishes(list: &IndexList) -> (r: Vec<IndexWish>)
    ensures
        needs(r@) == wished(*list),
{
    let mut r: Vec<IndexWish> = Vec::new();
    proof {
        assert(needs(r@) =~= Seq::<IndexNeed>::empty());
    }
    wish_fields(false, &list.secondary, &mut r);
    proof {
        assert(needs(r@) =~= list_needs(false, list.secondary@));
    }
    wish_fields(true, &list.fts, &mut r);
    let ghost here = needs(r@);
    let ghost more = composite_needs(list.composite@);
    let mut i: usize = 0;
    proof {
        assert(needs(r@) =~= here + more.take(0));
    }
    while i < list.composite.len()
        invariant
            i <= list.composite@.len(),
            more == composite_needs(list.composite@),
            needs(r@) == here + more.take(i as int),
        decreases list.composite@.len() - i,
    {
        let ghost before = r@;
        let w = IndexWish::Composite {
            collection: list.composite[i].collection.clone(),
            fields: columns_of(&list.composite[i].fields),
        };
        let ghost need = w@;
        r.push(w);
        proof {
            assert(need == more[i as int]);
            assert(needs(r@) =~= needs(before).push(need));
            assert(more.take(i + 1) =~= more.take(i as int).push(more[i as int]));
            assert(needs(r@) =~= here + more.take(i + 1));
        }
        i = i + 1;
    }
    proof {
        assert(more.take(i as int) =~= more);
        assert(needs(r@) =~= wished(*list));
    }
    r
}

/// A ping tells how far the collections of a store have come, and which indexes it has.
pub open spec fn is_ping(a: Hako, dirs: Seq<Seq<char>>, p: NetPacket) -> bool {
    &&& p matches NetPacket::Ping { versions, indexes }
    &&& exists|list: Seq<(String, i64)>| #[trigger] own_versions(a, dirs, list) && versions@ == pairs_map(list)
    &&& listing(a.indexes.secondary, None, indexes.secondary@)
    &&& listing(a.indexes.fts, None, indexes.fts@)
    &&& composite_listing(a.indexes.composite.indexes(), None, indexes.composite@)
}

/// The ping of a node.
pub fn make_ping(db: &mut Hako, dirs: &Vec<String>) -> (p: NetPacket)
    requires
        old(db).wf(),
    ensures
        final(db).wf(),
        places_same(*old(db), *final(db)),
        is_ping(*old(db), names_view(dirs@), p),
{
    let list = db.get_version_map(dirs);
    proof {
        assert(own_versions(*old(db), names_view(dirs@), list@));
    }
    let versions = version_table(&list);
    let indexes = db.list_indexes(None);
    NetPacket::Ping { versions, indexes }
}

/// What a node tells of its encryption.
pub open spec fn tells_caps(a: Hako, dirs: Seq<Seq<char>>, p: NetPacket) -> bool {
    &&& p matches NetPacket::SyncCaps { key_fp, encrypted_cols }
    &&& exists|names: Seq<Seq<char>>| #[trigger]
        sorted_from(names, syncing_of(a.config, dirs)) && caps_of(a.config, names, PeerCaps { key_fp, encrypted_cols })
}

/// What a node tells of its encryption.
pub fn announce_caps(db: &Hako, dirs: &Vec<String>) -> (p: NetPacket)
    ensures
        tells_caps(*db, names_view(dirs@), p),
{
    let names = sync_collections(&db.config, dirs);
    let caps = local_caps(&db.config, &names);
    proof {
        assert(sorted_from(names_view(names@), syncing_of(db.config, names_view(dirs@))));
        assert(caps_of(db.config, names_view(names@), caps));
    }
    NetPacket::SyncCaps { key_fp: caps.key_fp, encrypted_cols: caps.encrypted_cols }
}

/// What follows from a message of a peer: replies, indexes that are wished for, changes that
/// go into the log, and the peers that the message is passed on to.
pub struct NetStep {
    pub replies: Vec<NetPacket>,
    pub wishes: Vec<IndexWish>,
    pub applied: Option<Applied>,
    pub pass_to: Vec<String>,
}

/// Nothing follows.
pub open spec fn nothing_follows(r: NetStep) -> bool {
    r.replies@.len() == 0 && r.wishes@.len() == 0 && r.applied is None && r.pass_to@.len() == 0
}

fn no_step() -> (r: NetStep)
    ensures
        nothing_follows(r),
{
    NetStep { replies: Vec::new(), wishes: Vec::new(), applied: None, pass_to: Vec::new() }
}

/// All messages of groups.
pub open spec fn all_of(groups: Seq<Seq<NetPacket>>) -> Seq<NetPacket>
    decreases groups.len(),
{
    if groups.len() == 0 {
        Seq::empty()
    } else {
        all_of(groups.drop_last()) + groups.last()
    }
}

proof fn all_of_push(groups: Seq<Seq<NetPacket>>, g: Seq<NetPacket>)
    ensures
        all_of(groups.push(g)) == all_of(groups) + g,
{
    assert(groups.push(g).drop_last() =~= groups);
}

/// What a node tells of one collection that a peer has told its time of.
pub open spec fn answer_one(
    a: Hako,
    b: Hako,
    excluded: Map<Seq<char>, ()>,
    peer: Option<PeerCaps>,
    files: Map<Seq<char>, FileReads>,
    c: Seq<char>,
    remote: i64,
    r: Seq<NetPacket>,
) -> bool {
    if excluded.contains_key(c) {
        b == a && r.len() == 0
    } else {
        exists|m: Hako, v: i64|
            #![trigger shard_opened(a, m, c), is_version(shard_places(a.shards@, c), v)]
            shard_opened(a, m, c) && is_version(shard_places(a.shards@, c), v) && if v > remote {
                exists|reads: FileReads| #[trigger]
                    reads_are(files, c, reads) && delta_sent(m, b, c, remote, peer, reads, r)
            } else {
                b == m && r.len() == 0
            }
    }
}

/// What a node tells a peer that has told how far it has come, where `t` are the states of
/// the store in between.
pub open spec fn answered_along(
    t: Seq<Hako>,
    groups: Seq<Seq<NetPacket>>,
    excluded: Map<Seq<char>, ()>,
    peer: Option<PeerCaps>,
    files: Map<Seq<char>, FileReads>,
    versions: Seq<(Seq<char>, i64)>,
) -> bool {
    &&& t.len() == versions.len() + 1
    &&& groups.len() == versions.len()
    &&& forall|i: int|
        0 <= i < versions.len() ==> answer_one(
            t[i],
            t[i + 1],
            excluded,
            peer,
            files,
            (#[trigger] versions[i]).0,
            versions[i].1,
            groups[i],
        )
}

/// What a node tells a peer that has told how far it has come.
pub open spec fn answered(
    a: Hako,
    b: Hako,
    excluded: Map<Seq<char>, ()>,
    peer: Option<PeerCaps>,
    files: Map<Seq<char>, FileReads>,
    versions: Seq<(Seq<char>, i64)>,
    r: Seq<NetPacket>,
) -> bool {
    exists|t: Seq<Hako>, groups: Seq<Seq<NetPacket>>| #[trigger]
        answered_along(t, groups, excluded, peer, files, versions) && t[0] == a && t.last() == b && r == all_of(groups)
}

/// Tells of one collection that a peer has told its time of.
fn answer_collection(
    db: &mut Hako,
    syncer: &NetSyncer,
    peer_id: &String,
    files: &NameTable<FileReads>,
    nothing: &FileReads,
    col: &String,
    remote: i64,
) -> (r: Vec<NetPacket>)
    requires
        old(db).wf(),
        syncer.wf(),
        files_wf(*files),
        nothing.wf(),
        nothing.documents@ == Map::<Seq<char>, Vec<u8>>::empty(),
        nothing.blobs@ == Map::<u64, Vec<u8>>::empty(),
    ensures
        final(db).wf(),
        answer_one(
            *old(db),
            *final(db),
            syncer.excluded@,
            known_caps(syncer.caps@, peer_id@),
            files@,
            col@,
            remote,
            r@,
        ),
{
    if syncer.excluded.contains(col) {
        return Vec::new();
    }
    let ghost a = *db;
    let v = db.get_collection_version(col.as_str());
    let ghost m = *db;
    proof {
        assert(shard_opened(a, m, col@));
        assert(is_version(shard_places(a.shards@, col@), v));
    }
    if v > remote {
        let reads = reads_for(files, col.as_str(), nothing);
        let r = delta_send(db, &syncer.caps, peer_id, col.as_str(), remote, reads);
        proof {
            assert(reads_are(files@, col@, *reads));
        }
        r
    } else {
        Vec::new()
    }
}

/// Tells a peer what it has missed of the collections that it has told of.
fn answer_ping(
    db: &mut Hako,
    syncer: &NetSyncer,
    peer_id: &String,
    files: &NameTable<FileReads>,
    versions: &SortedMap<String, i64>,
) -> (r: Vec<NetPacket>)
    requires
        old(db).wf(),
        syncer.wf(),
        files_wf(*files),
    ensures
        final(db).wf(),
        answered(
            *old(db),
            *final(db),
            syncer.excluded@,
            known_caps(syncer.caps@, peer_id@),
            files@,
            versions.seq(),
            r@,
        ),
{
    let ghost start = *db;
    let ghost s = versions.seq();
    let ghost ex = syncer.excluded@;
    let ghost caps = known_caps(syncer.caps@, peer_id@);
    let ghost mut t: Seq<Hako> = seq![start];
    let ghost mut groups: Seq<Seq<NetPacket>> = Seq::empty();
    let nothing = FileReads::new();
    let mut r: Vec<NetPacket> = Vec::new();
    let mut i: usize = 0;
    while i < versions.len()
        invariant
            db.wf(),
            syncer.wf(),
            files_wf(*files),
            nothing.wf(),
            nothing.documents@ == Map::<Seq<char>, Vec<u8>>::empty(),
            nothing.blobs@ == Map::<u64, Vec<u8>>::empty(),
            s == versions.seq(),
            ex == syncer.excluded@,
            caps == known_caps(syncer.caps@, peer_id@),
            i <= s.len(),
            answered_along(t, groups, ex, caps, files@, s.take(i as int)),
            t[0] == start,
            t.last() == *db,
            r@ == all_of(groups),
        decreases s.len() - i,
    {
        let ghost before = *db;
        let (col, remote) = versions.entry(i);
        let mut part = answer_collection(db, syncer, peer_id, files, &nothing, col, *remote);
        let ghost g = part@;
        proof {
            let t2 = t.push(*db);
            let g2 = groups.push(g);
            let s2 = s.take(i + 1);
            assert forall|k: int| 0 <= k < s2.len() implies answer_one(
                t2[k],
                t2[k + 1],
                ex,
                caps,
                files@,
                (#[trigger] s2[k]).0,
                s2[k].1,
                g2[k],
            ) by {
                if k < i {
                    assert(s2[k] == s.take(i as int)[k]);
                    assert(t2[k] == t[k] && t2[k + 1] == t[k + 1]);
                }
            }
            all_of_push(groups, g);
            t = t2;
            groups = g2;
        }
        r.append(&mut part);
        i = i + 1;
    }
    proof {
        assert(s.take(i as int) =~= s);
        assert(answered_along(t, groups, ex, caps, files@, s));
    }
    r
}

/// What a new peer gets of one collection.
pub open spec fn supply_one(
    a: Hako,
    b: Hako,
    excluded: Map<Seq<char>, ()>,
    peer: Option<PeerCaps>,
    files: Map<Seq<char>, FileReads>,
    c: Seq<char>,
    r: Seq<NetPacket>,
) -> bool {
    if excluded.contains_key(c) {
        b == a && r.len() == 0
    } else {
        exists|reads: FileReads| #[trigger] reads_are(files, c, reads) && bootstrapped(a, b, c, peer, reads, r)
    }
}

/// What a new peer gets of collections, where `t` are the states of the store in between.
pub open spec fn supplied_along(
    t: Seq<Hako>,
    groups: Seq<Seq<NetPacket>>,
    excluded: Map<Seq<char>, ()>,
    peer: Option<PeerCaps>,
    files: Map<Seq<char>, FileReads>,
    cols: Seq<Seq<char>>,
) -> bool {
    &&& t.len() == cols.len() + 1
    &&& groups.len() == cols.len()
    &&& forall|i: int|
        0 <= i < cols.len() ==> supply_one(t[i], t[i + 1], excluded, peer, files, #[trigger] cols[i], groups[i])
}

/// What a peer that asks for everything gets.
pub open spec fn supplied(
    a: Hako,
    b: Hako,
    excluded: Map<Seq<char>, ()>,
    peer: Option<PeerCaps>,
    files: Map<Seq<char>, FileReads>,
    dirs: Seq<Seq<char>>,
    r: Seq<NetPacket>,
) -> bool {
    exists|t: Seq<Hako>, groups: Seq<Seq<NetPacket>>, cols: Seq<Seq<char>>| #[trigger]
        supplied_along(t, groups, excluded, peer, files, cols) && sorted_from(cols, syncing_of(a.config, dirs)) && t[0] == a
            && t.last() == b && r == all_of(groups)
}

/// Tells a peer that asks for everything all that replicates.
fn supply(
    db: &mut Hako,
    syncer: &NetSyncer,
    peer_id: &String,
    files: &NameTable<FileReads>,
    dirs: &Vec<String>,
) -> (r: Vec<NetPacket>)
    requires
        old(db).wf(),
        syncer.wf(),
        files_wf(*files),
    ensures
        final(db).wf(),
        supplied(
            *old(db),
            *final(db),
            syncer.excluded@,
            known_caps(syncer.caps@, peer_id@),
            files@,
            names_view(dirs@),
            r@,
        ),
{
    let ghost start = *db;
    let cols = sync_collections(&db.config, dirs);
    let ghost s = names_view(cols@);
    let ghost ex = syncer.excluded@;
    let ghost caps = known_caps(syncer.caps@, peer_id@);
    let ghost mut t: Seq<Hako> = seq![start];
    let ghost mut groups: Seq<Seq<NetPacket>> = Seq::empty();
    let nothing = FileReads::new();
    let mut r: Vec<NetPacket> = Vec::new();
    let mut i: usize = 0;
    while i < cols.len()
        invariant
            db.wf(),
            syncer.wf(),
            files_wf(*files),
            nothing.wf(),
            nothing.documents@ == Map::<Seq<char>, Vec<u8>>::empty(),
            nothing.blobs@ == Map::<u64, Vec<u8>>::empty(),
            s == names_view(cols@),
            ex == syncer.excluded@,
            caps == known_caps(syncer.caps@, peer_id@),
            i <= s.len(),
            supplied_along(t, groups, ex, caps, files@, s.take(i as int)),
            t[0] == start,
            t.last() == *db,
            r@ == all_of(groups),
        decreases s.len() - i,
    {
        let ghost before = *db;
        let mut part: Vec<NetPacket> = Vec::new();
        if !syncer.excluded.contains(&cols[i]) {
            let reads = reads_for(files, cols[i].as_str(), &nothing);
            part = bootstrap(db, &syncer.caps, peer_id, cols[i].as_str(), reads);
            proof {
                assert(reads_are(files@, s[i as int], *reads));
            }
        }
        let ghost g = part@;
        proof {
            assert(supply_one(before, *db, ex, caps, files@, s[i as int], g));
            let t2 = t.push(*db);
            let g2 = groups.push(g);
            let s2 = s.take(i + 1);
            assert forall|k: int| 0 <= k < s2.len() implies supply_one(
                t2[k],
                t2[k + 1],
                ex,
                caps,
                files@,
                #[trigger] s2[k],
                g2[k],
            ) by {
                if k < i {
                    assert(s2[k] == s.take(i as int)[k]);
                    assert(t2[k] == t[k] && t2[k + 1] == t[k + 1]);
                }
            }
            all_of_push(groups, g);
            t = t2;
            groups = g2;
        }
        r.append(&mut part);
        i = i + 1;
    }
    proof {
        assert(s.take(i as int) =~= s);
        assert(supplied_along(t, groups, ex, caps, files@, s));
    }
    r
}

/// What follows from changes of a peer: nothing where the collection never replicates, the
/// message came before, or the collection is encrypted here and the peer has not told of the
/// same key; else they are applied, and passed on where this node does so.
pub open spec fn changes_heard(
    a: Hako,
    n0: NetSyncer,
    b: Hako,
    n1: NetSyncer,
    peer: Seq<char>,
    reads: FileReads,
    msg_id: u128,
    c: Seq<char>,
    ops: Seq<Change>,
    r: NetStep,
) -> bool {
    &&& r.replies@.len() == 0
    &&& r.wishes@.len() == 0
    &&& if n0.excluded@.contains_key(c) || msg_id != 0 && n0.seen_messages.seq().contains(msg_id) {
        b == a && n1 == n0 && nothing_follows(r)
    } else {
        &&& n1.seen_messages.seq() == (if msg_id != 0 {
            remembered(n0.seen_messages.seq(), msg_id)
        } else {
            n0.seen_messages.seq()
        })
        &&& n1 == (NetSyncer { seen_messages: n1.seen_messages, echo_cache: n1.echo_cache, ..n0 })
        &&& if !flows(encrypted(a.config, c), own_fp(a), told_fp(known_caps(n0.caps@, peer))) {
            b == a && n1.echo_cache == n0.echo_cache && nothing_follows(r)
        } else {
            &&& intake_done(a, n0.echo_cache@, b, n1.echo_cache@, c, ops, reads, r.applied)
            &&& names_view(r.pass_to@) == (if msg_id != 0 && n0.enable_relay {
                passed_on(n0.caps@, c, peer, n0.peers.seq())
            } else {
                Seq::empty()
            })
        }
    }
}

/// What follows from a message of a peer.
pub open spec fn heard(
    a: Hako,
    n0: NetSyncer,
    b: Hako,
    n1: NetSyncer,
    peer: Seq<char>,
    files: Map<Seq<char>, FileReads>,
    dirs: Seq<Seq<char>>,
    now: u64,
    packet: NetPacket,
    r: NetStep,
) -> bool {
    match packet {
        NetPacket::Ping { versions, indexes } => {
            &&& n1 == (NetSyncer { last_mesh_ping: now, ..n0 })
            &&& needs(r.wishes@) == wished(indexes)
            &&& r.applied is None
            &&& r.pass_to@.len() == 0
            &&& answered(a, b, n0.excluded@, known_caps(n0.caps@, peer), files, versions.seq(), r.replies@)
        },
        NetPacket::SyncRequest => {
            &&& n1 == n0
            &&& r.wishes@.len() == 0
            &&& r.applied is None
            &&& r.pass_to@.len() == 0
            &&& supplied(a, b, n0.excluded@, known_caps(n0.caps@, peer), files, dirs, r.replies@)
        },
        NetPacket::Replication { msg_id, collection, ops } => {
            exists|reads: FileReads| #[trigger]
                reads_are(files, collection@, reads) && changes_heard(
                    a,
                    n0,
                    b,
                    n1,
                    peer,
                    reads,
                    msg_id,
                    collection@,
                    ops_view(ops@),
                    r,
                )
        },
        NetPacket::SyncCaps { key_fp, encrypted_cols } => {
            &&& r.wishes@.len() == 0
            &&& r.applied is None
            &&& r.pass_to@.len() == 0
            &&& n1 == (NetSyncer { caps: n1.caps, ..n0 })
            &&& n1.caps@.contains_key(peer)
            &&& n1.caps@ == n0.caps@.insert(peer, n1.caps@[peer])
            &&& n1.caps@[peer].key_fp == key_fp
            &&& names_view(n1.caps@[peer].encrypted_cols@) == names_view(encrypted_cols@)
            &&& places_same(a, b)
            &&& r.replies@.len() == 2
            &&& is_ping(a, dirs, r.replies@[0])
            &&& r.replies@[1] is SyncRequest
        },
        NetPacket::Identify { .. } => b == a && n1 == n0 && nothing_follows(r),
    }
}

/// Hears a message of a peer. `dirs` are the directories of the store, and `now` is in
/// milliseconds.
pub fn hear(
    db: &mut Hako,
    syncer: &mut NetSyncer,
    peer_id: &String,
    files: &NameTable<FileReads>,
    dirs: &Vec<String>,
    now: u64,
    packet: &NetPacket,
) -> (r: NetStep)
    requires
        old(db).wf(),
        old(syncer).wf(),
        files_wf(*files),
    ensures
        final(db).wf(),
        final(syncer).wf(),
        heard(
            *old(db),
            *old(syncer),
            *final(db),
            *final(syncer),
            peer_id@,
            files@,
            names_view(dirs@),
            now,
            *packet,
            r,
        ),
{
    let ghost a = *db;
    let ghost n0 = *syncer;
    match packet {
        NetPacket::Ping { versions, indexes } => {
            syncer.last_mesh_ping = now;
            let wishes = index_wishes(indexes);
            let replies = answer_ping(db, syncer, peer_id, files, versions);
            NetStep { replies, wishes, applied: None, pass_to: Vec::new() }
        },
        NetPacket::SyncRequest => {
            let replies = supply(db, syncer, peer_id, files, dirs);
            NetStep { replies, wishes: Vec::new(), applied: None, pass_to: Vec::new() }
        },
        NetPacket::Replication { msg_id, collection, ops } => {
            let nothing = FileReads::new();
            let reads = reads_for(files, collection.as_str(), &nothing);
            proof {
                assert(reads_are(files@, collection@, *reads));
            }
            hear_changes(db, syncer, peer_id, reads, *msg_id, collection, ops)
        },
        NetPacket::SyncCaps { key_fp, encrypted_cols } => {
            let told = PeerCaps { key_fp: *key_fp, encrypted_cols: names_copy(encrypted_cols) };
            let ghost t = told;
            let had = syncer.caps.insert(peer_id.clone(), told);
            let ping = make_ping(db, dirs);
            let mut replies: Vec<NetPacket> = Vec::new();
            replies.push(ping);
            replies.push(NetPacket::SyncRequest);
            proof {
                assert(syncer.caps@ =~= n0.caps@.insert(peer_id@, t));
            }
            NetStep { replies, wishes: Vec::new(), applied: None, pass_to: Vec::new() }
        },
        NetPacket::Identify { .. } => no_step(),
    }
}

/// Hears changes of a peer.
fn hear_changes(
    db: &mut Hako,
    syncer: &mut NetSyncer,
    peer_id: &String,
    reads: &FileReads,
    msg_id: u128,
    collection: &String,
    ops: &Vec<WalOp>,
) -> (r: NetStep)
    requires
        old(db).wf(),
        old(syncer).wf(),
        reads.wf(),
    ensures
        final(db).wf(),
        final(syncer).wf(),
        changes_heard(
            *old(db),
            *old(syncer),
            *final(db),
            *final(syncer),
            peer_id@,
            *reads,
            msg_id,
            collection@,
            ops_view(ops@),
            r,
        ),
{
    if syncer.excluded.contains(collection) {
        return no_step();
    }
    let ghost n0 = *syncer;
    let fresh = syncer.seen_messages.note(msg_id);
    if !fresh {
        return no_step();
    }
    let fp = config_fingerprint(&db.config);
    if !caps_allow(is_collection_encrypted(&db.config, collection.as_str()), &fp, syncer.caps.get(peer_id)) {
        return no_step();
    }
    let applied = apply_replication_batch(db, &mut syncer.echo_cache, collection.as_str(), ops, reads);
    let pass_to: Vec<String> = if msg_id != 0 && syncer.enable_relay {
        relay_mesh(&syncer.caps, collection.as_str(), peer_id, &syncer.peers)
    } else {
        Vec::new()
    };
    proof {
        if !(msg_id != 0 && n0.enable_relay) {
            assert(names_view(pass_to@) =~= Seq::<Seq<char>>::empty());
        }
    }
    NetStep { replies: Vec::new(), wishes: Vec::new(), applied, pass_to }
}

/// What a node sends when the log of a collection has grown, and to whom.
pub open spec fn tail_sent(
    a: Hako,
    n0: NetSyncer,
    b: Hako,
    n1: NetSyncer,
    c: Seq<char>,
    ops: Seq<Change>,
    msg_id: u128,
    reads: FileReads,
    r: Option<(NetPacket, Vec<String>)>,
) -> bool {
    if n0.excluded@.contains_key(c) {
        b == a && n1 == n0 && r is None
    } else {
        let t = mesh_tailed(
            n0.echo_cache@,
            ops,
            c,
            a.marks@,
            reads,
            shard_end(b.shards@, c) is Some,
            shard_queue(b.shards@, c),
        );
        &&& shard_opened(a, b, c)
        &&& n1 == (NetSyncer { echo_cache: n1.echo_cache, ..n0 })
        &&& n1.echo_cache@ == t.echo
        &&& match r {
            None => t.out.len() == 0,
            Some((p, to)) => {
                &&& t.out.len() > 0
                &&& brings(p, msg_id, c, t.out)
                &&& names_view(to@) == fan_out(encrypted(a.config, c), own_fp(a), n0.caps@, n0.peers.seq())
            },
        }
    }
}

/// What a node sends when the log of a collection has grown, and to whom.
pub fn tail_send(
    db: &mut Hako,
    syncer: &mut NetSyncer,
    col: &String,
    ops: &Vec<WalOp>,
    msg_id: u128,
    reads: &FileReads,
) -> (r: Option<(NetPacket, Vec<String>)>)
    requires
        old(db).wf(),
        old(syncer).wf(),
        reads.wf(),
    ensures
        final(db).wf(),
        final(syncer).wf(),
        tail_sent(
            *old(db),
            *old(syncer),
            *final(db),
            *final(syncer),
            col@,
            ops_view(ops@),
            msg_id,
            *reads,
            r,
        ),
{
    if syncer.excluded.contains(col) {
        return None;
    }
    let fp = config_fingerprint(&db.config);
    let enc = is_collection_encrypted(&db.config, col.as_str());
    let out = mesh_outgoing(db, &mut syncer.echo_cache, col.as_str(), ops, reads);
    if out.len() == 0 {
        return None;
    }
    let to = fan_out_to(enc, &fp, &syncer.caps, &syncer.peers);
    Some((NetPacket::Replication { msg_id, collection: col.clone(), ops: out }, to))
}

/// Nothing that never replicates from a node is told to a peer that asks for everything.
pub proof fn excluded_is_not_supplied(
    a: Hako,
    b: Hako,
    excluded: Map<Seq<char>, ()>,
    peer: Option<PeerCaps>,
    files: Map<Seq<char>, FileReads>,
    c: Seq<char>,
    r: Seq<NetPacket>,
)
    requires
        excluded.contains_key(c),
        supply_one(a, b, excluded, peer, files, c, r),
    ensures
        r.len() == 0,
        b == a,
{
}

/// Changes of a collection that is encrypted here change nothing, and go nowhere, where they
/// come from a peer that has not told of the same key.
pub proof fn strangers_change_nothing(
    a: Hako,
    n0: NetSyncer,
    b: Hako,
    n1: NetSyncer,
    peer: Seq<char>,
    reads: FileReads,
    msg_id: u128,
    c: Seq<char>,
    ops: Seq<Change>,
    r: NetStep,
)
    requires
        changes_heard(a, n0, b, n1, peer, reads, msg_id, c, ops, r),
        encrypted(a.config, c),
        told_fp(known_caps(n0.caps@, peer)) != Some(own_fp(a)),
    ensures
        b == a,
        n1.echo_cache == n0.echo_cache,
        nothing_follows(r),
{
}

/// A message that came before changes nothing, and goes nowhere.
pub proof fn a_message_counts_once(
    a: Hako,
    n0: NetSyncer,
    b: Hako,
    n1: NetSyncer,
    peer: Seq<char>,
    reads: FileReads,
    msg_id: u128,
    c: Seq<char>,
    ops: Seq<Change>,
    r: NetStep,
)
    requires
        changes_heard(a, n0, b, n1, peer, reads, msg_id, c, ops, r),
        msg_id != 0,
        n0.seen_messages.seq().contains(msg_id),
    ensures
        b == a,
        n1 == n0,
        nothing_follows(r),
{
}

} // verus!
