//! What a client and a server have of each other once they have met: who is a member, what comes
//! in, how far each has come, and what rooms are called.
use vstd::prelude::*;
use vstd::string::*;

use crate::cloud_sync::catchup::room_versions_are;
use crate::cloud_sync::config::{default_config, CloudSyncConfig};
use crate::cloud_sync::ingest::{
    encrypts, flushed, flushed_along, flushed_one, flushed_with, item_ops, items_view, own_fp, recipients, text_view, waiting_count, Circle, Flush,
    IngestItem, Item, PeerMap,
};
use crate::cloud_sync::packet::CloudPacket;
use crate::cloud_sync::rooms::{
    cleaned, is_new_prefix, numbered, plain_char, room_doc, room_id, sanitized, storage_name, stripped, texts,
};
use crate::cloud_sync::session::{
    asks_to_join, client_heard, client_pinged, greeted, is_nack, own_versions, pairs_map, peer_name, server_heard, told, Admission,
    Hall, ServerSession, ServerStep,
};
use crate::cloud_sync::tail::{server_tailed, tailed};
use crate::config::HakoConfig;
use crate::document::firelite_doc::{names_view, with_field, with_field_holds};
use crate::document::value::Val;
use crate::engine::access::encrypted;
use crate::engine::collections::visible_of;
use crate::engine::engine::{shard_queue, Hako};
use crate::engine::files::{reads_are, FileReads};
use crate::engine::remote::replicated;
use crate::engine::write::{empty_doc, shard_end, shard_places};
use crate::storage::pointer::place_time;
use crate::storage::shard::is_version;
use crate::storage::wal::{ops_view, Change};
use crate::sync_guard::{caps_of, encrypted_of, fingerprint, CapsMap, PeerCaps};
use crate::util::decimal::{digits, digits_are_read, read_digits};

verus! {

/// A client that is let in is a member of its room: it is among the peers under the name of the
/// session, with the prefix of the room, what it told of its encryption is known, and the reply
/// says so. One that is not let in is told why.
pub proof fn admitted_is_member(
    a: Hako,
    h0: Hall,
    b: Hako,
    h1: Hall,
    packet: CloudPacket,
    group_reads: FileReads,
    rooms_reads: FileReads,
    now_secs: i64,
    now_nanos: i64,
    r: Admission,
    other: Seq<char>,
)
    requires
        greeted(a, h0, b, h1, Some(packet), group_reads, rooms_reads, now_secs, now_nanos, r),
    ensures
        r.session matches Some(s) ==> {
            &&& r.reply matches CloudPacket::AuthResult { success, error } && success && error is None
            &&& packet matches CloudPacket::Authenticate { client_id, enc_fp, enc_cols, .. } && {
                &&& texts(h1.peers@).contains_key(s.peer_key@) && texts(h1.peers@)[s.peer_key@] == s.prefix@
                &&& h1.caps@.contains_key(s.peer_key@) && told(h1.caps@[s.peer_key@], enc_fp, names_view(enc_cols@))
                &&& exists|id: Seq<char>| s.peer_key@ == id + ":"@ + client_id@ && #[trigger] peer_name(id, client_id@)
                    == s.peer_key@
            }
            &&& other != s.peer_key@ ==> texts(h1.peers@).contains_key(other) == texts(h0.peers@).contains_key(other) && (
            texts(h0.peers@).contains_key(other) ==> texts(h1.peers@)[other] == texts(h0.peers@)[other])
        },
        r.session is None ==> (r.reply matches CloudPacket::AuthResult { success, error } && !success && error is Some),
        !(packet is Authenticate) ==> r.session is None,
{
}

/// A new message of a client brings in each of its changes, with the room and the name of the
/// client; one that came before brings in nothing, and is not remembered again.
pub proof fn message_comes_in_once(
    a: Hako,
    seen0: Seq<u128>,
    b: Hako,
    seen1: Seq<u128>,
    session: ServerSession,
    caps: Map<Seq<char>, PeerCaps>,
    files: Map<Seq<char>, FileReads>,
    dirs: Seq<Seq<char>>,
    packet: CloudPacket,
    r: ServerStep,
    i: int,
)
    requires
        server_heard(a, seen0, b, seen1, session, caps, files, dirs, packet, r),
    ensures
        packet matches CloudPacket::Replication { msg_id, collection, ops } ==> {
            &&& b == a
            &&& msg_id != 0 && seen0.contains(msg_id) ==> r.ingest@.len() == 0 && seen1 == seen0
            &&& msg_id == 0 || !seen0.contains(msg_id) ==> items_view(r.ingest@).len() == ops_view(ops@).len() && (0 <= i
                < ops_view(ops@).len() ==> items_view(r.ingest@)[i].op == ops_view(ops@)[i] && items_view(
                r.ingest@,
            )[i].collection == collection@ && items_view(r.ingest@)[i].prefix == session.prefix@ && items_view(
                r.ingest@,
            )[i].sender == Some(session.peer_key@))
            &&& msg_id != 0 ==> seen1.contains(msg_id)
        },
        packet matches CloudPacket::VersionPing { .. } ==> r.replies@.len() > 0 && r.replies@[0] is VersionPing
            && r.ingest@.len() == 0,
        !(packet is Replication) ==> r.ingest@.len() == 0 && seen1 == seen0,
{
    if let CloudPacket::Replication { msg_id, .. } = packet {
        if msg_id != 0 && !seen0.contains(msg_id) {
            assert(seen0.push(msg_id)[seen0.len() as int] == msg_id);
            assert(seen1[seen1.len() - 1] == msg_id);
        }
    }
}

/// A new message of the server brings in each of its changes, of no room and without a sender;
/// one that came before brings in nothing.
pub proof fn news_of_server_come_in_once(
    a: Hako,
    seen0: Seq<u128>,
    b: Hako,
    seen1: Seq<u128>,
    files: Map<Seq<char>, FileReads>,
    dirs: Seq<Seq<char>>,
    id: u128,
    packet: CloudPacket,
    r: ServerStep,
    i: int,
)
    requires
        client_heard(a, seen0, b, seen1, files, dirs, id, packet, r),
    ensures
        packet matches CloudPacket::Replication { msg_id, collection, ops } ==> {
            &&& b == a
            &&& msg_id != 0 && seen0.contains(msg_id) ==> r.ingest@.len() == 0 && seen1 == seen0
            &&& msg_id == 0 || !seen0.contains(msg_id) ==> items_view(r.ingest@).len() == ops_view(ops@).len() && (0 <= i
                < ops_view(ops@).len() ==> items_view(r.ingest@)[i].op == ops_view(ops@)[i] && items_view(
                r.ingest@,
            )[i].collection == collection@ && items_view(r.ingest@)[i].prefix.len() == 0 && items_view(
                r.ingest@,
            )[i].sender is None)
            &&& msg_id != 0 ==> seen1.contains(msg_id)
        },
        !(packet is Replication) ==> r.ingest@.len() == 0 && seen1 == seen0,
{
    reveal_strlit("");
    if let CloudPacket::Replication { msg_id, .. } = packet {
        if msg_id != 0 && !seen0.contains(msg_id) {
            assert(seen0.push(msg_id)[seen0.len() as int] == msg_id);
            assert(seen1[seen1.len() - 1] == msg_id);
        }
    }
}

/// A client that was let in tells how far each of its collections has come; one that was not
/// tells nothing.
pub proof fn let_in_tells_versions(
    a: Hako,
    b: Hako,
    dirs: Seq<Seq<char>>,
    success: bool,
    error: Option<String>,
    r: Option<CloudPacket>,
)
    requires
        client_pinged(a, b, dirs, CloudPacket::AuthResult { success, error }, r),
    ensures
        !success ==> r is None && b == a,
        success ==> (r matches Some(CloudPacket::VersionPing { versions }) && exists|list: Seq<(String, i64)>| #[trigger]
            own_versions(a, dirs, list) && versions@ == pairs_map(list)),
{
}

/// A client asks to join with its token, its name, the room and its key.
pub proof fn join_tells_all(
    p: CloudPacket,
    config: HakoConfig,
    dirs: Seq<Seq<char>>,
    token: Seq<char>,
    client: Seq<char>,
    room: Seq<char>,
    key: Seq<char>,
    api: Option<Seq<char>>,
    version: Seq<char>,
)
    requires
        asks_to_join(p, config, dirs, token, client, room, key, api, version),
    ensures
        p matches CloudPacket::Authenticate { token: t, client_id, room_name, room_key, api_key, enc_fp, .. } && t@ == token
            && client_id@ == client && room_name@ == room && room_key@ == key && text_view(api_key) == api && enc_fp is Some,
{
}

/// The collections of a room are told by the names that its clients know, each with its latest
/// time, and no others.
pub proof fn room_tells_its_collections(
    db: Hako,
    prefix: Seq<char>,
    names: Seq<Seq<char>>,
    m: Map<Seq<char>, i64>,
    plain: Seq<char>,
    k: Seq<char>,
)
    requires
        room_versions_are(db, prefix, names, m),
    ensures
        plain.len() > 0 && visible_of(names).contains(prefix + "_"@ + plain) ==> m.contains_key(plain),
        m.contains_key(plain) ==> plain.len() > 0 && visible_of(names).contains(prefix + "_"@ + plain) && (shard_places(
            db.shards@,
            prefix + "_"@ + plain,
        ).contains_key(k) ==> place_time(shard_places(db.shards@, prefix + "_"@ + plain)[k]) <= m[plain]),
{
    if m.contains_key(plain) {
        assert(is_version(shard_places(db.shards@, prefix + "_"@ + plain), m[plain]));
    }
}

/// What waits is taken collection by collection, each with the changes that wait for it.
pub proof fn all_that_waits_is_taken(
    t: Seq<(Hako, Map<Seq<char>, i64>)>,
    a: Hako,
    e0: Map<Seq<char>, i64>,
    b: Hako,
    e1: Map<Seq<char>, i64>,
    circle: Circle,
    files: Map<Seq<char>, FileReads>,
    rows: Seq<(Seq<char>, Vec<IngestItem>)>,
    r: Seq<Flush>,
    i: int,
)
    requires
        flushed_along(t, a, e0, b, e1, circle, files, rows, r),
        0 <= i < rows.len(),
    ensures
        r.len() == rows.len(),
        t[0] == (a, e0),
        t[rows.len() as int] == (b, e1),
        exists|reads: FileReads| #[trigger]
            reads_are(files, rows[i].0, reads) && flushed_one(
                t[i].0,
                t[i].1,
                t[i + 1].0,
                t[i + 1].1,
                circle,
                reads,
                rows[i].0,
                items_view(rows[i].1@),
                r[i],
            ),
{
    let x = rows[i];
    assert(crate::cloud_sync::ingest::flushed_with(
        t[i].0,
        t[i].1,
        t[i + 1].0,
        t[i + 1].1,
        circle,
        files,
        x.0,
        items_view(x.1@),
        r[i],
    ));
}

/// As many changes wait as wait for each collection, taken together.
pub proof fn waiting_is_counted(rows: Seq<(Seq<char>, Vec<IngestItem>)>, row: (Seq<char>, Vec<IngestItem>))
    ensures
        waiting_count(Seq::empty()) == 0,
        waiting_count(rows.push(row)) == waiting_count(rows) + row.1@.len(),
{
    assert(rows.push(row).drop_last() =~= rows);
}

/// Where the log of a collection of a room has grown by anything that is to be sent, a message
/// with it goes to the members of the room, under the name that they know; a collection of no
/// room is not sent.
pub proof fn growth_is_sent(
    a: Hako,
    e0: Map<Seq<char>, i64>,
    b: Hako,
    e1: Map<Seq<char>, i64>,
    owner: Option<(Seq<char>, Seq<char>)>,
    caps: CapsMap,
    peers: PeerMap,
    c: Seq<char>,
    ops: Seq<Change>,
    msg_id: u128,
    reads: FileReads,
    r: Option<(CloudPacket, Vec<String>)>,
)
    requires
        server_tailed(a, e0, b, e1, owner, caps, peers, c, ops, msg_id, reads, r),
    ensures
        owner is None ==> r is None && e1 == e0 && b == a,
        owner matches Some((prefix, plain)) ==> ({
            let t = tailed(
                e0,
                ops,
                prefix,
                plain,
                a.marks@,
                shard_end(b.shards@, c) is Some,
                shard_queue(b.shards@, c),
                reads.blobs@,
            );
            &&& e1 == t.echo
            &&& t.out.len() > 0 ==> r is Some
            &&& r matches Some((p, to)) ==> (p matches CloudPacket::Replication { msg_id: n, collection, ops: o } && n
                == msg_id && collection@ == plain && ops_view(o@) == t.out) && names_view(to@) == recipients(
                prefix,
                plain,
                encrypts(a, c, plain),
                own_fp(a),
                caps@,
                None,
                peers.seq(),
            )
        }),
{
}

/// The encrypted ones among names are those that the configuration encrypts, in their order.
pub proof fn encrypted_are_told(config: HakoConfig, a: Seq<Seq<char>>, b: Seq<Seq<char>>, c: Seq<char>)
    ensures
        encrypted_of(config, a + b) == encrypted_of(config, a) + encrypted_of(config, b),
        encrypted(config, c) ==> encrypted_of(config, seq![c]) == seq![c],
        !encrypted(config, c) ==> encrypted_of(config, seq![c]).len() == 0,
    decreases b.len(),
{
    assert(seq![c].drop_last() =~= Seq::<Seq<char>>::empty());
    assert(encrypted_of(config, Seq::empty()) =~= Seq::<Seq<char>>::empty());
    assert(Seq::<Seq<char>>::empty().push(c) =~= seq![c]);
    if b.len() == 0 {
        assert(a + b =~= a);
        assert(encrypted_of(config, a) + encrypted_of(config, b) =~= encrypted_of(config, a));
    } else {
        encrypted_are_told(config, a, b.drop_last(), c);
        assert((a + b).drop_last() =~= a + b.drop_last());
        assert((a + b).last() == b.last());
        assert(encrypted_of(config, a + b) =~= encrypted_of(config, a) + encrypted_of(config, b));
    }
}

/// A name of letters, digits, underscores and hyphens, of 40 characters at most and without an
/// underscore at its end, is its own prefix.
pub proof fn plain_name_is_its_prefix(name: Seq<char>)
    requires
        0 < name.len() <= 40,
        name.last() != '_',
        forall|i: int|
            0 <= i < name.len() ==> ('a' <= (#[trigger] name[i]) && name[i] <= 'z') || ('A' <= name[i] && name[i] <= 'Z')
                || ('0' <= name[i] && name[i] <= '9') || name[i] == '_' || name[i] == '-',
    ensures
        sanitized(name) == name,
{
    assert forall|i: int| 0 <= i < name.len() implies plain_char(#[trigger] name[i]) by {}
    plain_is_clean(name);
}

proof fn plain_is_clean(s: Seq<char>)
    requires
        forall|i: int| 0 <= i < s.len() ==> plain_char(#[trigger] s[i]),
    ensures
        cleaned(s) == s,
    decreases s.len(),
{
    if s.len() > 0 {
        let t = s.drop_last();
        assert forall|i: int| 0 <= i < t.len() implies plain_char(#[trigger] t[i]) by {
            assert(t[i] == s[i]);
        }
        plain_is_clean(t);
        assert(plain_char(s[s.len() - 1]));
        assert(t.push(s.last()) =~= s);
    } else {
        assert(cleaned(s) =~= s);
    }
}

/// Other characters inside a name become one underscore, and those around it none.
pub proof fn others_become_underscores(a: Seq<char>, others: Seq<char>, b: Seq<char>)
    requires
        a.len() > 0,
        b.len() > 0,
        others.len() > 0,
        a.last() != '_',
        forall|i: int| 0 <= i < a.len() ==> plain_char(#[trigger] a[i]),
        forall|i: int| 0 <= i < b.len() ==> plain_char(#[trigger] b[i]),
        forall|i: int| 0 <= i < others.len() ==> !plain_char(#[trigger] others[i]),
    ensures
        cleaned(a + others + b) == a + seq!['_'] + b,
        cleaned(others + b) == b,
{
    plain_is_clean(a);
    run_becomes_one(a, others);
    behind_is_kept(a + others, b);
    assert(a.push('_') + b =~= a + seq!['_'] + b);
    nothing_in_front(others);
    behind_is_kept(others, b);
    assert(Seq::<char>::empty() + b =~= b);
}

proof fn run_becomes_one(a: Seq<char>, others: Seq<char>)
    requires
        a.len() > 0,
        others.len() > 0,
        a.last() != '_',
        cleaned(a) == a,
        forall|i: int| 0 <= i < others.len() ==> !plain_char(#[trigger] others[i]),
    ensures
        cleaned(a + others) == a.push('_'),
    decreases others.len(),
{
    let s = a + others;
    let t = others.drop_last();
    assert(s.drop_last() =~= a + t);
    assert(s.last() == others[others.len() - 1]);
    if t.len() == 0 {
        assert(a + t =~= a);
    } else {
        assert forall|i: int| 0 <= i < t.len() implies !plain_char(#[trigger] t[i]) by {
            assert(t[i] == others[i]);
        }
        run_becomes_one(a, t);
        assert(a.push('_').last() == '_');
    }
}

proof fn nothing_in_front(others: Seq<char>)
    requires
        forall|i: int| 0 <= i < others.len() ==> !plain_char(#[trigger] others[i]),
    ensures
        cleaned(others) == Seq::<char>::empty(),
    decreases others.len(),
{
    if others.len() > 0 {
        let t = others.drop_last();
        assert forall|i: int| 0 <= i < t.len() implies !plain_char(#[trigger] t[i]) by {
            assert(t[i] == others[i]);
        }
        nothing_in_front(t);
        assert(!plain_char(others[others.len() - 1]));
    }
}

proof fn behind_is_kept(s: Seq<char>, b: Seq<char>)
    requires
        forall|i: int| 0 <= i < b.len() ==> plain_char(#[trigger] b[i]),
    ensures
        cleaned(s + b) == cleaned(s) + b,
    decreases b.len(),
{
    if b.len() == 0 {
        assert(s + b =~= s);
        assert(cleaned(s) + b =~= cleaned(s));
    } else {
        let t = b.drop_last();
        assert forall|i: int| 0 <= i < t.len() implies plain_char(#[trigger] t[i]) by {
            assert(t[i] == b[i]);
        }
        behind_is_kept(s, t);
        assert((s + b).drop_last() =~= s + t);
        assert((s + b).last() == b[b.len() - 1]);
        assert(cleaned(s + b) =~= cleaned(s) + b);
    }
}

/// A name of which nothing is left is `room`, and of a long one 40 characters are left.
pub proof fn prefix_is_never_empty(name: Seq<char>)
    ensures
        (forall|i: int| 0 <= i < name.len() ==> !plain_char(#[trigger] name[i])) ==> sanitized(name) == "room"@,
        stripped(cleaned(name)).len() > 40 ==> sanitized(name) == stripped(cleaned(name)).take(40),
        name.len() > 0 && name.last() == '_' ==> stripped(name) == stripped(name.drop_last()),
        name.len() == 0 || name.last() != '_' ==> stripped(name) == name,
{
    if forall|i: int| 0 <= i < name.len() ==> !plain_char(#[trigger] name[i]) {
        nothing_in_front(name);
    }
}

/// A collection of a room is kept under the prefix of the room, an underscore and its name, and
/// one of no room under its name.
pub proof fn rooms_have_their_own_names(p: Seq<char>, c: Seq<char>)
    ensures
        storage_name(Seq::empty(), c) == c,
        p.len() > 0 ==> storage_name(p, c) == p + seq!['_'] + c,
{
    reveal_strlit("_");
    assert("_"@ =~= seq!['_']);
}

/// The document that keeps a room tells its name, its prefix, the digest of its name and key, and
/// when it was made and last seen.
pub proof fn room_document_tells(name: Seq<char>, key: Seq<char>, prefix: Seq<char>, now: i64)
    ensures
        ({
            let m = room_doc(name, key, prefix, now).map();
            &&& m.contains_key("room_name"@) && m["room_name"@] == Val::String(name)
            &&& m.contains_key("key_hash"@) && m["key_hash"@] == Val::String(room_id(name, key))
            &&& m.contains_key("prefix"@) && m["prefix"@] == Val::String(prefix)
            &&& m.contains_key("created_at"@) && m["created_at"@] == Val::Int(now)
            &&& m.contains_key("last_seen"@) && m["last_seen"@] == Val::Int(now)
        }),
{
    reveal_strlit("room_name");
    reveal_strlit("key_hash");
    reveal_strlit("prefix");
    reveal_strlit("created_at");
    reveal_strlit("last_seen");
    let (a, b, c, d, e) = ("room_name"@, "key_hash"@, "prefix"@, "created_at"@, "last_seen"@);
    assert(a.len() == 9 && b.len() == 8 && c.len() == 6 && d.len() == 10 && e.len() == 9);
    assert(a[0] == 'r' && e[0] == 'l');
    let d0 = empty_doc();
    let d1 = with_field(d0, a, Val::String(name));
    let d2 = with_field(d1, b, Val::String(room_id(name, key)));
    let d3 = with_field(d2, c, Val::String(prefix));
    let d4 = with_field(d3, d, Val::Int(now));
    with_field_holds(d0, a, Val::String(name));
    with_field_holds(d1, b, Val::String(room_id(name, key)));
    with_field_holds(d2, c, Val::String(prefix));
    with_field_holds(d3, d, Val::Int(now));
    with_field_holds(d4, e, Val::Int(now));
}

/// A new room gets the prefix that its name suggests where that is free, and else that with the
/// first number behind it that makes it free.
pub proof fn new_room_gets_first_free(taken: Set<Seq<char>>, base: Seq<char>, p: Seq<char>)
    requires
        is_new_prefix(taken, base, p),
    ensures
        !taken.contains(p),
        !taken.contains(base) ==> p == base,
        taken.contains(base) ==> exists|n: nat|
            #![trigger digits(n, 10)]
            n >= 1 && p == base + "_"@ + digits(n, 10) && forall|m: nat|
                1 <= m < n ==> taken.contains(base + "_"@ + #[trigger] digits(m, 10)),
{
    if taken.contains(base) {
        let n = choose|n: nat|
            #![trigger numbered(base, n)]
            1 <= n && p == numbered(base, n) && !taken.contains(p) && forall|m: nat|
                1 <= m < n ==> taken.contains(#[trigger] numbered(base, m));
        assert forall|m: nat| 1 <= m < n implies taken.contains(base + "_"@ + #[trigger] digits(m, 10)) by {
            assert(taken.contains(numbered(base, m)));
        }
        assert(p == base + "_"@ + digits(n, 10));
    }
}

/// What a store tells of its encryption is the fingerprint of its key, and of the collections that
/// it is asked for those that its configuration encrypts.
pub proof fn caps_tell_encryption(config: HakoConfig, a: Seq<Seq<char>>, c: Seq<char>, b: Seq<Seq<char>>, caps: PeerCaps)
    requires
        caps_of(config, a + seq![c] + b, caps),
    ensures
        config.encryption_key matches Some(k) ==> caps.key_fp@ == fingerprint(Some(k@)),
        config.encryption_key is None ==> caps.key_fp@ == fingerprint(None),
        encrypted(config, c) ==> names_view(caps.encrypted_cols@) == encrypted_of(config, a) + seq![c] + encrypted_of(
            config,
            b,
        ),
        !encrypted(config, c) ==> names_view(caps.encrypted_cols@) == encrypted_of(config, a) + encrypted_of(config, b),
{
    encrypted_are_told(config, a + seq![c], b, c);
    encrypted_are_told(config, a, seq![c], c);
    if !encrypted(config, c) {
        assert(encrypted_of(config, a) + encrypted_of(config, seq![c]) =~= encrypted_of(config, a));
    }
}

/// A client that was given no settings has an id of its own, from which its number can be read, and
/// connects to this device again and again without a token.
pub proof fn new_client_has_its_number(c: CloudSyncConfig, n: u32)
    requires
        default_config(c, n),
    ensures
        c.client_id@.len() > 5,
        c.client_id@.take(5) == seq!['n', 'o', 'd', 'e', '-'],
        read_digits(c.client_id@.skip(5), 10) == n as nat,
        c.auth_token@ == Seq::<char>::empty(),
        c.auto_reconnect,
        c.sync_interval_ms == 5000,
{
    reveal_strlit("node-");
    digits_are_read(n as nat, 10);
    let d = digits(n as nat, 10);
    assert("node-"@ =~= seq!['n', 'o', 'd', 'e', '-']);
    assert(c.client_id@.take(5) =~= "node-"@);
    assert(c.client_id@.skip(5) =~= d);
    assert(c.auth_token@ =~= Seq::<char>::empty());
}

/// What waits is taken in collection by collection, and each is told of. One collection alone is
/// taken in with what was read for it; where nothing waits nothing changes.
pub proof fn every_collection_is_taken_in(
    a: Hako,
    e0: Map<Seq<char>, i64>,
    b: Hako,
    e1: Map<Seq<char>, i64>,
    circle: Circle,
    files: Map<Seq<char>, FileReads>,
    rows: Seq<(Seq<char>, Vec<IngestItem>)>,
    r: Seq<Flush>,
    i: int,
)
    requires
        flushed(a, e0, b, e1, circle, files, rows, r),
    ensures
        r.len() == rows.len(),
        0 <= i < rows.len() ==> r[i].collection@ == rows[i].0,
        rows.len() == 0 ==> b == a && e1 == e0,
        rows.len() == 1 && files.contains_key(rows[0].0) ==> flushed_one(
            a,
            e0,
            b,
            e1,
            circle,
            files[rows[0].0],
            rows[0].0,
            items_view(rows[0].1@),
            r[0],
        ),
{
    let t = choose|t: Seq<(Hako, Map<Seq<char>, i64>)>| #[trigger]
        flushed_along(t, a, e0, b, e1, circle, files, rows, r);
    if 0 <= i < rows.len() {
        let row = rows[i];
        assert(flushed_with(t[i].0, t[i].1, t[i + 1].0, t[i + 1].1, circle, files, row.0, items_view(row.1@), r[i]));
    }
    if rows.len() == 1 {
        let row = rows[0];
        assert(flushed_with(t[0].0, t[0].1, t[1].0, t[1].1, circle, files, row.0, items_view(row.1@), r[0]));
        assert(t[1] == t.last());
    }
}

/// The changes that come in are taken in the order in which they wait.
pub proof fn changes_keep_their_order(a: Seq<Item>, b: Seq<Item>, x: Item)
    ensures
        item_ops(a + b) == item_ops(a) + item_ops(b),
        item_ops(seq![x]) == seq![x.op],
{
    assert(item_ops(a + b) =~= item_ops(a) + item_ops(b));
    assert(item_ops(seq![x]) =~= seq![x.op]);
}

/// Changes through a server are one entry of the log of their collection, with the number that is
/// due; they leave the values that wait, and the other collections, as they are.
pub proof fn replication_is_one_entry(a: Hako, b: Hako, c: Seq<char>, ops: Seq<Change>, other: Seq<char>)
    requires
        replicated(a, b, c, ops),
        a.shards@.contains_key(c),
    ensures
        b.shards@.contains_key(c),
        b.shards@[c].next_tx_id == (if a.shards@[c].next_tx_id < u64::MAX {
            (a.shards@[c].next_tx_id + 1) as u64
        } else {
            0
        }),
        b.shards@[c].blob_flush_queue == a.shards@[c].blob_flush_queue,
        b.shards@[c].pending_blob_bytes == a.shards@[c].pending_blob_bytes,
        b.shards@[c].blob_end == a.shards@[c].blob_end,
        other != c ==> b.shards@.contains_key(other) == a.shards@.contains_key(other),
        other != c && a.shards@.contains_key(other) ==> b.shards@[other] == a.shards@[other],
{
}

/// A client that is turned away is told why.
pub proof fn turned_away_is_told(p: CloudPacket, why: Seq<char>)
    requires
        is_nack(p, why),
    ensures
        p matches CloudPacket::AuthResult { success, error } && !success && (error matches Some(t) && t@ == why),
{
}

} // verus!
