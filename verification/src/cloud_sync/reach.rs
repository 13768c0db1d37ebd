//! Who hears of changes, what is sent and remembered, and who is let in.
use vstd::prelude::*;
use vstd::string::*;

use crate::cloud_sync::access::{api_key_hash, group_checked, refusal};
use crate::cloud_sync::auth::accepts;
use crate::cloud_sync::catchup::{carries, caught_up, missed};
use crate::cloud_sync::cloud::{called, CloudSync};
use crate::cloud_sync::ingest::{
    echoed, hears, judged_one, ops_from, pruned, recipients, relayed, taken, text_view, Item, Relay,
};
use crate::cloud_sync::packet::{CloudPacket, CloudSyncMode};
use crate::cloud_sync::rooms::echo_name;
use crate::cloud_sync::session::{
    items_of, pairs_map, present, push_one, pushed_along, replay_one, replayed_along, told_time, ServerSession,
};
use crate::cloud_sync::tail::{sendable, tailed};
use crate::cloud_sync::url::ws_url;
use crate::document::firelite_doc::{doc_bytes, document_round_trip, names_view, Doc};
use crate::document::value::Val;
use crate::engine::access::{begins, permitted};
use crate::engine::engine::{ready_doc, Hako};
use crate::engine::files::{reads_are, FileReads};
use crate::engine::marks::{stays, Kept};
use crate::engine::remote::remote_time;
use crate::engine::types::AccessOp;
use crate::engine::write::shard_places;
use crate::storage::blob::{resolved_doc, Work};
use crate::storage::pointer::Place;
use crate::storage::wal::{change_key, change_time, ops_view, Change};
use crate::sync_guard::{flows, hex, known_caps, told_fp, PeerCaps};
use crate::text::{replaced, trimmed, white_space};
use crate::util::decimal::{padded_is_read, read_digits};

verus! {

/// Every member of a room hears of what others changed in it, where nothing is encrypted, and
/// else where it has told of the same key.
pub proof fn members_hear(
    prefix: Seq<char>,
    plain: Seq<char>,
    enc: bool,
    local_fp: Seq<u8>,
    caps: Map<Seq<char>, PeerCaps>,
    origin: Option<Seq<char>>,
    peers: Seq<(Seq<char>, String)>,
    i: int,
)
    requires
        0 <= i < peers.len(),
        peers[i].1@ == prefix,
        origin != Some(peers[i].0),
        !enc || flows(true, local_fp, told_fp(known_caps(caps, peers[i].0))),
        origin matches Some(o) ==> caps.contains_key(o) ==> !names_view(caps[o].encrypted_cols@).contains(plain) || flows(
            true,
            caps[o].key_fp@,
            told_fp(known_caps(caps, peers[i].0)),
        ),
    ensures
        recipients(prefix, plain, enc, local_fp, caps, origin, peers).contains(peers[i].0),
    decreases peers.len(),
{
    let pre = peers.drop_last();
    let a = recipients(prefix, plain, enc, local_fp, caps, origin, pre);
    let b = recipients(prefix, plain, enc, local_fp, caps, origin, peers);
    if i < pre.len() {
        assert(pre[i] == peers[i]);
        members_hear(prefix, plain, enc, local_fp, caps, origin, pre, i);
        let k = choose|k: int| 0 <= k < a.len() && a[k] == peers[i].0;
        assert(b[k] == peers[i].0);
    } else {
        assert(hears(prefix, plain, enc, local_fp, caps, origin, peers[i].0, peers[i].1@));
        assert(b[b.len() - 1] == peers[i].0);
    }
}

/// A change made here is sent on at the end of those before it, unless it came from elsewhere or
/// stays on this device.
pub proof fn own_change_is_sent(
    echo: Map<Seq<char>, i64>,
    ops: Seq<Change>,
    op: Change,
    prefix: Seq<char>,
    plain: Seq<char>,
    marks: Kept,
    has_file: bool,
    queue: Seq<Work>,
    blobs: Map<u64, Vec<u8>>,
)
    requires
        op is Put || op is Delete,
        !stays(marks, plain, change_key(op)),
        !tailed(echo, ops, prefix, plain, marks, has_file, queue, blobs).echo.contains_key(
            echo_name(prefix, plain, change_key(op)),
        ) || tailed(echo, ops, prefix, plain, marks, has_file, queue, blobs).echo[echo_name(prefix, plain, change_key(op))]
            != change_time(op),
    ensures
        tailed(echo, ops.push(op), prefix, plain, marks, has_file, queue, blobs).out == tailed(
            echo,
            ops,
            prefix,
            plain,
            marks,
            has_file,
            queue,
            blobs,
        ).out.push(sendable(op, has_file, queue, blobs)),
        tailed(echo, Seq::empty(), prefix, plain, marks, has_file, queue, blobs).out.len() == 0,
        tailed(echo, Seq::empty(), prefix, plain, marks, has_file, queue, blobs).echo == echo,
{
    assert(ops.push(op).drop_last() =~= ops);
}

/// A change is sent under its own key. A deletion, and a document without links, goes as it is;
/// a document with links goes with what it links to, where that can be read.
pub proof fn sent_whole(key: Seq<char>, d: Doc, time: i64, has_file: bool, queue: Seq<Work>, blobs: Map<u64, Vec<u8>>)
    requires
        d.fits(),
    ensures
        sendable(Change::Delete { key, time }, has_file, queue, blobs) == (Change::Delete { key, time }),
        (forall|i: int| 0 <= i < d.fields.len() ==> !((#[trigger] d.fields[i]).1 is BlobLink)) ==> sendable(
            Change::Put { key, value: doc_bytes(d) },
            has_file,
            queue,
            blobs,
        ) == (Change::Put { key, value: doc_bytes(d) }),
        resolved_doc(d, has_file, queue, blobs) matches Some(f) ==> sendable(
            Change::Put { key, value: doc_bytes(d) },
            has_file,
            queue,
            blobs,
        ) == (Change::Put { key, value: doc_bytes(f) }),
        resolved_doc(d, has_file, queue, blobs) is None ==> sendable(
            Change::Put { key, value: doc_bytes(d) },
            has_file,
            queue,
            blobs,
        ) == (Change::Put { key, value: doc_bytes(d) }),
{
    document_round_trip(d);
    if !crate::storage::blob::has_links(d) {
        assert forall|i: int| 0 <= i < d.fields.len() implies !crate::storage::blob::is_link((#[trigger] d.fields[i]).1) by {
            assert(!(d.fields[i].1 is BlobLink));
        }
    }
}

/// The changes that are taken are those that were found good, in their order.
pub proof fn good_are_taken(a: Seq<Item>, x: Seq<bool>, b: Seq<Item>, y: Seq<bool>, item: Item, ok: bool)
    requires
        x.len() == a.len(),
        y.len() == b.len(),
    ensures
        taken(a + b, x + y) == taken(a, x) + taken(b, y),
        taken(seq![item], seq![ok]) == (if ok {
            seq![item]
        } else {
            Seq::empty()
        }),
    decreases b.len(),
{
    let none = Seq::<Item>::empty();
    assert(seq![item].drop_last() =~= none);
    assert(seq![ok].drop_last() =~= Seq::<bool>::empty());
    assert(taken(none, Seq::<bool>::empty()) =~= none);
    assert(none.push(item) =~= seq![item]);
    if b.len() == 0 {
        assert(a + b =~= a);
        assert(x + y =~= x);
        assert(taken(a, x) + taken(b, y) =~= taken(a, x));
    } else {
        good_are_taken(a, x, b.drop_last(), y.drop_last(), item, ok);
        assert((a + b).drop_last() =~= a + b.drop_last());
        assert((x + y).drop_last() =~= x + y.drop_last());
        assert((a + b).last() == b.last());
        assert((x + y).last() == y.last());
        assert(taken(a + b, x + y) =~= taken(a, x) + taken(b, y));
    }
}

/// What came from elsewhere is remembered by its time, under its room, its collection and its
/// key, the last change of a key counting; everything else is remembered as before.
pub proof fn arrivals_are_remembered(
    m: Map<Seq<char>, i64>,
    prefix: Seq<char>,
    plain: Seq<char>,
    items: Seq<Item>,
    item: Item,
    other: Seq<char>,
)
    requires
        other != echo_name(prefix, plain, change_key(item.op)),
    ensures
        echoed(m, prefix, plain, Seq::empty()) == m,
        ({
            let (e, f) = (echoed(m, prefix, plain, items), echoed(m, prefix, plain, items.push(item)));
            let name = echo_name(prefix, plain, change_key(item.op));
            &&& f.contains_key(name) && f[name] == remote_time(item.op)
            &&& f.contains_key(other) == e.contains_key(other)
            &&& e.contains_key(other) ==> f[other] == e[other]
        }),
{
    assert(items.push(item).drop_last() =~= items);
}

/// Up to 10,000 changes are all remembered; of more, those of the last five minutes.
pub proof fn recent_are_remembered(m: Map<Seq<char>, i64>, count: nat, now: i64, k: Seq<char>)
    ensures
        count <= 10_000 ==> pruned(m, count, now) == m,
        m.contains_key(k) && m[k] > now - 300_000_000 ==> pruned(m, count, now).contains_key(k) && pruned(m, count, now)[k]
            == m[k],
        count > 10_000 && pruned(m, count, now).contains_key(k) ==> m.contains_key(k) && m[k] > now - 300_000_000,
{
}

/// The changes of a sender are its own, in their order.
pub proof fn changes_of_a_sender(a: Seq<Item>, b: Seq<Item>, item: Item, sender: Option<Seq<char>>)
    ensures
        ops_from(a + b, sender) == ops_from(a, sender) + ops_from(b, sender),
        item.sender == sender ==> ops_from(seq![item], sender) == seq![item.op],
        item.sender != sender ==> ops_from(seq![item], sender).len() == 0,
    decreases b.len(),
{
    assert(seq![item].drop_last() =~= Seq::<Item>::empty());
    assert(ops_from(Seq::empty(), sender) =~= Seq::<Change>::empty());
    assert(Seq::<Change>::empty().push(item.op) =~= seq![item.op]);
    if b.len() == 0 {
        assert(a + b =~= a);
        assert(ops_from(a, sender) + ops_from(b, sender) =~= ops_from(a, sender));
    } else {
        changes_of_a_sender(a, b.drop_last(), item, sender);
        assert((a + b).drop_last() =~= a + b.drop_last());
        assert((a + b).last() == b.last());
        assert(ops_from(a + b, sender) =~= ops_from(a, sender) + ops_from(b, sender));
    }
}

/// Every change that is taken goes on in the relay of its sender, with the others of the same
/// sender, and no sender has two.
pub proof fn all_go_on(items: Seq<Item>, r: Seq<Relay>, k: int)
    requires
        relayed(items, r),
        0 <= k < items.len(),
    ensures
        exists|i: int|
            0 <= i < r.len() && text_view((#[trigger] r[i]).origin) == items[k].sender && ops_view(r[i].ops@) == ops_from(
                items,
                items[k].sender,
            ) && ops_view(r[i].ops@).contains(items[k].op),
        forall|i: int, j: int|
            0 <= i < j < r.len() ==> text_view((#[trigger] r[i]).origin) != text_view((#[trigger] r[j]).origin),
{
    assert(crate::cloud_sync::ingest::sender_listed(r, items[k].sender));
    let i = choose|i: int| 0 <= i < r.len() && text_view((#[trigger] r[i]).origin) == items[k].sender;
    among_own(items, k);
    assert(text_view(r[i].origin) == items[k].sender);
}

proof fn among_own(items: Seq<Item>, k: int)
    requires
        0 <= k < items.len(),
    ensures
        ops_from(items, items[k].sender).contains(items[k].op),
    decreases items.len(),
{
    let s = items[k].sender;
    let pre = items.drop_last();
    let (a, b) = (ops_from(pre, s), ops_from(items, s));
    if k < pre.len() {
        assert(pre[k] == items[k]);
        among_own(pre, k);
        let j = choose|j: int| 0 <= j < a.len() && a[j] == items[k].op;
        assert(b[j] == items[k].op);
    } else {
        assert(b[b.len() - 1] == items[k].op);
    }
}

/// A token is accepted where it is the secret, with or without the word `Bearer` before it, and
/// an empty secret lets nobody in.
pub proof fn secret_is_accepted(secret: Seq<char>, token: Seq<char>)
    ensures
        secret.len() == 0 ==> !accepts(secret, token),
        secret.len() > 0 && !white_space(secret[0]) && !white_space(secret.last()) && (forall|k: int|
            0 <= k <= secret.len() - 7 ==> #[trigger] secret.subrange(k, k + 7) != "Bearer "@) ==> accepts(secret, secret)
            && accepts(secret, "Bearer "@ + secret),
        token.len() > 0 && !white_space(token[0]) && !white_space(token.last()) && (forall|k: int|
            0 <= k <= token.len() - 7 ==> #[trigger] token.subrange(k, k + 7) != "Bearer "@) ==> (accepts(secret, token)
            <==> token == secret) && (accepts(secret, "Bearer "@ + token) <==> token == secret),
{
    if secret.len() > 0 && !white_space(secret[0]) && !white_space(secret.last()) && (forall|k: int|
        0 <= k <= secret.len() - 7 ==> #[trigger] secret.subrange(k, k + 7) != "Bearer "@) {
        bare_token(secret);
    }
    if token.len() > 0 && !white_space(token[0]) && !white_space(token.last()) && (forall|k: int|
        0 <= k <= token.len() - 7 ==> #[trigger] token.subrange(k, k + 7) != "Bearer "@) {
        bare_token(token);
    }
}

proof fn bare_token(t: Seq<char>)
    requires
        t.len() > 0,
        !white_space(t[0]),
        !white_space(t.last()),
        forall|k: int| 0 <= k <= t.len() - 7 ==> #[trigger] t.subrange(k, k + 7) != "Bearer "@,
    ensures
        trimmed(replaced(t, "Bearer "@)) == t,
        trimmed(replaced("Bearer "@ + t, "Bearer "@)) == t,
{
    reveal_strlit("Bearer ");
    let w = "Bearer "@;
    crate::text::without_pattern_stays(t, w);
    let none = Seq::<char>::empty();
    crate::text::first_pattern_is_cut(none, w, t);
    assert(none + w + t =~= w + t);
    assert(none + replaced(t, w) =~= replaced(t, w));
}

/// A group without rules, or an open one, lets everybody in. A registered group lets in who
/// shows its key and is on its list, where that names anybody. A group of another kind lets
/// nobody in.
pub proof fn groups_let_in(d: Doc, key: Seq<char>, client: Seq<char>, mode: Seq<char>, hash: Seq<char>, members: Seq<Val>)
    ensures
        refusal(None, Some(key), client) is None,
        !d.map().contains_key("mode"@) ==> refusal(Some(d), Some(key), client) is None,
        d.map().contains_key("mode"@) && d.map()["mode"@] == Val::String(mode) ==> {
            &&& mode == "open"@ ==> refusal(Some(d), Some(key), client) is None
            &&& mode != "open"@ && mode != "registered"@ ==> refusal(Some(d), Some(key), client) is Some
            &&& mode == "registered"@ && !d.map().contains_key("api_key_hash"@) ==> refusal(Some(d), Some(key), client) is Some
            &&& mode == "registered"@ && d.map().contains_key("api_key_hash"@) && d.map()["api_key_hash"@] == Val::String(
                hash,
            ) ==> {
                &&& hash.len() == 0 || api_key_hash(key) != hash ==> refusal(Some(d), Some(key), client) is Some
                &&& hash.len() > 0 && api_key_hash(key) == hash ==> {
                    &&& !d.map().contains_key("members"@) ==> refusal(Some(d), Some(key), client) is None
                    &&& d.map().contains_key("members"@) && d.map()["members"@] == Val::Array(members) ==> {
                        &&& members.contains(Val::String(client)) ==> refusal(Some(d), Some(key), client) is None
                        &&& !members.contains(Val::String(client)) && (exists|i: int|
                            0 <= i < members.len() && (#[trigger] members[i]) is String) ==> refusal(
                            Some(d),
                            Some(key),
                            client,
                        ) is Some
                        &&& (forall|i: int| 0 <= i < members.len() ==> !((#[trigger] members[i]) is String)) ==> refusal(
                            Some(d),
                            Some(key),
                            client,
                        ) is None
                    }
                }
            }
        },
{
    reveal_strlit("open");
    reveal_strlit("registered");
    assert("open"@.len() != "registered"@.len());
}

/// The address of a web socket: that of a web page with `ws` for `http`, one that is a web
/// socket already as it is, and any other host behind `wss`.
pub proof fn addresses_become_sockets(rest: Seq<char>)
    requires
        rest.len() > 0,
        !white_space(rest[0]),
        !white_space(rest.last()),
    ensures
        ws_url("https://"@ + rest) == "wss://"@ + rest,
        ws_url("http://"@ + rest) == "ws://"@ + rest,
        ws_url("wss://"@ + rest) == "wss://"@ + rest,
        ws_url("ws://"@ + rest) == "ws://"@ + rest,
        !begins(rest, "https://"@) && !begins(rest, "http://"@) && !begins(rest, "wss://"@) && !begins(rest, "ws://"@)
            ==> ws_url(rest) == "wss://"@ + rest,
{
    reveal_strlit("https://");
    reveal_strlit("http://");
    reveal_strlit("wss://");
    reveal_strlit("ws://");
    stays_whole("https://"@ + rest);
    stays_whole("http://"@ + rest);
    stays_whole("wss://"@ + rest);
    stays_whole("ws://"@ + rest);
    stays_whole(rest);
    let (a, b, c, d) = ("https://"@ + rest, "http://"@ + rest, "wss://"@ + rest, "ws://"@ + rest);
    assert(a.take(8) =~= "https://"@);
    assert(a.skip(8) =~= rest);
    assert(b.take(7) =~= "http://"@);
    assert(b.skip(7) =~= rest);
    assert(b[4] == ':' && "https://"@[4] == 's');
    assert(begins(b, "https://"@) ==> b.take(8)[4] == b[4]);
    assert(c.take(6) =~= "wss://"@);
    assert(c[0] == 'w');
    assert(begins(c, "https://"@) ==> c.take(8)[0] == c[0]);
    assert(begins(c, "http://"@) ==> c.take(7)[0] == c[0]);
    assert(d.take(5) =~= "ws://"@);
    assert(d[0] == 'w');
    assert(begins(d, "https://"@) ==> d.take(8)[0] == d[0]);
    assert(begins(d, "http://"@) ==> d.take(7)[0] == d[0]);
}

proof fn stays_whole(s: Seq<char>)
    requires
        s.len() > 0,
        !white_space(s[0]),
        !white_space(s.last()),
    ensures
        trimmed(s) == s,
{
}

/// A client that is behind in a collection of its room is told what it has missed there, from
/// the time on that it told; of a collection that it has not told of, from the beginning. Where
/// it is not behind it is told nothing.
pub proof fn behind_is_told(
    t: Seq<Hako>,
    packets: Seq<Option<CloudPacket>>,
    session: ServerSession,
    caps: Map<Seq<char>, PeerCaps>,
    files: Map<Seq<char>, FileReads>,
    versions: Seq<(Seq<char>, i64)>,
    client: Map<Seq<char>, i64>,
    i: int,
)
    requires
        replayed_along(t, packets, session, caps, files, versions, client),
        0 <= i < versions.len(),
    ensures
        ({
            let (c, at) = versions[i];
            let since: i64 = if client.contains_key(c) {
                client[c]
            } else {
                0
            };
            &&& at > since ==> exists|reads: FileReads| #[trigger]
                reads_are(files, session.prefix@ + "_"@ + c, reads) && caught_up(
                    t[i],
                    t[i + 1],
                    session.prefix@ + "_"@ + c,
                    c,
                    since,
                    known_caps(caps, session.peer_key@),
                    reads,
                    packets[i],
                )
            &&& at <= since ==> packets[i] is None && t[i + 1] == t[i]
        }),
{
    let v = versions[i];
    assert(replay_one(t[i], t[i + 1], session, caps, files, v.0, v.1, told_time(client, v.0), packets[i]));
}

/// A server that is behind in a collection of a client is told what it has missed there, from
/// the time on that it told, or from the beginning.
pub proof fn server_behind_is_told(
    t: Seq<Hako>,
    packets: Seq<Option<CloudPacket>>,
    files: Map<Seq<char>, FileReads>,
    list: Seq<(String, i64)>,
    server: Map<Seq<char>, i64>,
    msg_id: u128,
    i: int,
)
    requires
        pushed_along(t, packets, files, list, server, msg_id),
        0 <= i < list.len(),
    ensures
        ({
            let c = list[i].0@;
            let since: i64 = if server.contains_key(c) {
                server[c]
            } else {
                0
            };
            &&& list[i].1 > since ==> exists|reads: FileReads| #[trigger]
                reads_are(files, c, reads) && carries(
                    packets[i],
                    msg_id,
                    c,
                    missed(t[i + 1].shards@[c].index.seq(), t[i + 1].marks@, c, since, reads),
                )
            &&& list[i].1 <= since ==> packets[i] is None && t[i + 1] == t[i]
        }),
{
    let v = list[i];
    assert(push_one(t[i], t[i + 1], files, v.0@, v.1, told_time(server, v.0@), msg_id, packets[i]));
}

/// The messages that there are go out one by one, in their order.
pub proof fn messages_go_out(a: Seq<Option<CloudPacket>>, b: Seq<Option<CloudPacket>>, p: CloudPacket)
    ensures
        present(a + b) == present(a) + present(b),
        present(seq![Some(p)]) == seq![p],
        present(seq![None::<CloudPacket>]).len() == 0,
    decreases b.len(),
{
    let none = Seq::<Option<CloudPacket>>::empty();
    assert(present(none) =~= Seq::<CloudPacket>::empty());
    assert(seq![Some(p)].drop_last() =~= none);
    assert(seq![None::<CloudPacket>].drop_last() =~= none);
    assert(Seq::<CloudPacket>::empty().push(p) =~= seq![p]);
    if b.len() == 0 {
        assert(a + b =~= a);
        assert(present(a) + present(b) =~= present(a));
    } else {
        messages_go_out(a, b.drop_last(), p);
        assert((a + b).drop_last() =~= a + b.drop_last());
        assert((a + b).last() == b.last());
        assert(present(a + b) =~= present(a) + present(b));
    }
}

/// A list of versions stands for the version that was told last of each collection.
pub proof fn last_version_counts(s: Seq<(String, i64)>, i: int)
    requires
        0 <= i < s.len(),
        forall|j: int| i < j < s.len() ==> (#[trigger] s[j]).0@ != s[i].0@,
    ensures
        pairs_map(s).contains_key(s[i].0@),
        pairs_map(s)[s[i].0@] == s[i].1,
    decreases s.len(),
{
    let pre = s.drop_last();
    if i < pre.len() {
        assert(pre[i] == s[i]);
        assert forall|j: int| i < j < pre.len() implies (#[trigger] pre[j]).0@ != pre[i].0@ by {
            assert(pre[j] == s[j]);
        }
        last_version_counts(pre, i);
        assert(s[s.len() - 1].0@ != s[i].0@);
    }
}

/// The changes of a message come in one by one, each with the room and the sender of the message.
pub proof fn changes_come_in(c: Seq<char>, prefix: Seq<char>, ops: Seq<Change>, sender: Option<Seq<char>>, i: int)
    requires
        0 <= i < ops.len(),
    ensures
        items_of(c, prefix, ops, sender).len() == ops.len(),
        items_of(c, prefix, ops, sender)[i].collection == c,
        items_of(c, prefix, ops, sender)[i].prefix == prefix,
        items_of(c, prefix, ops, sender)[i].op == ops[i],
        items_of(c, prefix, ops, sender)[i].sender == sender,
{
}

/// A client joins the room that it was given, and a server none.
pub proof fn clients_join_rooms(
    c: CloudSync,
    mode: CloudSyncMode,
    id: Seq<char>,
    room: Seq<char>,
    key: Seq<char>,
    token: Seq<char>,
)
    requires
        called(c, mode, id, room, key, token),
    ensures
        c.mode == mode,
        c.client_id@ == id,
        c.auth_token@ == token,
        mode != CloudSyncMode::Server ==> c.room_name@ == room && c.room_key@ == key,
        mode == CloudSyncMode::Server ==> c.room_name@.len() == 0 && c.room_key@.len() == 0,
{
}

/// Bytes are written in hexadecimal one by one, each by two digits that read as it.
pub proof fn hex_is_read(a: Seq<u8>, b: Seq<u8>, x: u8)
    ensures
        hex(a + b) == hex(a) + hex(b),
        hex(seq![x]).len() == 2,
        read_digits(hex(seq![x]), 16) == x,
    decreases b.len(),
{
    assert(seq![x].drop_last() =~= Seq::<u8>::empty());
    assert(hex(Seq::empty()) =~= Seq::<char>::empty());
    let p = crate::util::decimal::padded(x as nat, 16, 2);
    assert(hex(seq![x]) =~= p);
    crate::util::decimal::padded_len(x as nat, 16, 2);
    vstd::arithmetic::power::lemma_pow1(16);
    vstd::arithmetic::power::lemma_pow_adds(16, 1, 1);
    padded_is_read(x as nat, 16, 2);
    if b.len() == 0 {
        assert(a + b =~= a);
        assert(hex(a) + hex(b) =~= hex(a));
    } else {
        hex_is_read(a, b.drop_last(), x);
        assert((a + b).drop_last() =~= a + b.drop_last());
        assert((a + b).last() == b.last());
        assert(hex(a + b) =~= hex(a) + hex(b));
    }
}

/// A document without a time, and what neither puts nor deletes, is never taken, and nothing is
/// taken from who is not admitted; any other change is taken where there is no document here.
pub proof fn untimed_is_turned_away(
    a: Hako,
    b: Hako,
    reads: FileReads,
    c: Seq<char>,
    welcome: bool,
    op: Change,
    ok: bool,
)
    requires
        judged_one(a, b, reads, c, welcome, op, ok),
    ensures
        !welcome ==> !ok && b == a,
        op is Put && remote_time(op) == 0 ==> !ok && b == a,
        !(op is Put) && !(op is Delete) ==> !ok && b == a,
        welcome && (op is Delete || op is Put && remote_time(op) != 0) && permitted(a.security_rules@, c, AccessOp::Get)
            && ready_doc(a, c, change_key(op)) is None && (!shard_places(a.shards@, c).contains_key(change_key(op))
            || shard_places(a.shards@, c)[change_key(op)] is Deleted) ==> ok,
{
}

/// The group of a room lets everybody in where the store keeps nothing of it, and nobody where it
/// keeps a registered group without a key.
pub proof fn groups_are_kept_by_room(
    a: Hako,
    b: Hako,
    reads: FileReads,
    room: Seq<char>,
    key: Option<Seq<char>>,
    client: Seq<char>,
    r: Result<(), String>,
    d: Doc,
)
    requires
        group_checked(a, b, reads, room, key, client, r),
        permitted(a.security_rules@, "__groups"@, AccessOp::Get),
        ready_doc(a, "__groups"@, room) is None,
    ensures
        !shard_places(a.shards@, "__groups"@).contains_key(room) ==> r is Ok,
        shard_places(a.shards@, "__groups"@).contains_key(room) && shard_places(a.shards@, "__groups"@)[room]
            == Place::Inlined(doc_bytes(d)) && d.fits() && (forall|i: int|
            0 <= i < d.fields.len() ==> !((#[trigger] d.fields[i]).1 is BlobLink)) && d.map().contains_key("mode"@)
            && d.map()["mode"@] == Val::String("registered"@) && !d.map().contains_key("api_key_hash"@) ==> r is Err,
{
    reveal_strlit("open");
    reveal_strlit("registered");
    assert("open"@.len() != "registered"@.len());
    if d.fits() {
        document_round_trip(d);
    }
    if forall|i: int| 0 <= i < d.fields.len() ==> !((#[trigger] d.fields[i]).1 is BlobLink) {
        assert forall|i: int| 0 <= i < d.fields.len() implies !crate::storage::blob::is_link((#[trigger] d.fields[i]).1) by {
            assert(!(d.fields[i].1 is BlobLink));
        }
    }
}

} // verus!
