//! Nodes of the mesh and of the cloud in the hands of callers.
use vstd::prelude::*;
use vstd::string::*;

use crate::cloud_sync::cloud::{called, idle, CloudSync};
use crate::cloud_sync::packet::{CloudStatus, CloudSyncMode};
use crate::engine::files::FileReads;
use crate::ffi::last_error::{arg_text, cstr_to_string, failed, succeeded, told, LastError};
use crate::ffi::stores::FL_Engine;
use crate::net_sync::discovery::DiscoveryMode;
use crate::net_sync::packet::NetworkStatus;
use crate::net_sync::syncer::{node_made, status_is, NetSyncer};

verus! {

/// A node of the mesh.
#[allow(non_camel_case_types)]
pub struct FL_NetSyncer {
    pub inner: NetSyncer,
}

/// A node of the cloud.
#[allow(non_camel_case_types)]
pub struct FL_CloudSync {
    pub inner: CloudSync,
}

/// A text that was handed over, or another in its place.
pub open spec fn text_or(bytes: Option<&[u8]>, other: Seq<char>) -> Seq<char> {
    match arg_text(bytes) {
        Ok(s) => s,
        Err(_) => other,
    }
}

/// A text that was handed over, or another in its place.
fn arg_or(bytes: Option<&[u8]>, other: &str) -> (s: String)
    ensures
        s@ == text_or(bytes, other@),
{
    match cstr_to_string(bytes) {
        Ok(s) => s,
        Err(_) => other.to_owned(),
    }
}

/// A node of the mesh, of the room `default` where none is named.
pub fn fl_net_syncer_new(
    last: &mut LastError,
    engine: &mut FL_Engine,
    name: Option<&[u8]>,
    room_key: Option<&[u8]>,
    mobile: bool,
    now: u64,
    reads: &FileReads,
) -> (r: FL_NetSyncer)
    requires
        old(engine).db.wf(),
        reads.wf(),
    ensures
        final(engine).db.wf(),
        final(last)@ is None,
        node_made(
            old(engine).db,
            final(engine).db,
            *reads,
            r.inner,
            text_or(name, "node"@),
            text_or(room_key, "default"@),
            Seq::empty(),
            mobile,
            now,
        ),
{
    let n = arg_or(name, "node");
    let k = arg_or(room_key, "default");
    let none: Vec<String> = Vec::new();
    proof {
        assert(crate::document::firelite_doc::names_view(none@) =~= Seq::empty());
    }
    let inner = NetSyncer::new(&mut engine.db, n.as_str(), k.as_str(), none, mobile, now, reads);
    last.clear_last_error();
    FL_NetSyncer { inner }
}

/// Sets how a node looks for others: 0 by multicast names, 1 by broadcasts, 2 by both.
pub fn fl_net_syncer_set_discovery(last: &mut LastError, syncer: Option<&mut FL_NetSyncer>, mode: i32) -> (n: i32)
    ensures
        syncer is None ==> n == -1 && final(last)@ == old(last)@,
        syncer matches Some(s) ==> if 0 <= mode <= 2 {
            &&& succeeded(n, final(last)@)
            &&& final(s).inner == (NetSyncer {
                discovery: if mode == 0 {
                    DiscoveryMode::Mdns
                } else if mode == 1 {
                    DiscoveryMode::Broadcast
                } else {
                    DiscoveryMode::Both
                },
                ..s.inner
            })
        } else {
            &&& failed(n, final(last)@, "invalid discovery mode (0=mdns, 1=broadcast, 2=both)"@)
            &&& *final(s) == *s
        },
{
    match syncer {
        None => -1,
        Some(s) => {
            let m = match mode {
                0 => DiscoveryMode::Mdns,
                1 => DiscoveryMode::Broadcast,
                2 => DiscoveryMode::Both,
                _ => {
                    return last.set_last_error("invalid discovery mode (0=mdns, 1=broadcast, 2=both)");
                },
            };
            s.inner.set_discovery(m);
            last.clear_last_error();
            0
        },
    }
}

/// What can be seen of a node of the mesh.
pub fn fl_net_syncer_status(syncer: Option<&FL_NetSyncer>) -> (r: Option<NetworkStatus>)
    requires
        syncer matches Some(s) ==> s.inner.wf(),
    ensures
        match syncer {
            None => r is None,
            Some(s) => r matches Some(x) && status_is(x, s.inner.self_id@, s.inner.peers.seq()),
        },
{
    match syncer {
        None => None,
        Some(s) => Some(s.inner.status()),
    }
}

/// A node of the cloud was made, unless there was no store.
pub open spec fn cloud_made(
    has_engine: bool,
    r: Option<FL_CloudSync>,
    mode: CloudSyncMode,
    id: Seq<char>,
    room: Seq<char>,
    key: Seq<char>,
    token: Seq<char>,
    error: Option<Seq<char>>,
) -> bool {
    if has_engine {
        &&& error is None
        &&& r matches Some(c) && idle(c.inner) && called(c.inner, mode, id, room, key, token)
    } else {
        r is None && error == Some(told("Null engine handle"@))
    }
}

/// A node of the cloud: a server where `mode` is 0, and else a client.
pub fn fl_cloud_sync_new(
    last: &mut LastError,
    engine: Option<&FL_Engine>,
    mode: i32,
    client_id: Option<&[u8]>,
    room_name: Option<&[u8]>,
    room_key: Option<&[u8]>,
    auth_token: Option<&[u8]>,
) -> (r: Option<FL_CloudSync>)
    ensures
        cloud_made(
            engine is Some,
            r,
            if mode == 0 {
                CloudSyncMode::Server
            } else {
                CloudSyncMode::Client
            },
            text_or(client_id, "node"@),
            text_or(room_name, "default"@),
            text_or(room_key, "default"@),
            text_or(auth_token, ""@),
            final(last)@,
        ),
{
    if engine.is_none() {
        let n: i32 = last.set_last_error("Null engine handle");
        return None;
    }
    let id = arg_or(client_id, "node");
    let room = arg_or(room_name, "default");
    let key = arg_or(room_key, "default");
    let token = arg_or(auth_token, "");
    let side = match mode {
        0 => CloudSyncMode::Server,
        _ => CloudSyncMode::Client,
    };
    last.clear_last_error();
    Some(FL_CloudSync { inner: CloudSync::new(side, id.as_str(), room.as_str(), key.as_str(), token.as_str()) })
}

/// A server of the cloud.
pub fn fl_cloud_sync_server_new(
    last: &mut LastError,
    engine: Option<&FL_Engine>,
    server_id: Option<&[u8]>,
    auth_token: Option<&[u8]>,
) -> (r: Option<FL_CloudSync>)
    ensures
        cloud_made(
            engine is Some,
            r,
            CloudSyncMode::Server,
            text_or(server_id, "server"@),
            Seq::empty(),
            Seq::empty(),
            text_or(auth_token, ""@),
            final(last)@,
        ),
{
    if engine.is_none() {
        let n: i32 = last.set_last_error("Null engine handle");
        return None;
    }
    let id = arg_or(server_id, "server");
    let token = arg_or(auth_token, "");
    last.clear_last_error();
    Some(FL_CloudSync { inner: CloudSync::server(id.as_str(), token.as_str()) })
}

/// A client of the cloud.
pub fn fl_cloud_sync_client_new(
    last: &mut LastError,
    engine: Option<&FL_Engine>,
    client_id: Option<&[u8]>,
    room_name: Option<&[u8]>,
    room_key: Option<&[u8]>,
    auth_token: Option<&[u8]>,
) -> (r: Option<FL_CloudSync>)
    ensures
        cloud_made(
            engine is Some,
            r,
            CloudSyncMode::Client,
            text_or(client_id, "node"@),
            text_or(room_name, "default"@),
            text_or(room_key, "default"@),
            text_or(auth_token, ""@),
            final(last)@,
        ),
{
    if engine.is_none() {
        let n: i32 = last.set_last_error("Null engine handle");
        return None;
    }
    let id = arg_or(client_id, "node");
    let room = arg_or(room_name, "default");
    let key = arg_or(room_key, "default");
    let token = arg_or(auth_token, "");
    last.clear_last_error();
    Some(FL_CloudSync { inner: CloudSync::client(id.as_str(), room.as_str(), key.as_str(), token.as_str()) })
}

/// What can be seen of a node of the cloud.
pub fn fl_cloud_sync_status(last: &mut LastError, cloud_sync: Option<&FL_CloudSync>) -> (r: Option<CloudStatus>)
    requires
        cloud_sync matches Some(c) ==> c.inner.wf(),
    ensures
        match cloud_sync {
            None => r is None && final(last)@ == Some(told("Null cloud_sync handle"@)),
            Some(c) => {
                &&& final(last)@ is None
                &&& r matches Some(s) && s.mode == c.inner.mode && s.connected == c.inner.running && s.active_clients
                    == c.inner.hall.peers.seq().len() && s.queued_writes == 0
                &&& c.inner.mode == CloudSyncMode::Server ==> r->Some_0.room_name@ == "(multi-room)"@
                    && r->Some_0.room_key@ == Seq::<char>::empty() && r->Some_0.hosted_rooms
                    == c.inner.hall.rooms@.prefixes.len()
                &&& c.inner.mode == CloudSyncMode::Client ==> r->Some_0.room_name@ == c.inner.room_name@
                    && r->Some_0.room_key@ == c.inner.room_key@ && r->Some_0.hosted_rooms == 0
            },
        },
{
    match cloud_sync {
        None => {
            let n: i32 = last.set_last_error("Null cloud_sync handle");
            None
        },
        Some(c) => {
            last.clear_last_error();
            Some(c.inner.status())
        },
    }
}

/// Stops a node of the cloud.
pub fn fl_cloud_sync_stop(cloud_sync: Option<&mut FL_CloudSync>)
    ensures
        cloud_sync matches Some(c) ==> final(c).inner == (CloudSync { running: false, ..c.inner }),
{
    if let Some(c) = cloud_sync {
        c.inner.stop();
    }
}

} // verus!
