//! A node that replicates through a server: the server itself, or one of its clients.
use vstd::prelude::*;
use vstd::string::*;

use crate::cloud_sync::catchup::{room_versions_are, server_room_version_map};
use crate::cloud_sync::ingest::{text_view, EchoCache, IngestBuffer};
use crate::cloud_sync::packet::{CloudStatus, CloudSyncMode, PeerView, VersionMap};
use crate::cloud_sync::rooms::Rooms;
use crate::cloud_sync::seen::SeenMessages;
use crate::cloud_sync::session::Hall;
use crate::document::firelite_doc::names_view;
use crate::engine::collections::places_same;
use crate::engine::engine::Hako;
use crate::text::same_text;

verus! {

/// A node that replicates through a server.
pub struct CloudSync {
    pub mode: CloudSyncMode,
    pub room_name: String,
    pub room_key: String,
    pub client_id: String,
    pub auth_token: String,
    /// The key by which a client asks to join its group.
    pub api_key: Option<String>,
    pub running: bool,
    pub echo_cache: EchoCache,
    pub seen_messages: SeenMessages,
    pub waiting: IngestBuffer,
    pub hall: Hall,
}

/// A node that has not started yet.
pub open spec fn idle(c: CloudSync) -> bool {
    &&& c.wf()
    &&& !c.running
    &&& c.api_key is None
    &&& c.echo_cache@ == Map::<Seq<char>, i64>::empty()
    &&& c.seen_messages.seq() == Seq::<u128>::empty()
    &&& c.waiting.count == 0
    &&& c.hall.peers@ == Map::<Seq<char>, String>::empty()
    &&& c.hall.rooms@ == (Rooms { prefix_by_id: Map::empty(), prefixes: Set::empty(), loaded: false })
}

/// What a node is called, and what it joins. A server joins no room.
pub open spec fn called(
    c: CloudSync,
    mode: CloudSyncMode,
    id: Seq<char>,
    room: Seq<char>,
    key: Seq<char>,
    token: Seq<char>,
) -> bool {
    &&& c.mode == mode
    &&& c.client_id@ == id
    &&& c.auth_token@ == token
    &&& c.room_name@ == (if mode == CloudSyncMode::Server {
        Seq::<char>::empty()
    } else {
        room
    })
    &&& c.room_key@ == (if mode == CloudSyncMode::Server {
        Seq::<char>::empty()
    } else {
        key
    })
}

/// The peers in order, each with the prefix of its room.
pub open spec fn peers_view(s: Seq<PeerView>) -> Seq<(Seq<char>, Seq<char>)> {
    Seq::new(s.len(), |i: int| (s[i].peer_key@, s[i].prefix@))
}

impl CloudSync {
    pub open spec fn wf(&self) -> bool {
        &&& self.echo_cache.wf()
        &&& self.seen_messages.wf()
        &&& self.waiting.wf()
        &&& self.hall.wf()
    }

    /// A node of either side. A server hosts the rooms that its clients ask for, and has
    /// none of its own.
    pub fn new(mode: CloudSyncMode, client_id: &str, room_name: &str, room_key: &str, auth_token: &str) -> (c: CloudSync)
        ensures
            idle(c),
            called(c, mode, client_id@, room_name@, room_key@, auth_token@),
    {
        match mode {
            CloudSyncMode::Server => CloudSync::server(client_id, auth_token),
            CloudSyncMode::Client => CloudSync::client(client_id, room_name, room_key, auth_token),
        }
    }

    /// A server: it hosts any room that its clients ask for.
    pub fn server(server_id: &str, auth_token: &str) -> (c: CloudSync)
        ensures
            idle(c),
            called(c, CloudSyncMode::Server, server_id@, Seq::empty(), Seq::empty(), auth_token@),
    {
        CloudSync {
            mode: CloudSyncMode::Server,
            room_name: String::new(),
            room_key: String::new(),
            client_id: server_id.to_owned(),
            auth_token: auth_token.to_owned(),
            api_key: None,
            running: false,
            echo_cache: EchoCache::new(),
            seen_messages: SeenMessages::new(),
            waiting: IngestBuffer::new(),
            hall: Hall::new(),
        }
    }

    /// A client of one room.
    pub fn client(client_id: &str, room_name: &str, room_key: &str, auth_token: &str) -> (c: CloudSync)
        ensures
            idle(c),
            called(c, CloudSyncMode::Client, client_id@, room_name@, room_key@, auth_token@),
    {
        CloudSync {
            mode: CloudSyncMode::Client,
            room_name: room_name.to_owned(),
            room_key: room_key.to_owned(),
            client_id: client_id.to_owned(),
            auth_token: auth_token.to_owned(),
            api_key: None,
            running: false,
            echo_cache: EchoCache::new(),
            seen_messages: SeenMessages::new(),
            waiting: IngestBuffer::new(),
            hall: Hall::new(),
        }
    }

    /// Sets the key by which a client asks to join its group the next time that it
    /// connects; an empty one is none.
    pub fn set_api_key(&mut self, key: Option<String>)
        ensures
            text_view(final(self).api_key) == (match key {
                Some(k) => if k@.len() == 0 {
                    None
                } else {
                    Some(k@)
                },
                None => None,
            }),
            final(self).mode == old(self).mode,
            final(self).room_name == old(self).room_name,
            final(self).room_key == old(self).room_key,
            final(self).client_id == old(self).client_id,
            final(self).auth_token == old(self).auth_token,
            final(self).running == old(self).running,
            final(self).echo_cache == old(self).echo_cache,
            final(self).seen_messages == old(self).seen_messages,
            final(self).waiting == old(self).waiting,
            final(self).hall == old(self).hall,
    {
        self.api_key = match key {
            Some(k) => {
                let blank = same_text(k.as_str(), "");
                proof {
                    reveal_strlit("");
                    if k@.len() == 0 {
                        assert(k@ =~= ""@);
                    }
                }
                if blank {
                    None
                } else {
                    Some(k)
                }
            },
            None => None,
        };
    }

    /// Starts the node. Hands back whether it was idle: one that runs is not started again.
    pub fn start(&mut self) -> (fresh: bool)
        ensures
            fresh == !old(self).running,
            *final(self) == (CloudSync { running: true, ..*old(self) }),
    {
        let was: bool = self.running;
        self.running = true;
        !was
    }

    /// Stops the node.
    pub fn stop(&mut self)
        ensures
            *final(self) == (CloudSync { running: false, ..*old(self) }),
    {
        self.running = false;
    }

    /// What can be seen of the node.
    pub fn status(&self) -> (s: CloudStatus)
        requires
            self.wf(),
        ensures
            s.mode == self.mode,
            s.connected == self.running,
            s.active_clients == self.hall.peers.seq().len(),
            s.queued_writes == 0,
            self.mode == CloudSyncMode::Server ==> s.room_name@ == "(multi-room)"@ && s.room_key@ == Seq::<char>::empty()
                && s.hosted_rooms == self.hall.rooms@.prefixes.len(),
            self.mode == CloudSyncMode::Client ==> s.room_name@ == self.room_name@ && s.room_key@ == self.room_key@
                && s.hosted_rooms == 0,
    {
        let (room_name, room_key, hosted): (String, String, usize) = match self.mode {
            CloudSyncMode::Server => ("(multi-room)".to_owned(), String::new(), self.hall.rooms.prefixes().len()),
            CloudSyncMode::Client => (self.room_name.clone(), self.room_key.clone(), 0),
        };
        CloudStatus {
            mode: self.mode,
            connected: self.running,
            room_name,
            room_key,
            active_clients: self.hall.peers.len(),
            queued_writes: 0,
            hosted_rooms: hosted,
        }
    }

    /// The peers that are connected.
    pub fn peer_list(&self) -> (r: Vec<PeerView>)
        ensures
            r@.len() == self.hall.peers.seq().len(),
            forall|i: int|
                0 <= i < r@.len() ==> #[trigger] peers_view(r@)[i] == (
                    self.hall.peers.seq()[i].0,
                    self.hall.peers.seq()[i].1@,
                ),
    {
        let ghost s = self.hall.peers.seq();
        let mut r: Vec<PeerView> = Vec::new();
        let mut i: usize = 0;
        while i < self.hall.peers.len()
            invariant
                s == self.hall.peers.seq(),
                i <= s.len(),
                r@.len() == i,
                forall|k: int| 0 <= k < i ==> (#[trigger] r@[k]).peer_key@ == s[k].0 && r@[k].prefix@ == s[k].1@,
            decreases s.len() - i,
        {
            let (k, p) = self.hall.peers.entry(i);
            r.push(PeerView { peer_key: k.clone(), prefix: p.clone() });
            i = i + 1;
        }
        r
    }

    /// How far the collections of a room have come, by the names that its clients know.
    pub fn room_versions(&self, db: &mut Hako, prefix: &str, dirs: &Vec<String>) -> (r: VersionMap)
        requires
            old(db).wf(),
        ensures
            final(db).wf(),
            places_same(*old(db), *final(db)),
            r.wf(),
            room_versions_are(*old(db), prefix@, names_view(dirs@), r@),
    {
        server_room_version_map(db, prefix, dirs)
    }
}

} // verus!
