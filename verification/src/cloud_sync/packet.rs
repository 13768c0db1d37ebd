//! What server and clients tell each other, and what can be seen of them.
use vstd::prelude::*;

use crate::sorted_map::SortedMap;
use crate::storage::wal::WalOp;

verus! {

/// Which side a node is on.
#[derive(Debug, Clone, Copy, PartialEq, Eq, Structural)]
pub enum CloudSyncMode {
    Server,
    Client,
}

impl CloudSyncMode {
    /// The side with a number: the server for 0, and a client for any other.
    pub fn from_number(mode: i32) -> (m: CloudSyncMode)
        ensures
            m == (if mode == 0 {
                CloudSyncMode::Server
            } else {
                CloudSyncMode::Client
            }),
    {
        if mode == 0 {
            CloudSyncMode::Server
        } else {
            CloudSyncMode::Client
        }
    }
}

/// How far collections have come: the latest time of each.
pub type VersionMap = SortedMap<String, i64>;

/// A message.
pub enum CloudPacket {
    /// A client asks to join a room. Older clients tell nothing of a key or of encryption.
    Authenticate {
        token: String,
        client_id: String,
        room_name: String,
        room_key: String,
        api_key: Option<String>,
        client_version: Option<String>,
        enc_fp: Option<[u8; 32]>,
        enc_cols: Vec<String>,
    },
    /// The server lets a client in, or not.
    AuthResult { success: bool, error: Option<String> },
    /// How far the collections of one side have come.
    VersionPing { versions: VersionMap },
    /// Changes of a collection.
    Replication { msg_id: u128, collection: String, ops: Vec<WalOp> },
    /// Everything of a collection is asked for.
    SyncRequest { collection: String },
    Heartbeat,
}

/// What can be seen of a node.
#[derive(Debug)]
pub struct CloudStatus {
    pub mode: CloudSyncMode,
    pub connected: bool,
    pub room_name: String,
    pub room_key: String,
    pub active_clients: usize,
    pub queued_writes: usize,
    /// How many rooms the server hosts.
    pub hosted_rooms: usize,
}

/// What can be seen of a peer.
#[derive(Debug)]
pub struct PeerView {
    pub peer_key: String,
    pub prefix: String,
}

} // verus!
