//! What nodes tell each other, and what can be seen of them.
use vstd::prelude::*;

use crate::cloud_sync::packet::VersionMap;
use crate::engine::types::IndexList;
use crate::storage::wal::WalOp;

verus! {

/// How a node stands with its network.
#[derive(Debug, Clone, Copy, PartialEq, Eq, Structural)]
pub enum SyncStatus {
    Idle,
    Connected,
    Syncing,
}

/// What can be seen of a node.
#[derive(Debug)]
pub struct NetworkStatus {
    pub status: SyncStatus,
    pub self_id: String,
    pub peer_count: usize,
    pub known_peers: Vec<String>,
}

/// A message between nodes.
pub enum NetPacket {
    /// Who speaks, and in which room.
    Identify { id: String, room_hash: [u8; 32] },
    /// How far the collections of the node have come, and which indexes it has.
    Ping { versions: VersionMap, indexes: IndexList },
    /// Everything is asked for.
    SyncRequest,
    /// Changes of a collection. A message with the number 0 is not passed on.
    Replication { msg_id: u128, collection: String, ops: Vec<WalOp> },
    /// What the node tells of its encryption. It stands last, so that nodes that do not know
    /// it still understand the others.
    SyncCaps { key_fp: [u8; 32], encrypted_cols: Vec<String> },
}

} // verus!
