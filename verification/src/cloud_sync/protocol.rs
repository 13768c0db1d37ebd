//! What nodes tell each other over the dedicated transport.
use vstd::prelude::*;

use crate::cloud_sync::auth::{accepts, CloudAuthenticator};
use crate::sorted_map::SortedMap;

verus! {

/// How far each collection has come.
pub type VectorClock = SortedMap<String, u64>;

/// A value that is kept aside, with its hash.
#[derive(Debug)]
pub struct BlobData {
    pub hash: String,
    pub data: Vec<u8>,
}

pub struct HandshakeRequest {
    pub node_id: String,
    pub auth_token: String,
    pub vector_clock: VectorClock,
}

pub struct HandshakeResponse {
    pub server_id: String,
    pub accepted: bool,
    pub server_clock: VectorClock,
}

/// A change of a document.
#[derive(Debug)]
pub enum SyncOp {
    Upsert {
        collection: String,
        doc_id: String,
        version: u64,
        payload_bytes: Vec<u8>,
        attached_blobs: Vec<BlobData>,
    },
    Delete { collection: String, doc_id: String, version: u64 },
}

pub struct SyncBatch {
    pub sender_id: String,
    pub ops: Vec<SyncOp>,
    pub vector_clock: VectorClock,
}

pub struct SyncResponse {
    pub success: bool,
    pub ops_applied: usize,
    pub updated_clock: VectorClock,
}

/// Keeps a connection alive, and brings what was missed.
pub enum HeartbeatFrame {
    Ping { client_id: String, clock: VectorClock },
    Pong { server_clock: VectorClock, missed_ops: Vec<SyncOp> },
}

/// The answer to a handshake: the server and its clock, where the token is accepted.
pub fn handle_handshake(
    auth: &CloudAuthenticator,
    server_id: &str,
    clock: VectorClock,
    request: &HandshakeRequest,
) -> (r: Option<HandshakeResponse>)
    ensures
        match r {
            Some(a) => accepts(auth.secret(), request.auth_token@) && a.server_id@ == server_id@ && a.accepted
                && a.server_clock == clock,
            None => !accepts(auth.secret(), request.auth_token@),
        },
{
    if !auth.validate_token(request.auth_token.as_str()) {
        return None;
    }
    Some(HandshakeResponse { server_id: server_id.to_owned(), accepted: true, server_clock: clock })
}

} // verus!
