//! How a client reaches its server.
use vstd::prelude::*;
use vstd::string::*;

use crate::util::decimal::{digits, push_digits};

verus! {

/// The way to the server.
#[derive(Debug)]
pub enum TransportMode {
    TcpDedicated { endpoint: String, use_tls: bool },
    WebSocketApi { ws_url: String, api_url: String },
}

/// The settings of a client.
#[derive(Debug)]
pub struct CloudSyncConfig {
    pub mode: TransportMode,
    pub auth_token: String,
    pub client_id: String,
    pub auto_reconnect: bool,
    pub sync_interval_ms: u64,
}

/// The id of a client that was given none.
pub open spec fn node_id(n: u32) -> Seq<char> {
    "node-"@ + digits(n as nat, 10)
}

/// The settings of a client that was given none, with a number for its id.
pub open spec fn default_config(c: CloudSyncConfig, n: u32) -> bool {
    &&& c.mode matches TransportMode::WebSocketApi { ws_url, api_url } && ws_url@ == "ws://127.0.0.1:8080/ws/sync"@
        && api_url@ == "http://127.0.0.1:8080/api/v1"@
    &&& c.auth_token@.len() == 0
    &&& c.client_id@ == node_id(n)
    &&& c.auto_reconnect
    &&& c.sync_interval_ms == 5000
}

/// `rand::random::<u32>`: any number at all.
#[verifier::external_body]
fn random_number() -> u32 {
    rand::random::<u32>()
}

impl CloudSyncConfig {
    /// The settings of a client that was given none, with a number for its id.
    pub fn with_number(n: u32) -> (c: CloudSyncConfig)
        ensures
            default_config(c, n),
    {
        let mut client_id = "node-".to_owned();
        push_digits(&mut client_id, n as u64, 10);
        CloudSyncConfig {
            mode: TransportMode::WebSocketApi {
                ws_url: "ws://127.0.0.1:8080/ws/sync".to_owned(),
                api_url: "http://127.0.0.1:8080/api/v1".to_owned(),
            },
            auth_token: String::new(),
            client_id,
            auto_reconnect: true,
            sync_interval_ms: 5000,
        }
    }
}

impl Default for CloudSyncConfig {
    fn default() -> (c: CloudSyncConfig)
        ensures
            exists|n: u32| default_config(c, n),
    {
        let n: u32 = random_number();
        CloudSyncConfig::with_number(n)
    }
}

} // verus!
