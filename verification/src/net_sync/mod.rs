//! Replication between nodes of a local network: finding each other, and what they tell
//! each other.
pub mod address;
pub mod arrival;
pub mod beacon;
pub mod catch_up;
pub mod delta;
pub mod discovery;
pub mod intake;
pub mod packet;
pub mod peer;
pub mod spread;
pub mod syncer;

pub use discovery::DiscoveryMode;
pub use syncer::NetSyncer;
pub use packet::{NetPacket, NetworkStatus, SyncStatus};
