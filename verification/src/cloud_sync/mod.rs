//! Replication through a server: rooms, what enters and leaves them, and the sessions of
//! both sides.
pub mod access;
pub mod agreement;
pub mod auth;
pub mod broadcaster;
pub mod catchup;
pub mod cloud;
pub mod config;
pub mod ingest;
pub mod isolation;
pub mod keeping;
pub mod meetings;
pub mod packet;
pub mod protocol;
pub mod reach;
pub mod restarts;
pub mod rooms;
pub mod seen;
pub mod session;
pub mod tail;
pub mod transport;
pub mod url;

pub use cloud::CloudSync;
pub use config::{CloudSyncConfig, TransportMode};
pub use packet::{CloudPacket, CloudStatus, CloudSyncMode, PeerView};
pub use rooms::RoomRegistry;
