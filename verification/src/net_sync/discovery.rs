//! How nodes look for each other.
use vstd::prelude::*;

verus! {

/// How a node looks for others. Nodes find each other where they share a way.
#[derive(Debug, Clone, Copy, PartialEq, Eq, Structural)]
pub enum DiscoveryMode {
    /// By multicast DNS.
    Mdns,
    /// By broadcast beacons, which need no multicast.
    Broadcast,
    /// Both ways at once.
    Both,
}

impl Default for DiscoveryMode {
    fn default() -> (m: DiscoveryMode)
        ensures
            m == DiscoveryMode::Mdns,
    {
        DiscoveryMode::Mdns
    }
}

/// The mode with a number.
pub open spec fn numbered_mode(v: u8) -> Option<DiscoveryMode> {
    if v == 0 {
        Some(DiscoveryMode::Mdns)
    } else if v == 1 {
        Some(DiscoveryMode::Broadcast)
    } else if v == 2 {
        Some(DiscoveryMode::Both)
    } else {
        None
    }
}

impl DiscoveryMode {
    /// The mode with a number, if there is one.
    pub fn from_u8(v: u8) -> (r: Option<DiscoveryMode>)
        ensures
            r == numbered_mode(v),
    {
        match v {
            0 => Some(DiscoveryMode::Mdns),
            1 => Some(DiscoveryMode::Broadcast),
            2 => Some(DiscoveryMode::Both),
            _ => None,
        }
    }

    /// The number of the mode.
    pub fn number(self) -> (v: u8)
        ensures
            numbered_mode(v) == Some(self),
    {
        match self {
            DiscoveryMode::Mdns => 0,
            DiscoveryMode::Broadcast => 1,
            DiscoveryMode::Both => 2,
        }
    }
}

/// How a node looks for others unless it is told: by broadcast on a mobile device, which
/// hears no multicast.
pub fn default_discovery_mode(mobile: bool) -> (m: DiscoveryMode)
    ensures
        m == (if mobile {
            DiscoveryMode::Broadcast
        } else {
            DiscoveryMode::Mdns
        }),
{
    if mobile {
        DiscoveryMode::Broadcast
    } else {
        DiscoveryMode::Mdns
    }
}

/// Whether a mode looks by multicast DNS, and whether by broadcast.
pub fn transports_for(mode: DiscoveryMode) -> (r: (bool, bool))
    ensures
        r.0 == (mode != DiscoveryMode::Broadcast),
        r.1 == (mode != DiscoveryMode::Mdns),
{
    match mode {
        DiscoveryMode::Mdns => (true, false),
        DiscoveryMode::Broadcast => (false, true),
        DiscoveryMode::Both => (true, true),
    }
}

} // verus!
