//! Where a listener receives and where its replies go.

use vstd::prelude::*;

use crate::config::Listener;
use crate::net::Platform;
use crate::server::ReplyDest;

verus! {

/// The UDP ports: the server's and the client's. Higher ports let the
/// service run without privilege, for tests.
#[derive(Clone, Copy, Debug, PartialEq, Eq, Structural)]
pub struct Ports {
    pub server: u16,
    pub client: u16,
}

impl Default for Ports {
    /// The standard ports, 67 and 68.
    fn default() -> (r: Ports)
        ensures
            r == (Ports { server: 67, client: 68 }),
    {
        Ports { server: 67, client: 68 }
    }
}

/// Whether a listener sees only its own interface's traffic. This is a
/// safety matter: where it cannot, the service answers DHCP requests on
/// every interface of the host, and a laptop plugged into a production
/// network becomes a rogue DHCP server. On Windows binding to the local
/// address is enough; on Linux it takes `SO_BINDTODEVICE`, so only with an
/// interface name; elsewhere it cannot be done.
pub open spec fn spec_rx_is_isolated(p: Platform, l: Listener) -> bool {
    if p == Platform::Windows {
        true
    } else if p == Platform::Linux {
        l.iface is Some
    } else {
        false
    }
}

pub fn rx_is_isolated(p: Platform, l: &Listener) -> (r: bool)
    ensures
        r == spec_rx_is_isolated(p, *l),
{
    if p == Platform::Windows {
        true
    } else if p == Platform::Linux {
        l.iface.is_some()
    } else {
        false
    }
}

/// The address the receive socket binds to: the listener's own on
/// Windows (where limited broadcasts still arrive there), the wildcard
/// elsewhere (where they would not).
pub fn rx_bind_addr(p: Platform, l: &Listener) -> (r: u32)
    ensures
        r == if p == Platform::Windows { l.server_ip } else { 0 },
{
    if p == Platform::Windows {
        l.server_ip
    } else {
        0
    }
}

/// Where a reply is sent: back to a relay on the server port, to a renewing
/// client's address on the client port, otherwise broadcast on the client
/// port. A unicast to the offered address would need a hand-made ARP entry,
/// which cannot be done portably; clients filter by `xid`, so the broadcast
/// reaches the right one.
pub open spec fn spec_reply_target(dest: ReplyDest, ports: Ports) -> (u32, u16) {
    match dest {
        ReplyDest::Relay(gw) => (gw, ports.server),
        ReplyDest::Unicast(ip) => (ip, ports.client),
        ReplyDest::Broadcast => (0xffff_ffffu32, ports.client),
        ReplyDest::UnicastYiaddr(_) => (0xffff_ffffu32, ports.client),
    }
}

pub fn reply_target(dest: ReplyDest, ports: Ports) -> (r: (u32, u16))
    ensures
        r == spec_reply_target(dest, ports),
{
    match dest {
        ReplyDest::Relay(gw) => (gw, ports.server),
        ReplyDest::Unicast(ip) => (ip, ports.client),
        ReplyDest::Broadcast => (0xffff_ffff, ports.client),
        ReplyDest::UnicastYiaddr(_) => (0xffff_ffff, ports.client),
    }
}

} // verus!
