//! Network addresses of peers, as plain values.

use vstd::prelude::*;

verus! {

/// A socket address: an IP address and a port. Two addresses are equal when
/// every field is.
#[derive(Clone, Copy, Debug, PartialEq, Eq, Structural)]
pub enum PeerAddr {
    /// IPv4: the address's four octets as a big-endian number, and the port.
    V4 { ipv4: u32, port: u16 },
    /// IPv6: the address's sixteen octets as a big-endian number, the port,
    /// the flow information and the scope id.
    V6 { ipv6: u128, port: u16, flowinfo: u32, scope_id: u32 },
}

impl PeerAddr {
    /// The IPv4 wildcard address with port 0 (`0.0.0.0:0`): bind anywhere, any port.
    pub fn unspecified_v4() -> (res: PeerAddr)
        ensures
            res == (PeerAddr::V4 { ipv4: 0, port: 0 }),
    {
        PeerAddr::V4 { ipv4: 0, port: 0 }
    }
}

} // verus!
