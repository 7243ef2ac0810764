//! Named-packet messaging over UDP: packet tables, their wire form, and the
//! bookkeeping of a server and a client that exchange them.

pub mod addr;
pub mod packet;
pub mod plot;
pub mod table;
pub mod text;
pub mod udp_client;
pub mod udp_server;
pub mod wire;

use vstd::prelude::*;

verus! {

/// Size of the receive buffer that servers and clients read datagrams into.
pub const NET_BUFFER_SIZE: usize = 1024;

} // verus!
