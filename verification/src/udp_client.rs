//! The UDP client's bookkeeping: the table it sends to the server and the
//! table it last received from it.
//!
//! Receiving and sending datagrams is left to the caller.

use vstd::prelude::*;
use crate::addr::PeerAddr;
use crate::packet::{decode_packets, Packet, Packets};
use crate::table::upsert;
use crate::udp_server::Datagram;
use crate::wire::{is_table_wire, table_wire, WireEntry};

verus! {

/// A client's state as plain values.
pub struct UdpClientView {
    pub id: u32,
    /// The address the client binds to.
    pub local: PeerAddr,
    /// The server's address.
    pub server: PeerAddr,
    /// The client's own table, sent whole with every `send_packet`.
    pub client_packets: Seq<WireEntry>,
    /// The table last received from the server.
    pub server_packets: Seq<WireEntry>,
}

/// A client of one server.
pub struct UdpClient {
    id: u32,
    our_addr: PeerAddr,
    server_addr: PeerAddr,
    client_packets: Packets,
    server_packets: Packets,
}

impl View for UdpClient {
    type V = UdpClientView;

    closed spec fn view(&self) -> UdpClientView {
        UdpClientView {
            id: self.id,
            local: self.our_addr,
            server: self.server_addr,
            client_packets: self.client_packets@,
            server_packets: self.server_packets@,
        }
    }
}

impl UdpClient {
    /// A client with the given id, talking to `server_addr` from any local
    /// address and port, with empty tables.
    pub fn new(id: u32, server_addr: PeerAddr) -> (res: Self)
        ensures
            res@ == (UdpClientView {
                id,
                local: PeerAddr::V4 { ipv4: 0, port: 0 },
                server: server_addr,
                client_packets: Seq::empty(),
                server_packets: Seq::empty(),
            }),
    {
        UdpClient {
            id,
            our_addr: PeerAddr::unspecified_v4(),
            server_addr,
            client_packets: Packets::new(),
            server_packets: Packets::new(),
        }
    }

    pub fn id(&self) -> (res: u32)
        ensures
            res == self@.id,
    {
        self.id
    }

    pub fn our_addr(&self) -> (res: PeerAddr)
        ensures
            res == self@.local,
    {
        self.our_addr
    }

    pub fn server_addr(&self) -> (res: PeerAddr)
        ensures
            res == self@.server,
    {
        self.server_addr
    }

    /// The client's own table.
    pub fn client_packets(&self) -> (res: &Packets)
        ensures
            res@ == self@.client_packets,
    {
        &self.client_packets
    }

    /// The table last received from the server.
    pub fn server_packets(&self) -> (res: &Packets)
        ensures
            res@ == self@.server_packets,
    {
        &self.server_packets
    }

    /// Takes a datagram from the server: the server table becomes the one it
    /// holds, and `true` is returned; when it holds none, nothing changes and
    /// `false` is returned.
    pub fn try_update(&mut self, datagram: &[u8]) -> (res: bool)
        ensures
            res == decode_packets(datagram@) is Some,
            final(self)@ == (UdpClientView {
                server_packets: if res {
                    decode_packets(datagram@)->0
                } else {
                    old(self)@.server_packets
                },
                ..old(self)@
            }),
    {
        match Packets::try_deserialize(datagram) {
            Some(table) => {
                self.server_packets = table;
                true
            },
            None => false,
        }
    }

    /// Takes a datagram from the server that holds a table: the server table
    /// becomes that table.
    pub fn update(&mut self, datagram: &[u8])
        requires
            is_table_wire(datagram@),
        ensures
            final(self)@ == (UdpClientView {
                server_packets: decode_packets(datagram@)->0,
                ..old(self)@
            }),
    {
        self.try_update(datagram);
    }

    /// Stores `packet` under `packet_name` in the client's table and returns
    /// the datagram that sends the whole table to the server.
    ///
    /// Decoding the datagram's bytes, followed by anything, gives the table back.
    pub fn send_packet(&mut self, packet_name: &str, packet: Packet) -> (d: Datagram)
        ensures
            final(self)@ == (UdpClientView {
                client_packets: upsert(old(self)@.client_packets, packet_name@, packet@),
                ..old(self)@
            }),
            d@ == (old(self)@.server, table_wire(final(self)@.client_packets)),
            forall|suffix: Seq<u8>| #[trigger]
                decode_packets(d.bytes@ + suffix) == Some(final(self)@.client_packets),
    {
        self.client_packets.insert(packet_name.to_owned(), packet);
        let bytes = self.client_packets.serialize();
        Datagram { to: self.server_addr, bytes }
    }
}

} // verus!
