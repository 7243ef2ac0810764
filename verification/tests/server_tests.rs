use rnet::addr::PeerAddr;
use rnet::packet::{Packet, Packets};
use rnet::udp_client::UdpClient;
use rnet::udp_server::{ClientState, Datagram, Server, ServerCommand, ServerUpdateInfo};

fn server_addr() -> PeerAddr {
    PeerAddr::V4 { ipv4: 0x7f00_0001, port: 8080 }
}

fn client_addr(port: u16) -> PeerAddr {
    PeerAddr::V4 { ipv4: 0x7f00_0001, port }
}

fn info(amm: u64, max: usize) -> ServerUpdateInfo {
    ServerUpdateInfo {
        tick_time_ms: 0,
        queue_task_amm: amm,
        concurrent_capacity: 4,
        pool_thd_count: 4,
        max_queue_len: max,
        ..Default::default()
    }
}

fn table(name: &str, data: Vec<u8>) -> Vec<u8> {
    let mut p = Packets::new();
    p.insert(name.to_string(), Packet::new(data));
    p.serialize()
}

#[test]
fn defaults() {
    let i = ServerUpdateInfo::default();
    assert_eq!(i.tick_time_ms, 0);
    assert_eq!(i.queue_task_amm, 0);
    assert_eq!(i.concurrent_capacity, 0);
    assert!(!i.enable_auth);
    assert_eq!(i.max_queue_len, 0);
    assert_eq!(i.pool_thd_count, 0);
    let _c: ClientState = ClientState::default();
}

#[test]
fn new_server_is_empty() {
    let s = Server::new(server_addr());
    assert_eq!(s.addr(), server_addr());
    assert!(s.clients().is_empty());
    assert!(s.client_packets().is_empty());
    assert_eq!(s.server_packets().len(), 0);
    assert!(s.queue().is_empty());
    assert_eq!(s.connection_count(), 0);
}

#[test]
fn first_datagram_connects_the_sender() {
    let mut s = Server::new(server_addr());
    let out = s.update(&info(4, 4), client_addr(1), &table("greet", vec![1]));
    assert!(out.is_empty());
    assert_eq!(s.clients().len(), 1);
    assert_eq!(s.clients()[0].0, client_addr(1));
    assert_eq!(s.client_packets().len(), 1);
    assert_eq!(s.client_packets()[0].1.len(), 0);
    assert_eq!(s.connection_count(), 1);
}

#[test]
fn later_datagram_replaces_the_clients_table() {
    let mut s = Server::new(server_addr());
    s.update(&info(4, 4), client_addr(1), &table("greet", vec![1]));
    s.update(&info(4, 4), client_addr(1), &table("greet", vec![2]));
    assert_eq!(s.client_packets()[0].1.get("greet").unwrap().data, vec![2]);
    s.update(&info(4, 4), client_addr(1), &table("other", vec![3]));
    assert!(s.client_packets()[0].1.get("greet").is_none());
    assert_eq!(s.client_packets()[0].1.get("other").unwrap().data, vec![3]);
    assert_eq!(s.connection_count(), 1);
}

#[test]
fn malformed_datagram_from_client_changes_nothing() {
    let mut s = Server::new(server_addr());
    s.update(&info(4, 4), client_addr(1), &table("greet", vec![1]));
    s.update(&info(4, 4), client_addr(1), &table("greet", vec![2]));
    s.update(&info(4, 4), client_addr(1), &[1, 2, 3]);
    assert_eq!(s.client_packets()[0].1.get("greet").unwrap().data, vec![2]);
}

#[test]
fn try_handle_client_reports_storing() {
    let mut tables: Vec<(PeerAddr, Packets)> = Vec::new();
    assert!(!Server::try_handle_client(&mut tables, client_addr(5), &[0xff]));
    assert!(tables.is_empty());
    assert!(Server::try_handle_client(&mut tables, client_addr(5), &table("k", vec![4])));
    assert_eq!(tables.len(), 1);
    assert_eq!(tables[0].1.get("k").unwrap().data, vec![4]);
}

#[test]
fn handle_client_stores_table() {
    let mut tables: Vec<(PeerAddr, Packets)> = Vec::new();
    Server::handle_client(&mut tables, client_addr(5), &table("k", vec![4]));
    Server::handle_client(&mut tables, client_addr(6), &table("j", vec![]));
    Server::handle_client(&mut tables, client_addr(5), &table("k", vec![7]));
    assert_eq!(tables.len(), 2);
    assert_eq!(tables[0].0, client_addr(5));
    assert_eq!(tables[0].1.get("k").unwrap().data, vec![7]);
    assert_eq!(tables[1].1.len(), 1);
}

#[test]
fn client_table_arrives_whole() {
    let mut s = Server::new(server_addr());
    let mut c = UdpClient::new(0, server_addr());
    let first = c.send_packet("greet", Packet::new(vec![104, 105]));
    assert_eq!(first.to, server_addr());
    s.update(&info(4, 4), client_addr(9), &first.bytes);
    let second = c.send_packet("pos", Packet::new(vec![1, 2, 3]));
    let mut buf = [0u8; rnet::NET_BUFFER_SIZE];
    buf[..second.bytes.len()].copy_from_slice(&second.bytes);
    s.update(&info(4, 4), client_addr(9), &buf);
    let stored = &s.client_packets()[0].1;
    assert_eq!(stored.names(), c.client_packets().names());
    assert_eq!(stored.get("greet").unwrap().data, vec![104, 105]);
    assert_eq!(stored.get("pos").unwrap().data, vec![1, 2, 3]);
}

#[test]
fn send_packet_is_queued_then_sent() {
    let mut s = Server::new(server_addr());
    s.send_packet(client_addr(3), "y", Packet::new(vec![13, 0, 0, 0]));
    assert_eq!(s.queue().len(), 1);
    let out = s.handle_queue(&info(4, 4));
    assert!(s.queue().is_empty());
    assert_eq!(out.len(), 1);
    assert_eq!(out[0].to, client_addr(3));
    assert_eq!(out[0].bytes, table("y", vec![13, 0, 0, 0]));
    assert_eq!(s.server_packets().get("y").unwrap().data, vec![13, 0, 0, 0]);
}

#[test]
fn send_all_without_clients_does_nothing() {
    let mut s = Server::new(server_addr());
    s.send_packets_to_all_connected("y", Packet::new(vec![1]));
    let out = s.handle_queue(&info(4, 4));
    assert!(out.is_empty());
    assert!(s.queue().is_empty());
    assert_eq!(s.server_packets().len(), 0);
}

#[test]
fn send_all_reaches_every_client_with_a_table() {
    let mut s = Server::new(server_addr());
    s.update(&info(0, 4), client_addr(1), &table("a", vec![]));
    s.update(&info(0, 4), client_addr(2), &table("a", vec![]));
    s.send_packets_to_all_connected("y", Packet::new(vec![13, 0, 0, 0]));
    let out = s.handle_queue(&info(4, 4));
    assert_eq!(out.len(), 2);
    assert_eq!(out[0].to, client_addr(1));
    assert_eq!(out[1].to, client_addr(2));
    assert_eq!(out[0].bytes, table("y", vec![13, 0, 0, 0]));
    assert_eq!(out[1].bytes, out[0].bytes);
}

#[test]
fn queue_is_first_in_first_out() {
    let mut s = Server::new(server_addr());
    s.send_packet(client_addr(1), "a", Packet::new(vec![1]));
    s.send_packet(client_addr(2), "b", Packet::new(vec![2]));
    s.send_packet(client_addr(3), "c", Packet::new(vec![3]));
    let out = s.handle_queue(&info(2, 10));
    assert_eq!(out.len(), 2);
    assert_eq!(out[0].to, client_addr(1));
    assert_eq!(out[1].to, client_addr(2));
    assert_eq!(s.queue().len(), 1);
    let rest = s.handle_queue(&info(2, 10));
    assert_eq!(rest.len(), 1);
    assert_eq!(rest[0].to, client_addr(3));
    let names = s.server_packets().names();
    assert_eq!(names, vec!["a".to_string(), "b".to_string(), "c".to_string()]);
}

#[test]
fn overlong_queue_drops_oldest() {
    let mut s = Server::new(server_addr());
    for port in 1..=5u16 {
        s.send_packet(client_addr(port), "p", Packet::new(vec![port as u8]));
    }
    // One turn: the first command goes out, 4 wait, more than 2, so the oldest waiting is dropped.
    let out = s.handle_queue(&info(1, 2));
    assert_eq!(out.len(), 1);
    assert_eq!(out[0].to, client_addr(1));
    assert_eq!(s.queue().len(), 3);
    let next = s.handle_queue(&info(1, 2));
    assert_eq!(next[0].to, client_addr(3));
    assert_eq!(s.queue().len(), 2);
}

#[test]
fn zero_turns_leave_queue() {
    let mut s = Server::new(server_addr());
    s.send_packet(client_addr(1), "a", Packet::new(vec![1]));
    let out = s.handle_queue(&info(0, 0));
    assert!(out.is_empty());
    assert_eq!(s.queue().len(), 1);
}

#[test]
fn command_send_and_send_all() {
    let mut sp = Packets::new();
    let d: Datagram = ServerCommand::send(&mut sp, client_addr(4), "n".to_string(), Packet::new(vec![5]));
    assert_eq!(d.to, client_addr(4));
    assert_eq!(d.bytes, table("n", vec![5]));
    let mut clients: Vec<(PeerAddr, Packets)> = Vec::new();
    clients.push((client_addr(7), Packets::new()));
    let out = ServerCommand::send_all(&clients, &mut sp, "n".to_string(), Packet::new(vec![6]));
    assert_eq!(out.len(), 1);
    assert_eq!(out[0].to, client_addr(7));
    assert_eq!(sp.get("n").unwrap().data, vec![6]);
    assert_eq!(sp.len(), 1);
}

#[test]
fn handle_connection_twice_resets_table() {
    let mut s = Server::new(server_addr());
    s.handle_connection(client_addr(1));
    s.update(&info(0, 0), client_addr(1), &table("a", vec![1]));
    assert_eq!(s.client_packets()[0].1.len(), 1);
    s.handle_connection(client_addr(1));
    assert_eq!(s.clients().len(), 1);
    assert_eq!(s.client_packets()[0].1.len(), 0);
    assert_eq!(s.connection_count(), 2);
}

#[test]
fn disconnection_changes_nothing() {
    let mut s = Server::new(server_addr());
    s.handle_connection(client_addr(1));
    s.handle_disconnection(client_addr(1));
    assert_eq!(s.clients().len(), 1);
    assert_eq!(s.client_packets().len(), 1);
}

#[test]
fn remove_all_clients_and_data_usage() {
    let mut s = Server::new(server_addr());
    s.update(&info(0, 0), client_addr(1), &table("a", vec![0; 1]));
    s.update(&info(0, 0), client_addr(1), &table("a", vec![0; 5]));
    s.update(&info(0, 0), client_addr(2), &table("b", vec![]));
    s.update(&info(0, 0), client_addr(2), &table("b", vec![0; 3]));
    assert_eq!(s.incoming_data_usage(), Some(8));
    s.remove_all_clients();
    assert!(s.clients().is_empty());
    assert!(s.client_packets().is_empty());
    assert_eq!(s.incoming_data_usage(), Some(0));
}

#[test]
fn ipv6_addresses_are_told_apart() {
    let a = PeerAddr::V6 { ipv6: 1, port: 80, flowinfo: 0, scope_id: 0 };
    let b = PeerAddr::V6 { ipv6: 1, port: 80, flowinfo: 0, scope_id: 1 };
    let mut s = Server::new(server_addr());
    s.handle_connection(a);
    s.handle_connection(b);
    assert_eq!(s.clients().len(), 2);
}

#[test]
fn dropped_commands_never_reach_the_table() {
    let mut s = Server::new(server_addr());
    for (port, name) in [(1u16, "a"), (2, "b"), (3, "c"), (4, "d"), (5, "e")] {
        s.send_packet(client_addr(port), name, Packet::new(vec![port as u8]));
    }
    // Two turns with at most one waiting: a sent, b dropped, c sent, d dropped.
    let out = s.handle_queue(&info(2, 1));
    assert_eq!(out.len(), 2);
    assert_eq!(out[0].to, client_addr(1));
    assert_eq!(out[1].to, client_addr(3));
    assert_eq!(s.server_packets().names(), vec!["a".to_string(), "c".to_string()]);
    assert_eq!(s.queue().len(), 1);
}
