use rnet::addr::PeerAddr;
use rnet::packet::{Packet, Packets};
use rnet::plot::retain_last;
use rnet::text::decode_message;
use rnet::udp_client::UdpClient;
use rnet::udp_server::{Server, ServerUpdateInfo};

fn server_addr() -> PeerAddr {
    PeerAddr::V4 { ipv4: 0x7f00_0001, port: 8080 }
}

#[test]
fn new_client() {
    let c = UdpClient::new(7, server_addr());
    assert_eq!(c.id(), 7);
    assert_eq!(c.server_addr(), server_addr());
    assert_eq!(c.our_addr(), PeerAddr::V4 { ipv4: 0, port: 0 });
    assert_eq!(PeerAddr::unspecified_v4(), c.our_addr());
    assert_eq!(c.client_packets().len(), 0);
    assert_eq!(c.server_packets().len(), 0);
}

#[test]
fn send_packet_carries_whole_table() {
    let mut c = UdpClient::new(0, server_addr());
    c.send_packet("greet", Packet::new(vec![1]));
    let d = c.send_packet("other", Packet::new(vec![2]));
    assert_eq!(d.to, server_addr());
    let t = Packets::deserialize(&d.bytes);
    assert_eq!(t.names(), vec!["greet".to_string(), "other".to_string()]);
    assert_eq!(d.bytes, c.client_packets().serialize());
    assert_eq!(c.server_packets().len(), 0);
}

#[test]
fn update_takes_server_table() {
    let mut server = Server::new(server_addr());
    let me = PeerAddr::V4 { ipv4: 0x0a00_0002, port: 5000 };
    server.send_packet(me, "y", Packet::new(vec![13, 0, 0, 0]));
    let info = ServerUpdateInfo { queue_task_amm: 4, max_queue_len: 4, ..Default::default() };
    let out = server.handle_queue(&info);
    let mut c = UdpClient::new(0, server_addr());
    let mut buf = [0u8; rnet::NET_BUFFER_SIZE];
    buf[..out[0].bytes.len()].copy_from_slice(&out[0].bytes);
    c.update(&buf);
    assert_eq!(c.server_packets().get("y").unwrap().data, vec![13, 0, 0, 0]);
}

#[test]
fn try_update_rejects_garbage() {
    let mut c = UdpClient::new(0, server_addr());
    let mut p = Packets::new();
    p.insert("a".to_string(), Packet::new(vec![1]));
    assert!(c.try_update(&p.serialize()));
    assert!(!c.try_update(&[5, 0]));
    assert_eq!(c.server_packets().get("a").unwrap().data, vec![1]);
}

#[test]
fn decode_message_reads_utf8() {
    assert_eq!(decode_message(b"Hey, my little clients!"), Some("Hey, my little clients!".to_string()));
    assert_eq!(decode_message("héllo".as_bytes()), Some("héllo".to_string()));
    assert_eq!(decode_message(&[]), Some(String::new()));
    assert_eq!(decode_message(&[0xff, 0xfe]), None);
    assert_eq!(decode_message(&[0xed, 0xa0, 0x80]), None);
}

#[test]
fn retain_last_keeps_newest() {
    let mut v: Vec<u32> = (0..10).collect();
    retain_last(&mut v, 4);
    assert_eq!(v, vec![6, 7, 8, 9]);
    retain_last(&mut v, 10);
    assert_eq!(v, vec![6, 7, 8, 9]);
    retain_last(&mut v, 0);
    assert!(v.is_empty());
    let mut pts: Vec<[f64; 2]> = vec![[0.0, 0.0]; 600];
    pts.push([1.0, 2.0]);
    retain_last(&mut pts, 512);
    assert_eq!(pts.len(), 512);
    assert_eq!(pts[511], [1.0, 2.0]);
}
