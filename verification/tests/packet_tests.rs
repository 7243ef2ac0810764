use std::collections::HashMap;

use rnet::packet::{Packet, Packets};

fn le(n: u64) -> Vec<u8> {
    n.to_le_bytes().to_vec()
}

#[test]
fn new_table_is_empty() {
    let p = Packets::new();
    assert_eq!(p.len(), 0);
    assert!(p.names().is_empty());
    let d = Packets::default();
    assert_eq!(d.len(), 0);
}

#[test]
fn packet_new_keeps_bytes() {
    let p = Packet::new(vec![7, 8, 9]);
    assert_eq!(p.data, vec![7, 8, 9]);
    let q = p.clone();
    assert_eq!(q.data, vec![7, 8, 9]);
}

#[test]
fn insert_then_get() {
    let mut p = Packets::new();
    p.insert("y".to_string(), Packet::new(vec![13, 0, 0, 0]));
    assert_eq!(p.get("y").unwrap().data, vec![13, 0, 0, 0]);
    assert!(p.get("x").is_none());
    assert_eq!(p.len(), 1);
}

#[test]
fn insert_same_name_replaces_in_place() {
    let mut p = Packets::new();
    p.insert("a".to_string(), Packet::new(vec![1]));
    p.insert("b".to_string(), Packet::new(vec![2]));
    p.insert("a".to_string(), Packet::new(vec![3]));
    assert_eq!(p.len(), 2);
    assert_eq!(p.names(), vec!["a".to_string(), "b".to_string()]);
    assert_eq!(p.get("a").unwrap().data, vec![3]);
    assert_eq!(p.get("b").unwrap().data, vec![2]);
}

#[test]
fn serialize_writes_bincode_layout() {
    let mut p = Packets::new();
    p.insert("y".to_string(), Packet::new(vec![1, 2]));
    let mut expected = le(1);
    expected.extend(le(1));
    expected.push(b'y');
    expected.extend(le(2));
    expected.extend([1, 2]);
    assert_eq!(p.serialize(), expected);
}

#[test]
fn serialize_empty_table() {
    assert_eq!(Packets::new().serialize(), le(0));
}

#[test]
fn serialize_matches_bincode_of_a_map() {
    let mut p = Packets::new();
    p.insert("greet".to_string(), Packet::new(vec![2, 0, 0, 0, 0, 0, 0, 0, b'h', b'i']));
    let mut m: HashMap<String, Vec<u8>> = HashMap::new();
    m.insert("greet".to_string(), vec![2, 0, 0, 0, 0, 0, 0, 0, b'h', b'i']);
    assert_eq!(p.serialize(), bincode::serialize(&m).unwrap());
}

#[test]
fn serialize_non_ascii_name() {
    let mut p = Packets::new();
    p.insert("é".to_string(), Packet::new(vec![]));
    let mut expected = le(1);
    expected.extend(le(2));
    expected.extend("é".as_bytes());
    expected.extend(le(0));
    assert_eq!(p.serialize(), expected);
}

#[test]
fn roundtrip_with_trailing_bytes() {
    let mut p = Packets::new();
    p.insert("one".to_string(), Packet::new(vec![1]));
    p.insert("two".to_string(), Packet::new(vec![2, 2]));
    let mut bytes = p.serialize();
    bytes.extend([0xff; 40]);
    let q = Packets::deserialize(&bytes);
    assert_eq!(q.names(), vec!["one".to_string(), "two".to_string()]);
    assert_eq!(q.get("one").unwrap().data, vec![1]);
    assert_eq!(q.get("two").unwrap().data, vec![2, 2]);
    assert_eq!(q.serialize(), p.serialize());
}

#[test]
fn roundtrip_in_a_full_receive_buffer() {
    let mut p = Packets::new();
    p.insert("y".to_string(), Packet::new(vec![13, 0, 0, 0]));
    let bytes = p.serialize();
    let mut buf = [0u8; rnet::NET_BUFFER_SIZE];
    buf[..bytes.len()].copy_from_slice(&bytes);
    let q = Packets::deserialize(&buf);
    assert_eq!(q.get("y").unwrap().data, vec![13, 0, 0, 0]);
}

#[test]
fn deserialize_later_duplicate_wins() {
    let pairs: Vec<(String, Vec<u8>)> =
        vec![("a".to_string(), vec![1]), ("b".to_string(), vec![2]), ("a".to_string(), vec![3])];
    let bytes = bincode::serialize(&pairs).unwrap();
    let q = Packets::deserialize(&bytes);
    assert_eq!(q.len(), 2);
    assert_eq!(q.names(), vec!["a".to_string(), "b".to_string()]);
    assert_eq!(q.get("a").unwrap().data, vec![3]);
}

#[test]
fn try_deserialize_short_input() {
    assert!(Packets::try_deserialize(&[]).is_none());
    assert!(Packets::try_deserialize(&[1, 0, 0]).is_none());
    let mut bytes = le(1);
    bytes.extend(le(5));
    bytes.extend(b"ab");
    assert!(Packets::try_deserialize(&bytes).is_none());
}

#[test]
fn try_deserialize_name_not_utf8() {
    let mut bytes = le(1);
    bytes.extend(le(1));
    bytes.push(0xff);
    bytes.extend(le(0));
    assert!(Packets::try_deserialize(&bytes).is_none());
}

#[test]
fn try_deserialize_zero_buffer_is_empty_table() {
    let buf = [0u8; 16];
    let q = Packets::try_deserialize(&buf).unwrap();
    assert_eq!(q.len(), 0);
}

#[test]
fn total_data_len_sums_and_overflows() {
    let mut p = Packets::new();
    p.insert("a".to_string(), Packet::new(vec![0; 3]));
    p.insert("b".to_string(), Packet::new(vec![0; 4]));
    assert_eq!(p.total_data_len(0), Some(7));
    assert_eq!(p.total_data_len(10), Some(17));
    assert_eq!(p.total_data_len(usize::MAX - 6), None);
    assert_eq!(p.total_data_len(usize::MAX - 7), Some(usize::MAX));
}
