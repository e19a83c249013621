use dht_node::structs::node::{
    decode_nodes, encode_nodes, encode_peers, parse_address, Endpoint, Node,
};
use dht_node::structs::time::Timestamp;
use dht_node::structs::util::HashId;

fn get_node() -> Node {
    Node::new(Endpoint::new("127.0.0.1", 4444).unwrap(), HashId::new([17; 20]))
}

#[test]
fn node_test_new_node_is_not_questionable() {
    let endpoint = Endpoint::new("127.0.0.1", 4444).unwrap();
    let id = HashId::new([17; 20]);
    let node = Node::new(endpoint, id);

    assert_eq!(node.questionable(), false);
}

#[test]
#[should_panic]
fn node_test_fail_on_invalid_ip() {
    let _endpoint = Endpoint::new("256.0.0.1", 4444).unwrap();
}

#[test]
fn test_node_is_questionable_after_15_minutes() {
    let mut node = get_node();

    node.last_seen.secs -= 14 * 60;
    assert_eq!(node.questionable(), false);

    node.last_seen.secs -= 60;
    assert!(node.questionable());
}

#[test]
fn test_compact_node_info() {
    let first_node = get_node();
    let compact = first_node.to_str();

    let parsed_node = Node::from_str(compact);
    assert_eq!(first_node, parsed_node.unwrap());
}

#[test]
fn test_parse_compact_node_info() {
    let node =
        Node::from_str("38636177a357835555a2be8b36b6a2c80bd2bd536a9d70e3b1d3".to_string()).unwrap();

    assert_eq!(node.endpoint.port, 45523);
}

#[test]
fn test_parse_compact_node_info_reads_every_field() {
    let node =
        Node::from_str("38636177a357835555a2be8b36b6a2c80bd2bd536a9d70e3b1d3".to_string()).unwrap();

    assert_eq!(
        node.node_id,
        HashId::from_str("38636177a357835555a2be8b36b6a2c80bd2bd53".to_string()).unwrap()
    );
    assert_eq!(node.endpoint.addr, [0x6a, 0x9d, 0x70, 0xe3]);
    assert_eq!(node.endpoint.port, 0xb1d3);
    assert_eq!(node.failed_queries, 0);
}

#[test]
fn test_node_from_str_rejects_short_and_odd_text() {
    assert!(Node::from_str("".to_string()).is_err());
    assert!(Node::from_str("38636177".to_string()).is_err());
    assert!(Node::from_str("zz".repeat(26)).is_err());
    assert!(Node::from_str("ab".repeat(25)).is_err());
    assert!(Node::from_str("a".repeat(53)).is_err());
}

#[test]
fn test_node_from_str_reads_the_first_26_bytes() {
    let text = "38636177a357835555a2be8b36b6a2c80bd2bd536a9d70e3b1d3".to_string();
    let longer = format!("{}ffff", text);
    assert_eq!(Node::from_str(longer).unwrap(), Node::from_str(text).unwrap());
}

#[test]
fn test_endpoint_compact_form() {
    let endpoint = Endpoint::from_octets([10, 0, 0, 5], 51413);
    assert_eq!(endpoint.to_compact(), [10, 0, 0, 5, 0xc8, 0xd5]);
    assert_eq!(Endpoint::from_compact([10, 0, 0, 5, 0xc8, 0xd5]), endpoint);
}

#[test]
fn test_endpoint_compact_round_trip_at_the_edges() {
    for port in [0u16, 1, 255, 256, 4444, 65535] {
        let endpoint = Endpoint::from_octets([255, 0, 128, 1], port);
        assert_eq!(Endpoint::from_compact(endpoint.to_compact()), endpoint);
    }
}

#[test]
fn test_node_compact_round_trip() {
    let mut id = [0u8; 20];
    for i in 0..20 {
        id[i] = (i * 13 + 1) as u8;
    }
    let now = Timestamp::new(1_700_000_000, 5);
    let node = Node::first_seen(Endpoint::from_octets([192, 168, 1, 20], 6881), HashId::new(id), now);
    let record = node.to_compact();
    assert_eq!(&record[0..20], &id[..]);
    assert_eq!(&record[20..26], &[192, 168, 1, 20, 0x1a, 0xe1][..]);
    let back = Node::from_compact(&record, now);
    assert_eq!(back, node);
    assert_eq!(back.last_seen, now);
}

#[test]
fn test_node_equality_ignores_the_time() {
    let endpoint = Endpoint::from_octets([127, 0, 0, 1], 4444);
    let id = HashId::new([17; 20]);
    let a = Node::first_seen(endpoint, id, Timestamp::new(10, 0));
    let b = Node::first_seen(endpoint, id, Timestamp::new(99, 7));
    assert_eq!(a, b);
    let c = Node::first_seen(Endpoint::from_octets([127, 0, 0, 1], 4445), id, Timestamp::new(10, 0));
    assert_ne!(a, c);
    let d = Node::first_seen(endpoint, HashId::new([18; 20]), Timestamp::new(10, 0));
    assert_ne!(a, d);
}

#[test]
fn test_questionable_at_the_quarter_hour() {
    let seen = Timestamp::new(1_000, 500);
    let node = Node::first_seen(Endpoint::from_octets([127, 0, 0, 1], 4444), HashId::new([17; 20]), seen);
    assert_eq!(node.questionable_at(&Timestamp::new(1_000 + 900, 500)), false);
    assert_eq!(node.questionable_at(&Timestamp::new(1_000 + 900, 501)), true);
    assert_eq!(node.questionable_at(&Timestamp::new(1_000 + 899, 999_999_999)), false);
    assert_eq!(node.questionable_at(&Timestamp::new(0, 0)), false);
    assert_eq!(node.questionable_at(&Timestamp::new(i64::MAX, 0)), true);
}

#[test]
fn test_distance_of_nodes() {
    let a = Node::new(Endpoint::from_octets([127, 0, 0, 1], 4444), HashId::new([17; 20]));
    let b = Node::new(Endpoint::from_octets([127, 0, 0, 1], 5555), HashId::new([255; 20]));
    assert_eq!(a.distance(b), HashId::new([238; 20]));
}

#[test]
fn test_encode_nodes_joins_compact_records() {
    let now = Timestamp::new(1, 0);
    let a = Node::first_seen(Endpoint::from_octets([1, 2, 3, 4], 0x0102), HashId::new([0xaa; 20]), now);
    let b = Node::first_seen(Endpoint::from_octets([5, 6, 7, 8], 0x0304), HashId::new([0xbb; 20]), now);
    let bytes = encode_nodes(&vec![a, b]);
    let mut expected = vec![0xaa; 20];
    expected.extend_from_slice(&[1, 2, 3, 4, 1, 2]);
    expected.extend_from_slice(&[0xbb; 20]);
    expected.extend_from_slice(&[5, 6, 7, 8, 3, 4]);
    assert_eq!(bytes, expected);
    assert_eq!(encode_nodes(&vec![]), Vec::<u8>::new());
}

#[test]
fn test_encode_peers_lists_compact_endpoints() {
    let peers = vec![Endpoint::from_octets([10, 0, 0, 5], 51413), Endpoint::from_octets([10, 0, 0, 6], 80)];
    assert_eq!(
        encode_peers(&peers),
        vec![vec![10, 0, 0, 5, 0xc8, 0xd5], vec![10, 0, 0, 6, 0, 80]]
    );
}

#[test]
fn test_timestamps_are_ordered_by_seconds_then_nanoseconds() {
    let a = Timestamp::new(5, 999_999_999);
    let b = Timestamp::new(6, 0);
    let c = Timestamp::new(6, 1);
    assert!(a < b && b < c && a < c);
    assert!(a.earlier_than(&b) && !b.earlier_than(&a) && !b.earlier_than(&b));
    assert_eq!(c.elapsed_since(&a), 2);
    assert_eq!(a.elapsed_since(&c), -2);
    assert_eq!(Timestamp::new(-1, 0).elapsed_since(&Timestamp::new(0, 0)), -1_000_000_000);
}

#[test]
fn test_decode_nodes_reads_back_what_encode_nodes_wrote() {
    let now = Timestamp::new(7, 7);
    let a = Node::first_seen(Endpoint::from_octets([1, 2, 3, 4], 0x0102), HashId::new([0xaa; 20]), now);
    let b = Node::first_seen(Endpoint::from_octets([5, 6, 7, 8], 0xffff), HashId::new([0xbb; 20]), now);
    let nodes = vec![a, b, a];
    let later = Timestamp::new(9, 9);
    let read = decode_nodes(&encode_nodes(&nodes), later).unwrap();
    assert_eq!(read, nodes);
    assert!(read.iter().all(|node| node.last_seen == later && node.failed_queries == 0));
    assert_eq!(decode_nodes(&[], later).unwrap(), vec![]);
}

#[test]
fn test_decode_nodes_wants_whole_records() {
    let now = Timestamp::new(7, 7);
    assert!(decode_nodes(&[0; 25], now).is_none());
    assert!(decode_nodes(&[0; 27], now).is_none());
    assert!(decode_nodes(&[0; 1], now).is_none());
    assert_eq!(decode_nodes(&[0; 52], now).unwrap().len(), 2);
}

#[test]
fn test_endpoint_from_dotted_form() {
    let endpoint = Endpoint::new("127.0.0.1", 4444).unwrap();
    assert_eq!(endpoint, Endpoint::from_octets([127, 0, 0, 1], 4444));
    assert_eq!(endpoint.addr, [127, 0, 0, 1]);
    assert_eq!(endpoint.port, 4444);
    assert_eq!(Endpoint::new("0.0.0.0", 0).unwrap().addr, [0, 0, 0, 0]);
    assert_eq!(Endpoint::new("255.255.255.255", 65535).unwrap().addr, [255; 4]);
    assert_eq!(Endpoint::new("10.20.30.249", 1).unwrap().addr, [10, 20, 30, 249]);
}

#[test]
fn test_endpoint_rejects_what_is_no_dotted_form() {
    for text in [
        "",
        "1",
        "1.2.3",
        "1.2.3.",
        "1.2.3.4.",
        "1.2.3.4.5",
        ".1.2.3.4",
        "1..2.3",
        "256.0.0.1",
        "1.2.3.256",
        "1.2.3.999999999999999999999999",
        "01.2.3.4",
        "1.2.3.04",
        "1.2.3.00",
        "1.2.3.4 ",
        " 1.2.3.4",
        "1.2.3.-4",
        "1.2.3.+4",
        "a.b.c.d",
        "1,2,3,4",
        "127.0.0.1:4444",
        "::1",
        "1.2.3.\u{0664}",
    ] {
        assert!(Endpoint::new(text, 1).is_err(), "{}", text);
    }
}

#[test]
fn test_parse_address_reads_every_dotted_form() {
    let mut seed: u32 = 7;
    for _ in 0..500 {
        let mut octets = [0u8; 4];
        for octet in octets.iter_mut() {
            seed = seed.wrapping_mul(1664525).wrapping_add(1013904223);
            *octet = (seed >> 24) as u8;
        }
        let text = format!("{}.{}.{}.{}", octets[0], octets[1], octets[2], octets[3]);
        assert_eq!(parse_address(text.as_bytes()), Some(octets));
    }
}
