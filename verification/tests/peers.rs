use dht_node::structs::node::Endpoint;
use dht_node::structs::peers::PeerIndex;
use dht_node::structs::util::HashId;

#[test]
fn test_new_index_knows_no_peers() {
    let index = PeerIndex::new();
    assert_eq!(index.get(&HashId::new([1; 20])), vec![]);
}

#[test]
fn test_announcements_are_kept_in_order_and_twice() {
    let mut index = PeerIndex::new();
    let a = HashId::new([1; 20]);
    let b = HashId::new([2; 20]);
    let first = Endpoint::from_octets([10, 0, 0, 1], 1);
    let second = Endpoint::from_octets([10, 0, 0, 2], 2);
    index.announce(a, second);
    index.announce(b, first);
    index.announce(a, first);
    index.announce(a, second);

    assert_eq!(index.get(&a), vec![second, first, second]);
    assert_eq!(index.get(&b), vec![first]);
    assert_eq!(index.get(&HashId::new([3; 20])), vec![]);
}
