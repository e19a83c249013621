use dht_node::structs::bucket::Bucket;
use dht_node::structs::kbuckets::Kbuckets;
use dht_node::structs::node::{Endpoint, Node};
use dht_node::structs::time::Timestamp;
use dht_node::structs::util::HashId;

fn node_with(id: [u8; 20]) -> Node {
    Node::new(Endpoint::new("127.0.0.1", 4444).unwrap(), HashId::new(id))
}

fn node_seen_at(id: [u8; 20], secs: i64) -> Node {
    Node::first_seen(Endpoint::from_octets([127, 0, 0, 1], 4444), HashId::new(id), Timestamp::new(secs, 0))
}

fn id_with_last(last: u8) -> [u8; 20] {
    let mut id = [0u8; 20];
    id[19] = last;
    id
}

#[test]
fn test_can_insert_node() {
    let mut bucket = Bucket::new(HashId::new([255; 20]));
    let node = node_with([0; 20]);

    bucket.insert(node).unwrap();

    assert_eq!(bucket.nodes.len(), 1);
}

#[test]
#[should_panic(expected = "Bucket is already full")]
fn test_can_insert_correct_amount_of_nodes() {
    let mut bucket = Bucket::new(HashId::new([255; 20]));

    for n in 0..8 {
        let node = node_with([n; 20]);
        bucket.insert(node).unwrap();
    }

    assert_eq!(bucket.nodes.len(), 8);

    let node = node_with([10; 20]);
    bucket.insert(node).unwrap();
}

#[test]
#[should_panic(expected = "NodeID is not within the buckets boundary")]
fn test_bucket_boundaries_are_checked() {
    let mut bucket = Bucket::new(HashId::new([17; 20]));
    let node = node_with([18; 20]);

    bucket.insert(node).unwrap();
}

#[test]
fn test_last_changed_is_updated() {
    let mut bucket = Bucket::new(HashId::new([17; 20]));
    let node = node_with([1; 20]);

    let before = bucket.last_changed;
    bucket.insert(node).unwrap();

    assert!(before < bucket.last_changed);
}

#[test]
fn test_list_questionables() {
    let mut bucket = Bucket::new(HashId::new([255; 20]));
    let mut old_node = node_with([3; 20]);
    let mut older_node = node_with([2; 20]);
    let node = node_with([1; 20]);

    old_node.last_seen.secs -= 16 * 60;
    older_node.last_seen.secs -= 20 * 60;

    bucket.insert(node).unwrap();
    bucket.insert(old_node).unwrap();
    bucket.insert(older_node).unwrap();

    assert_eq!(bucket.questionables().len(), 2);

    assert_eq!(bucket.questionables()[0], older_node);
    assert_eq!(bucket.questionables()[1], old_node);
}

#[test]
fn test_split_buckets() {
    let mut buckets = Kbuckets::new();

    assert_eq!(buckets.buckets().len(), 1);
    assert_eq!(buckets.buckets()[0].upper_boundary, HashId::new([255; 20]));

    buckets.split(HashId::new([150; 20]));

    assert_eq!(buckets.buckets().len(), 2);
    assert_eq!(buckets.buckets()[0].upper_boundary, HashId::new([150; 20]));
    assert_eq!(buckets.buckets()[1].upper_boundary, HashId::new([255; 20]));
}

#[test]
fn test_find_bucket() {
    let mut buckets = Kbuckets::new();

    let split_boundary = HashId::new([150; 20]);

    buckets.split(split_boundary);

    assert_eq!(
        buckets.find_mut(HashId::new([10; 20])).unwrap().upper_boundary,
        split_boundary
    );
    assert_eq!(
        buckets.find_mut(HashId::new([200; 20])).unwrap().upper_boundary,
        HashId::new([0xFF; 20])
    );
}

#[test]
fn test_find_closest_nodes() {
    let mut buckets = Kbuckets::new();

    buckets.split(HashId::new([6; 20]));
    buckets.split(HashId::new([4; 20]));

    for i in 0..13 {
        if i == 5 || i == 4 {
            continue;
        }

        let node = node_with([i; 20]);
        buckets.find_mut(node.node_id).unwrap().insert(node).unwrap();
    }

    let closest = buckets.find_closest_nodes(&HashId::new([5; 20])).unwrap();

    assert_eq!(closest.len(), 8);
    assert_eq!(closest[0].node_id, HashId::new([7; 20]));
    assert_eq!(closest[1].node_id, HashId::new([6; 20]));
    assert_eq!(closest[2].node_id, HashId::new([1; 20]));
    assert_eq!(closest[3].node_id, HashId::new([0; 20]));
    assert_eq!(closest[4].node_id, HashId::new([3; 20]));
    assert_eq!(closest[5].node_id, HashId::new([2; 20]));
    assert_eq!(closest[6].node_id, HashId::new([12; 20]));
    assert_eq!(closest[7].node_id, HashId::new([9; 20]));

    println!("{:?}", closest);
}

#[test]
fn test_insert_reports_full_before_out_of_range() {
    let mut bucket = Bucket::new(HashId::new([17; 20]));
    for n in 0..8 {
        bucket.insert(node_with([n; 20])).unwrap();
    }
    let error = bucket.insert(node_with([18; 20])).unwrap_err();
    assert_eq!(error.message(), "Bucket is already full");
    assert_eq!(bucket.nodes.len(), 8);
}

#[test]
fn test_insert_out_of_range_leaves_the_bucket() {
    let mut bucket = Bucket::created_at(HashId::new([17; 20]), Timestamp::new(1, 0));
    let error = bucket.insert_at(node_with([18; 20]), Timestamp::new(2, 0)).unwrap_err();
    assert_eq!(error.message(), "NodeID is not within the buckets boundary");
    assert_eq!(bucket.nodes.len(), 0);
    assert_eq!(bucket.last_changed, Timestamp::new(1, 0));
    bucket.insert_at(node_with([17; 20]), Timestamp::new(3, 0)).unwrap();
    assert_eq!(bucket.nodes.len(), 1);
    assert_eq!(bucket.last_changed, Timestamp::new(3, 0));
}

#[test]
fn test_touch_updates_the_first_node_with_the_identifier() {
    let mut bucket = Bucket::created_at(HashId::new([255; 20]), Timestamp::new(1, 0));
    bucket.insert_at(node_seen_at([1; 20], 10), Timestamp::new(2, 0)).unwrap();
    bucket.insert_at(node_seen_at([2; 20], 20), Timestamp::new(3, 0)).unwrap();
    bucket.insert_at(node_seen_at([2; 20], 30), Timestamp::new(4, 0)).unwrap();

    bucket.update_timestamps_at(&HashId::new([2; 20]), Timestamp::new(100, 0));

    assert_eq!(bucket.nodes[0].last_seen, Timestamp::new(10, 0));
    assert_eq!(bucket.nodes[1].last_seen, Timestamp::new(100, 0));
    assert_eq!(bucket.nodes[2].last_seen, Timestamp::new(30, 0));
    assert_eq!(bucket.last_changed, Timestamp::new(100, 0));
}

#[test]
fn test_touch_of_an_unknown_node_changes_nothing() {
    let mut bucket = Bucket::created_at(HashId::new([255; 20]), Timestamp::new(1, 0));
    bucket.insert_at(node_seen_at([1; 20], 10), Timestamp::new(2, 0)).unwrap();

    bucket.update_timestamps_at(&HashId::new([9; 20]), Timestamp::new(100, 0));

    assert_eq!(bucket.nodes[0].last_seen, Timestamp::new(10, 0));
    assert_eq!(bucket.last_changed, Timestamp::new(2, 0));
}

#[test]
fn test_touch_twice_is_touch_once_at_the_later_time() {
    let mut once = Bucket::created_at(HashId::new([255; 20]), Timestamp::new(1, 0));
    let mut twice = Bucket::created_at(HashId::new([255; 20]), Timestamp::new(1, 0));
    for bucket in [&mut once, &mut twice] {
        bucket.insert_at(node_seen_at([1; 20], 10), Timestamp::new(2, 0)).unwrap();
        bucket.insert_at(node_seen_at([2; 20], 20), Timestamp::new(3, 0)).unwrap();
    }
    let id = HashId::new([2; 20]);
    twice.update_timestamps_at(&id, Timestamp::new(50, 0));
    twice.update_timestamps_at(&id, Timestamp::new(60, 0));
    once.update_timestamps_at(&id, Timestamp::new(60, 0));

    assert_eq!(once.nodes.len(), twice.nodes.len());
    for i in 0..once.nodes.len() {
        assert_eq!(once.nodes[i], twice.nodes[i]);
        assert_eq!(once.nodes[i].last_seen, twice.nodes[i].last_seen);
    }
    assert_eq!(once.last_changed, twice.last_changed);
}

#[test]
fn test_find_mut_hands_out_the_first_match() {
    let mut bucket = Bucket::created_at(HashId::new([255; 20]), Timestamp::new(1, 0));
    bucket.insert_at(node_seen_at([1; 20], 10), Timestamp::new(2, 0)).unwrap();
    bucket.insert_at(node_seen_at([2; 20], 20), Timestamp::new(3, 0)).unwrap();

    bucket.find_mut(&HashId::new([2; 20])).unwrap().failed_queries = 3;
    assert_eq!(bucket.nodes[1].failed_queries, 3);
    assert_eq!(bucket.nodes[0].failed_queries, 0);
    assert!(bucket.find_mut(&HashId::new([7; 20])).is_none());
    assert_eq!(bucket.position(&HashId::new([1; 20])), Some(0));
    assert_eq!(bucket.position(&HashId::new([7; 20])), None);
}

#[test]
fn test_questionables_at_sorts_oldest_first() {
    let mut bucket = Bucket::created_at(HashId::new([255; 20]), Timestamp::new(0, 0));
    let now = Timestamp::new(10_000, 0);
    bucket.insert_at(node_seen_at([1; 20], 10_000 - 901), now).unwrap();
    bucket.insert_at(node_seen_at([2; 20], 10_000 - 900), now).unwrap();
    bucket.insert_at(node_seen_at([3; 20], 10_000 - 5_000), now).unwrap();
    bucket.insert_at(node_seen_at([4; 20], 10_000), now).unwrap();
    bucket.insert_at(node_seen_at([5; 20], 10_000 - 2_000), now).unwrap();

    let found = bucket.questionables_at(&now);
    let ids: Vec<HashId> = found.iter().map(|n| n.node_id).collect();
    assert_eq!(ids, vec![HashId::new([3; 20]), HashId::new([5; 20]), HashId::new([1; 20])]);
}

#[test]
fn test_new_table_is_one_bucket_for_the_whole_space() {
    let table = Kbuckets::new();
    assert_eq!(table.buckets().len(), 1);
    assert_eq!(table.buckets()[0].upper_boundary, HashId::new([255; 20]));
    assert_eq!(table.buckets()[0].nodes.len(), 0);
    let (index, bucket) = table.find_index(&HashId::new([0; 20])).unwrap();
    assert_eq!(index, 0);
    assert_eq!(bucket.upper_boundary, HashId::new([255; 20]));
    assert_eq!(table.find(&HashId::new([255; 20])).unwrap().upper_boundary, HashId::new([255; 20]));
}

#[test]
fn test_split_moves_the_nodes_at_most_the_pivot() {
    let mut table = Kbuckets::created_at(Timestamp::new(1, 0));
    let our_id = HashId::new([255; 20]);
    for last in [1u8, 9, 3, 7, 5] {
        table.try_insert_at(&our_id, node_seen_at(id_with_last(last), 10), Timestamp::new(2, 0));
    }
    table.split_at(HashId::new(id_with_last(5)), Timestamp::new(3, 0));

    let buckets = table.buckets();
    assert_eq!(buckets.len(), 2);
    assert_eq!(buckets[0].upper_boundary, HashId::new(id_with_last(5)));
    assert_eq!(buckets[0].last_changed, Timestamp::new(3, 0));
    assert_eq!(buckets[1].upper_boundary, HashId::new([255; 20]));
    assert_eq!(buckets[1].last_changed, Timestamp::new(2, 0));
    let low: Vec<u8> = buckets[0].nodes.iter().map(|n| n.node_id.hash[19]).collect();
    let high: Vec<u8> = buckets[1].nodes.iter().map(|n| n.node_id.hash[19]).collect();
    assert_eq!(low, vec![1, 3, 5]);
    assert_eq!(high, vec![9, 7]);
}

#[test]
fn test_split_at_a_boundary_changes_nothing() {
    let mut table = Kbuckets::new();
    table.split(HashId::new([255; 20]));
    assert_eq!(table.buckets().len(), 1);
    table.split(HashId::new([150; 20]));
    table.split(HashId::new([150; 20]));
    assert_eq!(table.buckets().len(), 2);
}

fn check_table(table: &Kbuckets) {
    assert!(table.is_wf());
    let buckets = table.buckets();
    assert!(buckets.len() >= 1);
    assert_eq!(buckets[buckets.len() - 1].upper_boundary, HashId::new([255; 20]));
    for i in 0..buckets.len() {
        assert!(buckets[i].nodes.len() <= 8);
        if i > 0 {
            assert!(buckets[i - 1].upper_boundary < buckets[i].upper_boundary);
        }
        for node in buckets[i].nodes.iter() {
            assert!(node.node_id <= buckets[i].upper_boundary);
            if i > 0 {
                assert!(node.node_id > buckets[i - 1].upper_boundary);
            }
        }
    }
}

#[test]
fn test_try_insert_keeps_the_table_a_division_of_the_space() {
    let mut table = Kbuckets::new();
    let our_id = HashId::new([0x80; 20]);
    let mut seed: u32 = 12345;
    for _ in 0..200 {
        let mut id = [0u8; 20];
        for byte in id.iter_mut() {
            seed = seed.wrapping_mul(1664525).wrapping_add(1013904223);
            *byte = (seed >> 24) as u8;
        }
        table.try_insert(&our_id, node_with(id));
        check_table(&table);
    }
    table.split(HashId::new([0x10; 20]));
    check_table(&table);
    table.split(HashId::new([0xf0; 20]));
    check_table(&table);
    assert!(table.buckets().len() >= 3);
}

#[test]
fn test_try_insert_splits_the_full_bucket_that_covers_our_id() {
    let mut table = Kbuckets::created_at(Timestamp::new(1, 0));
    let our_id = HashId::new(id_with_last(100));
    for last in 1..=8u8 {
        table.try_insert_at(&our_id, node_seen_at(id_with_last(last * 20), 10), Timestamp::new(2, 0));
    }
    assert_eq!(table.buckets().len(), 1);
    assert_eq!(table.buckets()[0].nodes.len(), 8);

    table.try_insert_at(&our_id, node_seen_at(id_with_last(50), 10), Timestamp::new(3, 0));

    let buckets = table.buckets();
    assert_eq!(buckets.len(), 2);
    assert_eq!(buckets[0].upper_boundary, our_id);
    let low: Vec<u8> = buckets[0].nodes.iter().map(|n| n.node_id.hash[19]).collect();
    let high: Vec<u8> = buckets[1].nodes.iter().map(|n| n.node_id.hash[19]).collect();
    assert_eq!(low, vec![20, 40, 60, 80, 100, 50]);
    assert_eq!(high, vec![120, 140, 160]);
}

#[test]
fn test_try_insert_drops_the_node_where_the_full_bucket_is_not_ours() {
    let mut table = Kbuckets::created_at(Timestamp::new(1, 0));
    table.split_at(HashId::new(id_with_last(100)), Timestamp::new(1, 0));
    let our_id = HashId::new(id_with_last(200));
    for last in 1..=8u8 {
        table.try_insert_at(&our_id, node_seen_at(id_with_last(last), 10), Timestamp::new(2, 0));
    }
    table.try_insert_at(&our_id, node_seen_at(id_with_last(50), 10), Timestamp::new(3, 0));

    let buckets = table.buckets();
    assert_eq!(buckets.len(), 2);
    assert_eq!(buckets[0].nodes.len(), 8);
    assert!(buckets[0].nodes.iter().all(|n| n.node_id.hash[19] != 50));
    assert_eq!(buckets[1].nodes.len(), 0);
}

#[test]
fn test_try_insert_drops_the_node_where_the_split_leaves_no_room() {
    let mut table = Kbuckets::created_at(Timestamp::new(1, 0));
    let our_id = HashId::new(id_with_last(100));
    for last in 1..=8u8 {
        table.try_insert_at(&our_id, node_seen_at(id_with_last(last), 10), Timestamp::new(2, 0));
    }
    table.try_insert_at(&our_id, node_seen_at(id_with_last(50), 10), Timestamp::new(3, 0));

    let buckets = table.buckets();
    assert_eq!(buckets.len(), 2);
    assert_eq!(buckets[0].upper_boundary, our_id);
    assert_eq!(buckets[0].nodes.len(), 8);
    assert!(buckets[0].nodes.iter().all(|n| n.node_id.hash[19] != 50));
    assert_eq!(buckets[1].nodes.len(), 0);
}

#[test]
fn test_table_touch_reaches_the_node_in_its_bucket() {
    let mut table = Kbuckets::created_at(Timestamp::new(1, 0));
    table.split_at(HashId::new(id_with_last(100)), Timestamp::new(1, 0));
    let our_id = HashId::new([255; 20]);
    table.try_insert_at(&our_id, node_seen_at(id_with_last(7), 10), Timestamp::new(2, 0));
    table.try_insert_at(&our_id, node_seen_at(id_with_last(200), 10), Timestamp::new(2, 0));

    table.update_timestamps_at(&HashId::new(id_with_last(200)), Timestamp::new(77, 0));

    let buckets = table.buckets();
    assert_eq!(buckets[0].nodes[0].last_seen, Timestamp::new(10, 0));
    assert_eq!(buckets[0].last_changed, Timestamp::new(2, 0));
    assert_eq!(buckets[1].nodes[0].last_seen, Timestamp::new(77, 0));
    assert_eq!(buckets[1].last_changed, Timestamp::new(77, 0));
}

#[test]
fn test_find_closest_nodes_sorts_by_distance_and_keeps_eight() {
    let mut table = Kbuckets::new();
    let our_id = HashId::new([0x80; 20]);
    table.split(HashId::new([0x40; 20]));
    table.split(HashId::new([0xc0; 20]));
    let mut seed: u32 = 99;
    for _ in 0..40 {
        let mut id = [0u8; 20];
        for byte in id.iter_mut() {
            seed = seed.wrapping_mul(1664525).wrapping_add(1013904223);
            *byte = (seed >> 24) as u8;
        }
        table.try_insert(&our_id, node_with(id));
    }
    let mut all: Vec<HashId> = Vec::new();
    for bucket in table.buckets().iter() {
        for node in bucket.nodes.iter() {
            all.push(node.node_id);
        }
    }
    for target in [HashId::new([0; 20]), HashId::new([0x55; 20]), HashId::new([0xff; 20])] {
        let closest = table.find_closest_nodes(&target).unwrap();
        assert_eq!(closest.len(), all.len().min(8));
        for pair in closest.windows(2) {
            assert!((pair[0].node_id ^ target) <= (pair[1].node_id ^ target));
        }
        let mut expected = all.clone();
        expected.sort_by(|a, b| (*a ^ target).cmp(&(*b ^ target)));
        expected.truncate(8);
        let found: Vec<HashId> = closest.iter().map(|n| n.node_id).collect();
        assert_eq!(found, expected);
    }
}

#[test]
fn test_find_closest_nodes_in_an_empty_table() {
    let table = Kbuckets::new();
    assert_eq!(table.find_closest_nodes(&HashId::new([5; 20])).unwrap().len(), 0);
}

#[test]
fn test_is_wf_finds_what_breaks_a_table() {
    let mut table = Kbuckets::new();
    assert!(table.is_wf());
    table.split(HashId::new([100; 20]));
    table.find_mut(HashId::new([50; 20])).unwrap().insert(node_with([50; 20])).unwrap();
    table.find_mut(HashId::new([200; 20])).unwrap().insert(node_with([200; 20])).unwrap();
    assert!(table.is_wf());

    let mut below_its_range = Kbuckets::new();
    below_its_range.split(HashId::new([100; 20]));
    below_its_range.find_mut(HashId::new([200; 20])).unwrap().nodes.push(node_with([100; 20]));
    assert!(!below_its_range.is_wf());

    let mut above_its_range = Kbuckets::new();
    above_its_range.split(HashId::new([100; 20]));
    above_its_range.find_mut(HashId::new([50; 20])).unwrap().nodes.push(node_with([101; 20]));
    assert!(!above_its_range.is_wf());

    let mut too_many = Kbuckets::new();
    for n in 0..9 {
        too_many.find_mut(HashId::new([n; 20])).unwrap().nodes.push(node_with([n; 20]));
    }
    assert!(!too_many.is_wf());

    let mut no_last = Kbuckets::new();
    no_last.find_mut(HashId::new([0; 20])).unwrap().upper_boundary = HashId::new([254; 20]);
    assert!(!no_last.is_wf());

    let mut not_rising = Kbuckets::new();
    not_rising.split(HashId::new([100; 20]));
    not_rising.find_mut(HashId::new([0; 20])).unwrap().upper_boundary = HashId::new([255; 20]);
    assert!(!not_rising.is_wf());
}

#[test]
fn test_bucket_is_wf() {
    let mut bucket = Bucket::new(HashId::new([17; 20]));
    assert!(bucket.is_wf());
    bucket.insert(node_with([17; 20])).unwrap();
    assert!(bucket.is_wf());
    bucket.nodes.push(node_with([18; 20]));
    assert!(!bucket.is_wf());
}

#[test]
fn test_insert_all_inserts_one_after_the_other() {
    let mut all = Kbuckets::created_at(Timestamp::new(1, 0));
    let mut each = Kbuckets::created_at(Timestamp::new(1, 0));
    let our_id = HashId::new(id_with_last(100));
    let nodes: Vec<Node> =
        (1..=12u8).map(|last| node_seen_at(id_with_last(last * 20), 10)).collect();
    all.insert_all_at(&our_id, &nodes, Timestamp::new(2, 0));
    for node in nodes.iter() {
        each.try_insert_at(&our_id, *node, Timestamp::new(2, 0));
    }
    assert_eq!(format!("{:?}", all), format!("{:?}", each));
    assert_eq!(all.buckets().len(), 2);
    assert!(all.is_wf());
}
