use dht_node::handler::{Awaited, DhtHandler, OutstandingQuery};
use dht_node::structs::kbuckets::Kbuckets;
use dht_node::structs::message::{ErrorResponse, Message, Query, Response};
use dht_node::structs::node::{encode_nodes, Endpoint, Node};
use dht_node::structs::peers::PeerIndex;
use dht_node::structs::time::Timestamp;
use dht_node::structs::token::TokenAuthority;
use dht_node::structs::util::HashId;

fn setup() -> DhtHandler {
    DhtHandler::new(Node::new(Endpoint::new("127.0.0.1", 4444).unwrap(), HashId::new([17; 20])))
}

fn fixed() -> DhtHandler {
    let now = Timestamp::new(1_000, 0);
    DhtHandler::from_parts(
        Node::first_seen(Endpoint::from_octets([127, 0, 0, 1], 4444), HashId::new([17; 20]), now),
        Kbuckets::created_at(now),
        PeerIndex::new(),
        TokenAuthority::from_secrets([7; 32], [8; 32]),
    )
    .unwrap()
}

fn ending_in(last: u8) -> [u8; 20] {
    let mut id = [0u8; 20];
    id[19] = last;
    id
}

fn contact(id: [u8; 20], last_octet: u8, secs: i64) -> Node {
    Node::first_seen(
        Endpoint::from_octets([10, 1, 1, last_octet], 6881),
        HashId::new(id),
        Timestamp::new(secs, 0),
    )
}

fn hex(id: [u8; 20]) -> String {
    HashId::new(id).to_str()
}

fn query(args: Query) -> Message {
    Message::Query { id: "aa".to_string(), client: Some("aa00".to_string()), args }
}

fn table_times(handler: &DhtHandler) -> Vec<(u8, i64)> {
    let mut times = Vec::new();
    for bucket in handler.buckets().buckets().iter() {
        for node in bucket.nodes.iter() {
            times.push((node.node_id.hash[19], node.last_seen.secs));
        }
    }
    times
}

#[test]
fn test_responde_to_ping() {
    let mut dht = setup();

    let response = dht.handle_str(
        "d1:ad2:id40:ffffffffffffffffffffffffffffffffffffffffe1:t2:aa1:v4:aa001:y1:qe".to_string(),
    );

    assert_eq!(
        response.unwrap(),
        "d1:rd2:id40:1111111111111111111111111111111111111111e1:t2:aa1:v4:MW011:y1:re"
    );
}

#[test]
fn test_ping_touches_the_sender() {
    let mut dht = fixed();
    dht.add_node(contact(ending_in(1), 1, 10), Timestamp::new(1_000, 0));
    dht.add_node(contact(ending_in(2), 2, 20), Timestamp::new(1_000, 0));

    let reply = dht.handle_message_at(
        query(Query::Ping { id: hex(ending_in(2)) }),
        Endpoint::from_octets([10, 1, 1, 2], 6881),
        Timestamp::new(2_000, 0),
    );

    match reply.unwrap() {
        Message::Response { id, client, response: Response::Empty { id: ours } } => {
            assert_eq!(id, "aa");
            assert_eq!(client.unwrap(), "MW01");
            assert_eq!(ours, "11".repeat(20));
        }
        other => panic!("{:?}", other),
    }
    assert_eq!(table_times(&dht), vec![(1, 10), (2, 2_000)]);
}

#[test]
fn test_ping_with_a_bad_identifier_is_a_protocol_error() {
    let mut dht = fixed();
    dht.add_node(contact(ending_in(1), 1, 10), Timestamp::new(1_000, 0));
    let reply = dht.handle_message_at(
        query(Query::Ping { id: "fff".to_string() }),
        Endpoint::from_octets([10, 1, 1, 2], 6881),
        Timestamp::new(2_000, 0),
    );
    match reply.unwrap() {
        Message::Error { id, client, error: ErrorResponse(code, message) } => {
            assert_eq!(id, "aa");
            assert_eq!(client.unwrap(), "MW01");
            assert_eq!(code, 203);
            assert_eq!(message, "Protocol Error");
        }
        other => panic!("{:?}", other),
    }
    assert_eq!(table_times(&dht), vec![(1, 10)]);
}

#[test]
fn test_find_node_with_the_target_present() {
    let mut dht = fixed();
    let target = contact(ending_in(1), 1, 10);
    dht.add_node(contact(ending_in(9), 9, 10), Timestamp::new(1_000, 0));
    dht.add_node(target, Timestamp::new(1_000, 0));
    dht.add_node(contact(ending_in(3), 3, 10), Timestamp::new(1_000, 0));

    let reply = dht.handle_message_at(
        query(Query::FindNode { id: "ff".repeat(20), target: hex(ending_in(1)) }),
        Endpoint::from_octets([10, 9, 9, 9], 1),
        Timestamp::new(2_000, 0),
    );

    match reply.unwrap() {
        Message::Response { id, response: Response::FoundNodes { id: ours, nodes }, .. } => {
            assert_eq!(id, "aa");
            assert_eq!(ours, "11".repeat(20));
            assert_eq!(nodes.len(), 26);
            assert_eq!(nodes, target.to_compact().to_vec());
        }
        other => panic!("{:?}", other),
    }
}

#[test]
fn test_find_node_over_the_wire() {
    let mut dht = fixed();
    let target = contact(ending_in(1), 1, 10);
    dht.add_node(target, Timestamp::new(1_000, 0));
    dht.add_node(contact(ending_in(3), 3, 10), Timestamp::new(1_000, 0));

    let input = format!(
        "d1:ad2:id40:{}6:target40:{}e1:q9:find_node1:t2:aa1:y1:qe",
        "ff".repeat(20),
        hex(ending_in(1))
    );
    let reply = dht
        .handle_bytes_at(input.as_bytes(), Endpoint::from_octets([10, 9, 9, 9], 1), Timestamp::new(2_000, 0))
        .unwrap();

    let mut expected = format!("d1:rd2:id40:{}5:nodes26:", "11".repeat(20)).into_bytes();
    expected.extend_from_slice(&target.to_compact());
    expected.extend_from_slice(b"e1:t2:aa1:v4:MW011:y1:re");
    assert_eq!(reply, expected);
    assert!(dht.handle_str(input).is_none());
}

#[test]
fn test_find_node_without_the_target_returns_the_closest() {
    let mut dht = fixed();
    for last in [9u8, 2, 3] {
        dht.add_node(contact(ending_in(last), last, 10), Timestamp::new(1_000, 0));
    }
    let reply = dht.handle_message_at(
        query(Query::FindNode { id: "ff".repeat(20), target: hex(ending_in(1)) }),
        Endpoint::from_octets([10, 9, 9, 9], 1),
        Timestamp::new(2_000, 0),
    );
    match reply.unwrap() {
        Message::Response { response: Response::FoundNodes { nodes, .. }, .. } => {
            let expected = encode_nodes(&vec![
                contact(ending_in(3), 3, 10),
                contact(ending_in(2), 2, 10),
                contact(ending_in(9), 9, 10),
            ]);
            assert_eq!(nodes, expected);
        }
        other => panic!("{:?}", other),
    }
}

#[test]
fn test_get_peers_with_no_peers_known() {
    let mut dht = fixed();
    for last in 1..=12u8 {
        dht.add_node(contact(ending_in(last), last, 10), Timestamp::new(1_000, 0));
    }
    let source = Endpoint::from_octets([10, 0, 0, 5], 51413);

    let reply = dht.handle_message_at(
        query(Query::GetPeers { id: "ff".repeat(20), info_hash: "22".repeat(20) }),
        source,
        Timestamp::new(2_000, 0),
    );

    let closest = dht.buckets().find_closest_nodes(&HashId::new([0x22; 20])).unwrap();
    assert_eq!(closest.len(), 8);
    match reply.unwrap() {
        Message::Response {
            id,
            response: Response::FoundPeerNodes { id: ours, token, nodes },
            ..
        } => {
            assert_eq!(id, "aa");
            assert_eq!(ours, "11".repeat(20));
            assert_eq!(token, "be422915e4fabacef99b126243627d5903bab050");
            assert_eq!(token, TokenAuthority::sign_with(&source, &dht.signer().current_secret()));
            assert_eq!(nodes.len(), 8 * 26);
            assert_eq!(nodes, encode_nodes(&closest));
        }
        other => panic!("{:?}", other),
    }
}

#[test]
fn test_get_peers_with_peers_known() {
    let mut dht = fixed();
    let source = Endpoint::from_octets([10, 0, 0, 5], 51413);
    let token = dht.signer().sign(&source);
    for port in [1000u16, 2000] {
        let announce = query(Query::AnnouncePeer {
            id: "ff".repeat(20),
            implied_port: None,
            port,
            token: token.clone(),
            info_hash: "22".repeat(20),
        });
        dht.handle_message_at(announce, source, Timestamp::new(2_000, 0)).unwrap();
    }

    let reply = dht.handle_message_at(
        query(Query::GetPeers { id: "ff".repeat(20), info_hash: "22".repeat(20) }),
        Endpoint::from_octets([10, 0, 0, 9], 9),
        Timestamp::new(2_000, 0),
    );

    match reply.unwrap() {
        Message::Response { response: Response::FoundPeers { token, values, .. }, .. } => {
            assert_eq!(token, dht.signer().sign(&Endpoint::from_octets([10, 0, 0, 9], 1)));
            assert_eq!(
                values,
                vec![vec![10, 0, 0, 5, 0x03, 0xe8], vec![10, 0, 0, 5, 0x07, 0xd0]]
            );
        }
        other => panic!("{:?}", other),
    }
}

#[test]
fn test_announce_with_implied_port() {
    let mut dht = fixed();
    let source = Endpoint::from_octets([10, 0, 0, 5], 51413);
    let info_hash = HashId::new([0x22; 20]);
    let token = dht.signer().sign(&source);
    assert_eq!(token, "be422915e4fabacef99b126243627d5903bab050");

    let reply = dht.handle_message_at(
        query(Query::AnnouncePeer {
            id: "ff".repeat(20),
            implied_port: Some(true),
            port: 0,
            token,
            info_hash: info_hash.to_str(),
        }),
        source,
        Timestamp::new(2_000, 0),
    );

    match reply.unwrap() {
        Message::Response { id, response: Response::Empty { id: ours }, .. } => {
            assert_eq!(id, "aa");
            assert_eq!(ours, "11".repeat(20));
        }
        other => panic!("{:?}", other),
    }
    assert_eq!(dht.peers().get(&info_hash), vec![Endpoint::from_octets([10, 0, 0, 5], 51413)]);
    assert_eq!(dht.peers().get(&HashId::new([0x23; 20])), vec![]);
}

#[test]
fn test_announce_over_the_wire_with_implied_port() {
    let mut dht = fixed();
    let source = Endpoint::from_octets([10, 0, 0, 5], 51413);
    let input = format!(
        "d1:ad2:id40:{}12:implied_porti1e9:info_hash40:{}4:porti0e5:token40:{}e1:q13:announce_peer1:t2:aa1:y1:qe",
        "ff".repeat(20),
        "22".repeat(20),
        "be422915e4fabacef99b126243627d5903bab050"
    );
    let reply = dht.handle_bytes_at(input.as_bytes(), source, Timestamp::new(2_000, 0)).unwrap();
    assert_eq!(
        String::from_utf8(reply).unwrap(),
        format!("d1:rd2:id40:{}e1:t2:aa1:v4:MW011:y1:re", "11".repeat(20))
    );
    assert_eq!(
        dht.peers().get(&HashId::new([0x22; 20])),
        vec![Endpoint::from_octets([10, 0, 0, 5], 51413)]
    );
}

#[test]
fn test_announce_with_the_port_it_carries() {
    let mut dht = fixed();
    let source = Endpoint::from_octets([10, 0, 0, 5], 51413);
    let info_hash = HashId::new([0x22; 20]);
    for (implied_port, port) in [(None, 6881u16), (Some(false), 6882)] {
        let token = dht.signer().sign(&source);
        let reply = dht.handle_message_at(
            query(Query::AnnouncePeer {
                id: "ff".repeat(20),
                implied_port,
                port,
                token,
                info_hash: info_hash.to_str(),
            }),
            source,
            Timestamp::new(2_000, 0),
        );
        assert!(matches!(reply, Some(Message::Response { response: Response::Empty { .. }, .. })));
    }
    assert_eq!(
        dht.peers().get(&info_hash),
        vec![Endpoint::from_octets([10, 0, 0, 5], 6881), Endpoint::from_octets([10, 0, 0, 5], 6882)]
    );
}

#[test]
fn test_announce_with_bad_token() {
    let mut dht = fixed();
    dht.add_node(contact([0xff; 20], 1, 10), Timestamp::new(1_000, 0));
    let source = Endpoint::from_octets([10, 0, 0, 5], 51413);
    let info_hash = HashId::new([0x22; 20]);

    let reply = dht.handle_message_at(
        query(Query::AnnouncePeer {
            id: "ff".repeat(20),
            implied_port: Some(true),
            port: 0,
            token: "deadbeef".to_string(),
            info_hash: info_hash.to_str(),
        }),
        source,
        Timestamp::new(2_000, 0),
    );

    match reply.unwrap() {
        Message::Error { id, error: ErrorResponse(code, _), .. } => {
            assert_eq!(id, "aa");
            assert_eq!(code, 203);
        }
        other => panic!("{:?}", other),
    }
    assert_eq!(dht.peers().get(&info_hash), vec![]);
    assert_eq!(table_times(&dht), vec![(0xff, 2_000)]);
}

#[test]
fn test_announce_with_a_token_for_another_address() {
    let mut dht = fixed();
    let token = dht.signer().sign(&Endpoint::from_octets([10, 0, 0, 6], 51413));
    let reply = dht.handle_message_at(
        query(Query::AnnouncePeer {
            id: "ff".repeat(20),
            implied_port: Some(true),
            port: 0,
            token,
            info_hash: "22".repeat(20),
        }),
        Endpoint::from_octets([10, 0, 0, 5], 51413),
        Timestamp::new(2_000, 0),
    );
    assert!(matches!(reply, Some(Message::Error { error: ErrorResponse(203, _), .. })));
}

#[test]
fn test_announce_of_port_zero_is_a_protocol_error() {
    let mut dht = fixed();
    let source = Endpoint::from_octets([10, 0, 0, 5], 51413);
    for implied_port in [None, Some(false)] {
        let token = dht.signer().sign(&source);
        let reply = dht.handle_message_at(
            query(Query::AnnouncePeer {
                id: "ff".repeat(20),
                implied_port,
                port: 0,
                token,
                info_hash: "22".repeat(20),
            }),
            source,
            Timestamp::new(2_000, 0),
        );
        assert!(matches!(reply, Some(Message::Error { error: ErrorResponse(203, _), .. })));
    }
    assert_eq!(dht.peers().get(&HashId::new([0x22; 20])), vec![]);
}

#[test]
fn test_a_token_stays_good_across_one_rotation() {
    let mut dht = fixed();
    let source = Endpoint::from_octets([10, 0, 0, 5], 51413);
    let token = dht.signer().sign(&source);
    let announce = |token: &String| {
        query(Query::AnnouncePeer {
            id: "ff".repeat(20),
            implied_port: Some(true),
            port: 0,
            token: token.clone(),
            info_hash: "22".repeat(20),
        })
    };
    dht.rotate_secret();
    let reply = dht.handle_message_at(announce(&token), source, Timestamp::new(2_000, 0));
    assert!(matches!(reply, Some(Message::Response { .. })));
    dht.rotate_secret();
    let reply = dht.handle_message_at(announce(&token), source, Timestamp::new(2_000, 0));
    assert!(matches!(reply, Some(Message::Error { error: ErrorResponse(203, _), .. })));
}

#[test]
fn test_unknown_method() {
    let mut dht = fixed();
    dht.add_node(contact([0xff; 20], 1, 10), Timestamp::new(1_000, 0));
    let input = format!("d1:ad2:id40:{}e1:q11:reboot_node1:t2:aa1:y1:qe", "ff".repeat(20));

    let reply = dht
        .handle_bytes_at(input.as_bytes(), Endpoint::from_octets([10, 0, 0, 5], 1), Timestamp::new(2_000, 0))
        .unwrap();

    assert_eq!(
        String::from_utf8(reply.clone()).unwrap(),
        "d1:eli204e14:Method Unknowne1:t2:aa1:v4:MW011:y1:ee"
    );
    match Message::from_bytes(&reply).unwrap() {
        Message::Error { id, error: ErrorResponse(code, message), .. } => {
            assert_eq!(id, "aa");
            assert_eq!(code, 204);
            assert_eq!(message, "Method Unknown");
        }
        other => panic!("{:?}", other),
    }
    assert_eq!(table_times(&dht), vec![(0xff, 10)]);
    assert_eq!(dht.peers().get(&HashId::new([0xff; 20])), vec![]);
}

#[test]
fn test_bytes_that_are_no_message_are_not_answered() {
    let mut dht = fixed();
    for input in ["", "garbage", "d1:t2:aa1:y1:qe", "i1e", "d1:t2:aae"] {
        let reply = dht.handle_bytes_at(
            input.as_bytes(),
            Endpoint::from_octets([10, 0, 0, 5], 1),
            Timestamp::new(2_000, 0),
        );
        assert!(reply.is_none(), "{}", input);
        assert!(dht.handle_str(input.to_string()).is_none());
    }
}

#[test]
fn test_responses_touch_the_sender_and_are_not_answered() {
    let sender = hex(ending_in(2));
    let responses = vec![
        Response::Empty { id: sender.clone() },
        Response::FoundNodes { id: sender.clone(), nodes: contact(ending_in(5), 5, 1).to_compact().to_vec() },
        Response::FoundPeerNodes { id: sender.clone(), token: "t".to_string(), nodes: vec![] },
        Response::FoundPeers { id: sender.clone(), token: "t".to_string(), values: vec![] },
    ];
    for (i, response) in responses.into_iter().enumerate() {
        let mut dht = fixed();
        dht.add_node(contact(ending_in(1), 1, 10), Timestamp::new(1_000, 0));
        dht.add_node(contact(ending_in(2), 2, 20), Timestamp::new(1_000, 0));
        let now = 2_000 + i as i64;
        let reply = dht.handle_message_at(
            Message::Response { id: "aa".to_string(), client: None, response },
            Endpoint::from_octets([10, 1, 1, 2], 6881),
            Timestamp::new(now, 0),
        );
        assert!(reply.is_none());
        assert_eq!(table_times(&dht), vec![(1, 10), (2, now)]);
    }
    let mut dht = fixed();
    dht.add_node(contact(ending_in(2), 2, 20), Timestamp::new(1_000, 0));
    let reply = dht.handle_message_at(
        Message::Response {
            id: "aa".to_string(),
            client: None,
            response: Response::Empty { id: "bad".to_string() },
        },
        Endpoint::from_octets([10, 1, 1, 2], 6881),
        Timestamp::new(2_000, 0),
    );
    assert!(reply.is_none());
    assert_eq!(table_times(&dht), vec![(2, 20)]);
}

#[test]
fn test_errors_are_discarded() {
    let mut dht = fixed();
    dht.add_node(contact(ending_in(2), 2, 20), Timestamp::new(1_000, 0));
    let reply = dht.handle_message_at(
        Message::Error {
            id: "aa".to_string(),
            client: None,
            error: ErrorResponse::new(201, "A Generic Error Ocurred".to_string()),
        },
        Endpoint::from_octets([10, 1, 1, 2], 6881),
        Timestamp::new(2_000, 0),
    );
    assert!(reply.is_none());
    assert_eq!(table_times(&dht), vec![(2, 20)]);
    assert!(dht
        .handle_str("d1:eli201e23:A Generic Error Ocurrede1:t2:aa1:v4:aa001:y1:ee".to_string())
        .is_none());
}

#[test]
fn test_queries_with_bad_identifiers_change_nothing() {
    let mut dht = fixed();
    dht.add_node(contact([0xff; 20], 1, 10), Timestamp::new(1_000, 0));
    let source = Endpoint::from_octets([10, 0, 0, 5], 51413);
    let token = dht.signer().sign(&source);
    let bad = vec![
        Query::FindNode { id: "ff".repeat(20), target: "fff".to_string() },
        Query::FindNode { id: "x".to_string(), target: "ff".repeat(20) },
        Query::GetPeers { id: "ff".repeat(20), info_hash: "22".repeat(21) },
        Query::AnnouncePeer {
            id: "ff".repeat(20),
            implied_port: Some(true),
            port: 0,
            token,
            info_hash: "".to_string(),
        },
    ];
    for args in bad {
        let reply = dht.handle_message_at(query(args), source, Timestamp::new(2_000, 0));
        assert!(matches!(reply, Some(Message::Error { error: ErrorResponse(203, _), .. })));
        assert_eq!(table_times(&dht), vec![(0xff, 10)]);
    }
}

#[test]
fn test_new_handler_answers_with_fresh_state() {
    let mut dht = setup();
    assert_eq!(dht.node().node_id, HashId::new([17; 20]));
    assert_eq!(dht.buckets().buckets().len(), 1);
    assert_eq!(dht.peers().get(&HashId::new([1; 20])), vec![]);
    let source = Endpoint::from_octets([10, 0, 0, 5], 51413);
    let reply = dht.handle_message(
        query(Query::GetPeers { id: "ff".repeat(20), info_hash: "22".repeat(20) }),
        source,
    );
    match reply.unwrap() {
        Message::Response { response: Response::FoundPeerNodes { token, nodes, .. }, .. } => {
            assert_eq!(token, dht.signer().sign(&source));
            assert_eq!(nodes, Vec::<u8>::new());
        }
        other => panic!("{:?}", other),
    }
    let reply = dht.handle_bytes(b"d1:ad2:id2:zze1:t1:x1:y1:qe", source).unwrap();
    assert_eq!(
        String::from_utf8(reply).unwrap(),
        "d1:eli203e14:Protocol Errore1:t1:x1:v4:MW011:y1:ee"
    );
}

fn found_nodes(sender: [u8; 20], nodes: &Vec<Node>) -> Response {
    Response::FoundNodes { id: hex(sender), nodes: encode_nodes(nodes) }
}

fn table_ids(handler: &DhtHandler) -> Vec<u8> {
    table_times(handler).into_iter().map(|(id, _)| id).collect()
}

#[test]
fn test_nodes_of_an_awaited_response_are_inserted() {
    let mut dht = fixed();
    dht.add_node(contact(ending_in(2), 2, 20), Timestamp::new(1_000, 0));
    let source = Endpoint::from_octets([10, 1, 1, 2], 6881);
    let outstanding =
        OutstandingQuery { awaited: Awaited::Nodes, target: source, deadline: Timestamp::new(3_000, 0) };
    let found = vec![contact(ending_in(7), 7, 0), contact(ending_in(5), 5, 0)];

    let answered = dht.handle_response_at(
        found_nodes(ending_in(2), &found),
        source,
        Some(outstanding),
        Timestamp::new(3_000, 0),
    );

    assert!(answered);
    assert_eq!(table_times(&dht), vec![(2, 3_000), (7, 3_000), (5, 3_000)]);
    let buckets = dht.buckets().buckets();
    assert_eq!(buckets[0].nodes[1].endpoint, Endpoint::from_octets([10, 1, 1, 7], 6881));
    assert!(dht.is_wf());
}

#[test]
fn test_nodes_of_a_response_that_is_not_awaited_are_left_out() {
    let source = Endpoint::from_octets([10, 1, 1, 2], 6881);
    let found = vec![contact(ending_in(7), 7, 0)];
    let awaited =
        OutstandingQuery { awaited: Awaited::Nodes, target: source, deadline: Timestamp::new(3_000, 0) };
    let cases = vec![
        (None, Timestamp::new(2_000, 0)),
        (Some(OutstandingQuery { awaited: Awaited::Peers, ..awaited }), Timestamp::new(2_000, 0)),
        (Some(OutstandingQuery { awaited: Awaited::Empty, ..awaited }), Timestamp::new(2_000, 0)),
        (
            Some(OutstandingQuery { target: Endpoint::from_octets([10, 1, 1, 2], 6882), ..awaited }),
            Timestamp::new(2_000, 0),
        ),
        (
            Some(OutstandingQuery { target: Endpoint::from_octets([10, 1, 1, 3], 6881), ..awaited }),
            Timestamp::new(2_000, 0),
        ),
        (Some(awaited), Timestamp::new(3_000, 1)),
    ];
    for (outstanding, now) in cases {
        let mut dht = fixed();
        dht.add_node(contact(ending_in(2), 2, 20), Timestamp::new(1_000, 0));
        let answered =
            dht.handle_response_at(found_nodes(ending_in(2), &found), source, outstanding, now);
        assert!(!answered);
        assert_eq!(table_times(&dht), vec![(2, now.secs)]);
    }
}

#[test]
fn test_other_awaited_responses_are_answered_without_nodes() {
    let source = Endpoint::from_octets([10, 1, 1, 2], 6881);
    let deadline = Timestamp::new(3_000, 0);
    let cases = vec![
        (Response::Empty { id: hex(ending_in(2)) }, Awaited::Empty),
        (
            Response::FoundPeers { id: hex(ending_in(2)), token: "t".to_string(), values: vec![] },
            Awaited::Peers,
        ),
        (
            Response::FoundPeerNodes {
                id: hex(ending_in(2)),
                token: "t".to_string(),
                nodes: encode_nodes(&vec![contact(ending_in(7), 7, 0)]),
            },
            Awaited::Peers,
        ),
    ];
    for (response, awaited) in cases {
        let mut dht = fixed();
        dht.add_node(contact(ending_in(2), 2, 20), Timestamp::new(1_000, 0));
        let outstanding = OutstandingQuery { awaited, target: source, deadline };
        let answered =
            dht.handle_response_at(response, source, Some(outstanding), Timestamp::new(2_000, 0));
        assert!(answered);
        assert_eq!(table_times(&dht), vec![(2, 2_000)]);
    }
}

#[test]
fn test_nodes_that_are_no_whole_records_are_left_out() {
    let mut dht = fixed();
    let source = Endpoint::from_octets([10, 1, 1, 2], 6881);
    let outstanding =
        OutstandingQuery { awaited: Awaited::Nodes, target: source, deadline: Timestamp::new(3_000, 0) };
    let mut nodes = encode_nodes(&vec![contact(ending_in(7), 7, 0)]);
    nodes.push(0);
    let answered = dht.handle_response_at(
        Response::FoundNodes { id: hex(ending_in(2)), nodes },
        source,
        Some(outstanding),
        Timestamp::new(2_000, 0),
    );
    assert!(answered);
    assert_eq!(table_ids(&dht), Vec::<u8>::new());
}

#[test]
fn test_a_handler_is_not_made_of_a_broken_table() {
    let mut table = Kbuckets::new();
    table.split(HashId::new([100; 20]));
    table
        .find_mut(HashId::new([200; 20]))
        .unwrap()
        .insert(contact([1; 20], 1, 0))
        .unwrap();
    assert!(!table.is_wf());
    let handler = DhtHandler::from_parts(
        Node::new(Endpoint::from_octets([127, 0, 0, 1], 4444), HashId::new([17; 20])),
        table,
        PeerIndex::new(),
        TokenAuthority::new(),
    );
    assert!(handler.is_none());
}
