//! Dispatch of inbound messages against the node's state.
//!
//! The handler answers the four queries and takes note of responses. What
//! it does with a message is stated once, as a function from the state
//! before, the message, its source and the time to the state after and
//! the reply; the executable handler is proved to compute that function.

use crate::structs::bucket::BucketView;
use crate::structs::hexcode::hex_encoding;
use crate::structs::kbuckets::{
    all_inserted, closest_nodes, lemma_all_inserted_keeps_wf, table_wf, touched_table, Kbuckets,
};
use crate::structs::message::{
    ErrorResponse, ErrorView, Message, MessageView, Query, QueryView, Response, ResponseView,
};
use crate::structs::node::{
    compact_nodes, compact_peers, decode_nodes, encode_nodes, encode_peers, nodes_of, Endpoint,
    Node,
};
use crate::structs::peers::{no_peers, PeerIndex};
use crate::structs::time::{current_time, Timestamp};
use crate::structs::token::{TokenAuthority, TokenAuthorityView};
use crate::structs::util::{parsed, HashId};
use crate::structs::wire::{bytes_text, message_of, text_bytes, wire_form, ParseError, WireError};
use vstd::prelude::*;

verus! {

/// The code of a generic error.
pub const GENERIC_ERROR: u8 = 201;

/// The code of a server error.
pub const SERVER_ERROR: u8 = 202;

/// The code of the error for a malformed packet, invalid arguments or a
/// bad token.
pub const PROTOCOL_ERROR: u8 = 203;

/// The code of the error for a query that the handler does not implement.
pub const METHOD_UNKNOWN: u8 = 204;

/// The text that goes with `PROTOCOL_ERROR`.
pub open spec fn protocol_error_text() -> Seq<char> {
    "Protocol Error"@
}

/// The text that goes with `METHOD_UNKNOWN`.
pub open spec fn method_unknown_text() -> Seq<char> {
    "Method Unknown"@
}

/// The name under which the handler's replies name its software.
pub open spec fn client_identifier() -> Seq<char> {
    "MW01"@
}

/// The shape of the response that a query of ours awaits.
#[derive(Copy, Clone, Debug, PartialEq, Eq, Structural)]
pub enum Awaited {
    /// The bare response to a ping or an announcement.
    Empty,
    /// The nodes that answer a search for a node.
    Nodes,
    /// The peers, or the nodes near the torrent, that answer a search for
    /// peers.
    Peers,
}

/// What the sender of queries keeps of a query that is not answered yet:
/// the shape of the response it awaits, the endpoint it asked, and the
/// time after which a response comes too late.
#[derive(Copy, Clone, Debug)]
pub struct OutstandingQuery {
    pub awaited: Awaited,
    pub target: Endpoint,
    pub deadline: Timestamp,
}

/// The state of a handler, as plain values.
pub struct HandlerView {
    pub node: Node,
    pub table: Seq<BucketView>,
    pub identifier: Seq<char>,
    pub peers: Map<HashId, Seq<Endpoint>>,
    pub signer: TokenAuthorityView,
}

/// The view of a reply, where there is one.
pub open spec fn reply_view(reply: Option<Message>) -> Option<MessageView> {
    match reply {
        Some(message) => Some(message@),
        None => None,
    }
}

impl HandlerView {
    /// The routing table divides the identifier space.
    pub open spec fn wf(self) -> bool {
        table_wf(self.table)
    }

    /// The handler's own identifier, as it stands in its replies.
    pub open spec fn our_id(self) -> Seq<char> {
        hex_encoding(self.node.node_id@)
    }

    /// The state after the node `sender` was heard of at `now`.
    pub open spec fn heard_of(self, sender: HashId, now: Timestamp) -> HandlerView {
        HandlerView { table: touched_table(self.table, sender, now), ..self }
    }

    /// The state after `peer` announced the torrent.
    pub open spec fn announced(self, info_hash: HashId, peer: Endpoint) -> HandlerView {
        HandlerView {
            peers: self.peers.insert(info_hash, self.peers[info_hash].push(peer)),
            ..self
        }
    }

    /// The response to transaction `t`.
    pub open spec fn response(self, t: Seq<char>, response: ResponseView) -> MessageView {
        MessageView::Response { id: t, client: Some(self.identifier), response }
    }

    /// The error that answers a malformed query of transaction `t`.
    pub open spec fn protocol_error(self, t: Seq<char>) -> MessageView {
        MessageView::Error {
            id: t,
            client: Some(self.identifier),
            error: ErrorView { code: 203, message: protocol_error_text() },
        }
    }

    /// The error that answers a query of transaction `t` whose method the
    /// handler does not implement.
    pub open spec fn method_unknown(self, t: Seq<char>) -> MessageView {
        MessageView::Error {
            id: t,
            client: Some(self.identifier),
            error: ErrorView { code: 204, message: method_unknown_text() },
        }
    }

    /// A ping: the sender is heard of, and the reply holds our identifier.
    pub open spec fn on_ping(self, t: Seq<char>, id: Seq<char>, now: Timestamp) -> (
        HandlerView,
        Option<MessageView>,
    ) {
        match parsed(id) {
            Some(sender) => (
                self.heard_of(sender, now),
                Some(self.response(t, ResponseView::Empty { id: self.our_id() })),
            ),
            None => (self, Some(self.protocol_error(t))),
        }
    }

    /// The nodes that answer a search for `target`: the target alone where
    /// it is the closest node, and else the closest nodes.
    pub open spec fn found_nodes(self, target: HashId) -> Seq<Node> {
        let closest = closest_nodes(self.table, target);
        if closest.len() > 0 && closest[0].node_id == target {
            closest.take(1)
        } else {
            closest
        }
    }

    /// A search for a node: the sender is heard of, and the reply holds
    /// the nodes closest to the target.
    pub open spec fn on_find_node(
        self,
        t: Seq<char>,
        id: Seq<char>,
        target: Seq<char>,
        now: Timestamp,
    ) -> (HandlerView, Option<MessageView>) {
        match (parsed(id), parsed(target)) {
            (Some(sender), Some(target)) => {
                let after = self.heard_of(sender, now);
                (
                    after,
                    Some(
                        self.response(
                            t,
                            ResponseView::FoundNodes {
                                id: self.our_id(),
                                nodes: compact_nodes(after.found_nodes(target)),
                            },
                        ),
                    ),
                )
            },
            _ => (self, Some(self.protocol_error(t))),
        }
    }

    /// A search for peers: the sender is heard of, and the reply holds a
    /// token for the source and either the peers announced for the torrent
    /// or, where there are none, the nodes closest to it.
    pub open spec fn on_get_peers(
        self,
        t: Seq<char>,
        id: Seq<char>,
        info_hash: Seq<char>,
        source: Endpoint,
        now: Timestamp,
    ) -> (HandlerView, Option<MessageView>) {
        match (parsed(id), parsed(info_hash)) {
            (Some(sender), Some(info_hash)) => {
                let after = self.heard_of(sender, now);
                let peers = self.peers[info_hash];
                let response = if peers.len() > 0 {
                    ResponseView::FoundPeers {
                        id: self.our_id(),
                        token: self.signer.token(source),
                        values: compact_peers(peers),
                    }
                } else {
                    ResponseView::FoundPeerNodes {
                        id: self.our_id(),
                        token: self.signer.token(source),
                        nodes: compact_nodes(closest_nodes(after.table, info_hash)),
                    }
                };
                (after, Some(self.response(t, response)))
            },
            _ => (self, Some(self.protocol_error(t))),
        }
    }

    /// The port that an announcement names: that of its source where the
    /// port is implied, and else the one it carries.
    pub open spec fn announced_port(implied_port: Option<bool>, port: u16, source: Endpoint) -> u16 {
        if implied_port == Some(true) {
            source.port
        } else {
            port
        }
    }

    /// An announcement: the sender is heard of. With a token that the
    /// authority accepts for the source, the source's address with the
    /// announced port stands behind the peers of the torrent, and the
    /// reply holds our identifier. A bad token, or port zero where no port
    /// is implied, is answered with an error.
    pub open spec fn on_announce_peer(
        self,
        t: Seq<char>,
        id: Seq<char>,
        implied_port: Option<bool>,
        port: u16,
        token: Seq<char>,
        info_hash: Seq<char>,
        source: Endpoint,
        now: Timestamp,
    ) -> (HandlerView, Option<MessageView>) {
        match (parsed(id), parsed(info_hash)) {
            (Some(sender), Some(info_hash)) => {
                let after = self.heard_of(sender, now);
                let port = Self::announced_port(implied_port, port, source);
                if !self.signer.accepts(token, source) || (implied_port != Some(true) && port == 0) {
                    (after, Some(self.protocol_error(t)))
                } else {
                    (
                        after.announced(info_hash, Endpoint { addr: source.addr, port }),
                        Some(self.response(t, ResponseView::Empty { id: self.our_id() })),
                    )
                }
            },
            _ => (self, Some(self.protocol_error(t))),
        }
    }

    /// A query: one of the four above.
    pub open spec fn on_query(self, t: Seq<char>, args: QueryView, source: Endpoint, now: Timestamp) -> (
        HandlerView,
        Option<MessageView>,
    ) {
        match args {
            QueryView::Ping { id } => self.on_ping(t, id, now),
            QueryView::FindNode { id, target } => self.on_find_node(t, id, target, now),
            QueryView::GetPeers { id, info_hash } => self.on_get_peers(
                t,
                id,
                info_hash,
                source,
                now,
            ),
            QueryView::AnnouncePeer { id, implied_port, port, token, info_hash } => {
                self.on_announce_peer(t, id, implied_port, port, token, info_hash, source, now)
            },
        }
    }

    /// The identifier of the node that sent a response.
    pub open spec fn responder(response: ResponseView) -> Seq<char> {
        match response {
            ResponseView::FoundPeers { id, .. } => id,
            ResponseView::FoundPeerNodes { id, .. } => id,
            ResponseView::FoundNodes { id, .. } => id,
            ResponseView::Empty { id } => id,
        }
    }

    /// A response: its sender is heard of, where its identifier can be
    /// read, and nothing is sent back.
    pub open spec fn on_response(self, response: ResponseView, now: Timestamp) -> (
        HandlerView,
        Option<MessageView>,
    ) {
        match parsed(Self::responder(response)) {
            Some(sender) => (self.heard_of(sender, now), None),
            None => (self, None),
        }
    }

    /// The shape of a response.
    pub open spec fn shape_of(response: ResponseView) -> Awaited {
        match response {
            ResponseView::Empty { .. } => Awaited::Empty,
            ResponseView::FoundNodes { .. } => Awaited::Nodes,
            ResponseView::FoundPeers { .. } => Awaited::Peers,
            ResponseView::FoundPeerNodes { .. } => Awaited::Peers,
        }
    }

    /// Whether a response from `source` at `now` answers the query: it has
    /// the shape awaited, comes from the endpoint asked, and not after the
    /// deadline.
    pub open spec fn answers(
        response: ResponseView,
        source: Endpoint,
        query: OutstandingQuery,
        now: Timestamp,
    ) -> bool {
        &&& Self::shape_of(response) == query.awaited
        &&& source == query.target
        &&& now.rank() <= query.deadline.rank()
    }

    /// The state after attempts to insert the nodes into the routing
    /// table.
    pub open spec fn with_nodes(self, nodes: Seq<Node>, now: Timestamp) -> HandlerView {
        HandlerView { table: all_inserted(self.table, self.node.node_id, nodes, now), ..self }
    }

    /// A response to the transaction for which `outstanding` is what the
    /// sender of queries keeps: the state after it, and whether the
    /// transaction is answered and to be taken out. The sender is heard
    /// of. Nodes are taken into the routing table only from a response
    /// that answers an outstanding query, and only where they are whole
    /// compact records.
    pub open spec fn on_tracked_response(
        self,
        response: ResponseView,
        source: Endpoint,
        outstanding: Option<OutstandingQuery>,
        now: Timestamp,
    ) -> (HandlerView, bool) {
        let after = self.on_response(response, now).0;
        match outstanding {
            Some(query) => if Self::answers(response, source, query, now) {
                match response {
                    ResponseView::FoundNodes { id, nodes } => match nodes_of(nodes, now) {
                        Some(found) => (after.with_nodes(found, now), true),
                        None => (after, true),
                    },
                    _ => (after, true),
                }
            } else {
                (after, false)
            },
            None => (after, false),
        }
    }

    /// What the handler does with a message from `source` at `now`: the
    /// state after it, and the reply where there is one. An error message
    /// changes nothing and is not answered.
    pub open spec fn handled(self, message: MessageView, source: Endpoint, now: Timestamp) -> (
        HandlerView,
        Option<MessageView>,
    ) {
        match message {
            MessageView::Query { id, client, args } => self.on_query(id, args, source, now),
            MessageView::Response { id, client, response } => self.on_response(response, now),
            MessageView::Error { id, client, error } => (self, None),
        }
    }
}

/// The bytes of a reply, where there is one.
pub open spec fn reply_bytes(reply: Option<Vec<u8>>) -> Option<Seq<u8>> {
    match reply {
        Some(bytes) => Some(bytes@),
        None => None,
    }
}

/// The wire form of a reply, where there is one.
pub open spec fn reply_form(reply: Option<MessageView>) -> Option<Seq<u8>> {
    match reply {
        Some(message) => Some(wire_form(message)),
        None => None,
    }
}

/// The text of a reply, where there is one and it is text.
pub open spec fn reply_text(reply: Option<Seq<u8>>) -> Option<Seq<char>> {
    match reply {
        Some(bytes) => bytes_text(bytes),
        None => None,
    }
}

impl HandlerView {
    /// What the handler does with a datagram from `source` at `now`: the
    /// state after it, and the datagram to send back where there is one.
    /// A message is handled and its reply sent in its wire form. A query
    /// with an unknown method changes nothing and is answered with an
    /// error. Bytes that are no message change nothing and are not
    /// answered.
    pub open spec fn answered(self, bytes: Seq<u8>, source: Endpoint, now: Timestamp) -> (
        HandlerView,
        Option<Seq<u8>>,
    ) {
        match message_of(bytes) {
            Ok(message) => (
                self.handled(message, source, now).0,
                reply_form(self.handled(message, source, now).1),
            ),
            Err(WireError::UnknownMethod { id }) => (
                self,
                Some(wire_form(self.method_unknown(id))),
            ),
            Err(_) => (self, None),
        }
    }
}

/// Whether an endpoint is port 4444 of the local address 127.0.0.1.
pub open spec fn is_local_source(source: Endpoint) -> bool {
    source.port == 4444 && source.addr@ == seq![127u8, 0u8, 0u8, 1u8]
}

impl HandlerView {
    /// What the handler does with a datagram that is given as text: the
    /// state after it, and the reply where there is one and it is text.
    pub open spec fn answered_text(self, text: Seq<char>, source: Endpoint, now: Timestamp) -> (
        HandlerView,
        Option<Seq<char>>,
    ) {
        (
            self.answered(text_bytes(text), source, now).0,
            reply_text(self.answered(text_bytes(text), source, now).1),
        )
    }
}

/// Whatever the message, the routing table divides the identifier space
/// after it as before, and the node, its name and its secrets stay.
pub proof fn lemma_handled_keeps_wf(
    state: HandlerView,
    message: MessageView,
    source: Endpoint,
    now: Timestamp,
)
    requires
        state.wf(),
    ensures
        state.handled(message, source, now).0.wf(),
        state.handled(message, source, now).0.node == state.node,
        state.handled(message, source, now).0.identifier == state.identifier,
        state.handled(message, source, now).0.signer == state.signer,
{
    assert forall|sender: HashId| table_wf(#[trigger] touched_table(state.table, sender, now)) by {
        crate::structs::kbuckets::lemma_touch_keeps_wf(state.table, sender, now);
    }
}

/// Whatever the response and whatever is kept for its transaction, the
/// routing table divides the identifier space after it as before.
pub proof fn lemma_tracked_response_keeps_wf(
    state: HandlerView,
    response: ResponseView,
    source: Endpoint,
    outstanding: Option<OutstandingQuery>,
    now: Timestamp,
)
    requires
        state.wf(),
    ensures
        state.on_tracked_response(response, source, outstanding, now).0.wf(),
{
    let after = state.on_response(response, now).0;
    assert forall|sender: HashId| table_wf(#[trigger] touched_table(state.table, sender, now)) by {
        crate::structs::kbuckets::lemma_touch_keeps_wf(state.table, sender, now);
    }
    assert forall|nodes: Seq<Node>| table_wf(#[trigger] after.with_nodes(nodes, now).table) by {
        lemma_all_inserted_keeps_wf(after.table, after.node.node_id, nodes, now);
    }
}

/// The handler of a node: its routing table, the peers announced to it
/// and the authority for its tokens.
#[derive(Debug)]
pub struct DhtHandler {
    node: Node,
    buckets: Kbuckets,
    identifier: String,
    peers: PeerIndex,
    signer: TokenAuthority,
}

impl View for DhtHandler {
    type V = HandlerView;

    closed spec fn view(&self) -> HandlerView {
        HandlerView {
            node: self.node,
            table: self.buckets@,
            identifier: self.identifier@,
            peers: self.peers@,
            signer: self.signer@,
        }
    }
}

impl DhtHandler {
    /// A handler for `node` with an empty routing table, no peers and
    /// random secrets.
    pub fn new(node: Node) -> (handler: DhtHandler)
        ensures
            handler@.wf(),
            handler@.node == node,
            handler@.identifier == client_identifier(),
            handler@.peers == no_peers(),
            handler@.table.len() == 1,
            handler@.table[0].nodes == Seq::<Node>::empty(),
    {
        DhtHandler {
            node,
            buckets: Kbuckets::new(),
            identifier: "MW01".to_owned(),
            peers: PeerIndex::new(),
            signer: TokenAuthority::new(),
        }
    }

    /// A handler for `node` with the routing table, the peers and the
    /// authority given; none where the routing table does not divide the
    /// identifier space.
    pub fn from_parts(node: Node, buckets: Kbuckets, peers: PeerIndex, signer: TokenAuthority) -> (handler:
        Option<DhtHandler>)
        ensures
            handler is Some <==> table_wf(buckets@),
            handler is Some ==> handler.unwrap()@ == (HandlerView {
                node,
                table: buckets@,
                identifier: client_identifier(),
                peers: peers@,
                signer: signer@,
            }),
    {
        if !buckets.is_wf() {
            return None;
        }
        Some(DhtHandler { node, buckets, identifier: "MW01".to_owned(), peers, signer })
    }

    /// The node that the handler answers for.
    pub fn node(&self) -> (node: &Node)
        ensures
            *node == self@.node,
    {
        &self.node
    }

    /// The routing table.
    pub fn buckets(&self) -> (buckets: &Kbuckets)
        ensures
            buckets@ == self@.table,
    {
        &self.buckets
    }

    /// The peers announced to the handler.
    pub fn peers(&self) -> (peers: &PeerIndex)
        ensures
            peers@ == self@.peers,
    {
        &self.peers
    }

    /// The authority for the handler's tokens.
    pub fn signer(&self) -> (signer: &TokenAuthority)
        ensures
            signer@ == self@.signer,
    {
        &self.signer
    }

    /// Whether the routing table divides the identifier space, as every
    /// function of the handler asks and keeps.
    pub fn is_wf(&self) -> (r: bool)
        ensures
            r == self@.wf(),
    {
        self.buckets.is_wf()
    }

    /// Makes a node known to the routing table, as `Kbuckets::try_insert`
    /// does with the handler's own identifier.
    pub fn add_node(&mut self, node: Node, now: Timestamp)
        requires
            old(self)@.wf(),
        ensures
            final(self)@ == (HandlerView {
                table: crate::structs::kbuckets::try_inserted(
                    old(self)@.table,
                    old(self)@.node.node_id,
                    node,
                    now,
                ),
                ..old(self)@
            }),
            final(self)@.wf(),
    {
        let our_id = self.node.node_id;
        self.buckets.try_insert_at(&our_id, node, now);
    }

    /// Replaces the current secret of the authority by a random one, and
    /// keeps the replaced one as the previous secret.
    pub fn rotate_secret(&mut self)
        ensures
            exists|fresh: Seq<u8>|
                fresh.len() == 32 && final(self)@ == (HandlerView {
                    signer: old(self)@.signer.rotated(fresh),
                    ..old(self)@
                }),
    {
        self.signer.rotate();
    }

    /// Handles a message that came from `endpoint` now, and returns the
    /// reply where there is one.
    pub fn handle_message(&mut self, message: Message, endpoint: Endpoint) -> (reply: Option<Message>)
        requires
            old(self)@.wf(),
        ensures
            exists|now: Timestamp|
                (final(self)@, reply_view(reply)) == old(self)@.handled(message@, endpoint, now),
            final(self)@.wf(),
    {
        self.handle_message_at(message, endpoint, current_time())
    }

    /// Handles a message that came from `endpoint` at `now`, and returns
    /// the reply where there is one.
    pub fn handle_message_at(&mut self, message: Message, endpoint: Endpoint, now: Timestamp) -> (reply:
        Option<Message>)
        requires
            old(self)@.wf(),
        ensures
            (final(self)@, reply_view(reply)) == old(self)@.handled(message@, endpoint, now),
            final(self)@.wf(),
    {
        proof {
            lemma_handled_keeps_wf(self@, message@, endpoint, now);
        }
        match message {
            Message::Query { id, args, client: _client } => {
                match args {
                    Query::Ping { id: sender } => self.ping(id, sender, now),
                    Query::GetPeers { id: sender, info_hash } => self.get_peers(
                        id,
                        sender,
                        info_hash,
                        endpoint,
                        now,
                    ),
                    Query::AnnouncePeer { id: sender, info_hash, implied_port, port, token } => {
                        self.announce_peer(
                            id,
                            sender,
                            implied_port,
                            port,
                            token,
                            info_hash,
                            endpoint,
                            now,
                        )
                    },
                    Query::FindNode { id: sender, target } => self.find_node(
                        id,
                        sender,
                        target,
                        now,
                    ),
                }
            },
            Message::Response { id: _id, client: _client, response } => {
                let sender = match response {
                    Response::FoundPeers { id, token: _, values: _ } => id,
                    Response::FoundPeerNodes { id, token: _, nodes: _ } => id,
                    Response::FoundNodes { id, nodes: _ } => id,
                    Response::Empty { id } => id,
                };
                match HashId::from_str(sender) {
                    Ok(sender) => {
                        self.buckets.update_timestamps_at(&sender, now);
                    },
                    Err(_) => {},
                }
                None
            },
            Message::Error { id: _id, error: _error, client: _client } => None,
        }
    }

    /// Handles a datagram that came from `source` now, and returns the
    /// datagram to send back where there is one.
    pub fn handle_bytes(&mut self, input: &[u8], source: Endpoint) -> (reply: Option<Vec<u8>>)
        requires
            old(self)@.wf(),
        ensures
            exists|now: Timestamp|
                (final(self)@, reply_bytes(reply)) == old(self)@.answered(input@, source, now),
            final(self)@.wf(),
    {
        self.handle_bytes_at(input, source, current_time())
    }

    /// Handles a datagram that came from `source` at `now`, and returns
    /// the datagram to send back where there is one.
    pub fn handle_bytes_at(&mut self, input: &[u8], source: Endpoint, now: Timestamp) -> (reply:
        Option<Vec<u8>>)
        requires
            old(self)@.wf(),
        ensures
            (final(self)@, reply_bytes(reply)) == old(self)@.answered(input@, source, now),
            final(self)@.wf(),
    {
        match Message::from_bytes(input) {
            Ok(message) => match self.handle_message_at(message, source, now) {
                Some(reply) => Some(reply.to_bytes()),
                None => None,
            },
            Err(ParseError::UnknownMethod { id }) => Some(self.method_unknown(id).to_bytes()),
            Err(_) => None,
        }
    }

    /// Handles a datagram, given as text, that came now from port 4444 of
    /// the local address 127.0.0.1, and returns the reply where there is
    /// one and it is text. A reply that holds nodes or peers is no text in
    /// general: `handle_bytes` returns every reply.
    pub fn handle_str(&mut self, input: String) -> (reply: Option<String>)
        requires
            old(self)@.wf(),
        ensures
            exists|now: Timestamp, source: Endpoint|
                is_local_source(source) && (final(self)@, crate::structs::message::text_of(reply))
                    == #[trigger] old(self)@.answered_text(input@, source, now),
            final(self)@.wf(),
    {
        let source = Endpoint::from_octets([127, 0, 0, 1], 4444);
        assert(source.addr@ =~= seq![127u8, 0u8, 0u8, 1u8]);
        self.handle_str_at(input, source, current_time())
    }

    /// Handles a datagram, given as text, that came from `source` at
    /// `now`, and returns the reply where there is one and it is text.
    pub fn handle_str_at(&mut self, input: String, source: Endpoint, now: Timestamp) -> (reply:
        Option<String>)
        requires
            old(self)@.wf(),
        ensures
            (final(self)@, crate::structs::message::text_of(reply)) == old(self)@.answered_text(
                input@,
                source,
                now,
            ),
            final(self)@.wf(),
    {
        match self.handle_bytes_at(input.as_str().as_bytes(), source, now) {
            Some(bytes) => crate::structs::wire::text_of_bytes(bytes.as_slice()),
            None => None,
        }
    }

    /// Takes note of a response that came from `source` at `now`, where
    /// `outstanding` is what the sender of queries keeps for its
    /// transaction, and says whether the transaction is answered and to
    /// be taken out.
    pub fn handle_response_at(
        &mut self,
        response: Response,
        source: Endpoint,
        outstanding: Option<OutstandingQuery>,
        now: Timestamp,
    ) -> (answered: bool)
        requires
            old(self)@.wf(),
        ensures
            (final(self)@, answered) == old(self)@.on_tracked_response(
                response@,
                source,
                outstanding,
                now,
            ),
            final(self)@.wf(),
    {
        let (sender, shape, nodes) = match response {
            Response::FoundPeers { id, token: _, values: _ } => (id, Awaited::Peers, None),
            Response::FoundPeerNodes { id, token: _, nodes: _ } => (id, Awaited::Peers, None),
            Response::FoundNodes { id, nodes } => (id, Awaited::Nodes, Some(nodes)),
            Response::Empty { id } => (id, Awaited::Empty, None),
        };
        match HashId::from_str(sender) {
            Ok(sender) => {
                self.buckets.update_timestamps_at(&sender, now);
            },
            Err(_) => {},
        }
        let query = match outstanding {
            Some(query) => query,
            None => {
                return false;
            },
        };
        if shape != query.awaited || source != query.target || query.deadline.earlier_than(&now) {
            return false;
        }
        match nodes {
            Some(nodes) => match decode_nodes(nodes.as_slice(), now) {
                Some(found) => {
                    let our_id = self.node.node_id;
                    self.buckets.insert_all_at(&our_id, &found, now);
                },
                None => {},
            },
            None => {},
        }
        true
    }

    /// Answers a ping.
    fn ping(&mut self, id: String, sender: String, now: Timestamp) -> (reply: Option<Message>)
        requires
            old(self)@.wf(),
        ensures
            (final(self)@, reply_view(reply)) == old(self)@.on_ping(id@, sender@, now),
    {
        let sender = match HashId::from_str(sender) {
            Ok(sender) => sender,
            Err(_) => {
                return Some(self.protocol_error(id));
            },
        };
        self.buckets.update_timestamps_at(&sender, now);
        Some(self.response(id, Response::Empty { id: self.node.node_id.to_str() }))
    }

    /// Answers a search for a node.
    fn find_node(&mut self, id: String, sender: String, target: String, now: Timestamp) -> (reply:
        Option<Message>)
        requires
            old(self)@.wf(),
        ensures
            (final(self)@, reply_view(reply)) == old(self)@.on_find_node(
                id@,
                sender@,
                target@,
                now,
            ),
    {
        let sender = match HashId::from_str(sender) {
            Ok(sender) => sender,
            Err(_) => {
                return Some(self.protocol_error(id));
            },
        };
        let target = match HashId::from_str(target) {
            Ok(target) => target,
            Err(_) => {
                return Some(self.protocol_error(id));
            },
        };
        self.buckets.update_timestamps_at(&sender, now);
        let mut closest = match self.buckets.find_closest_nodes(&target) {
            Some(closest) => closest,
            None => Vec::new(),
        };
        if closest.len() > 0 && closest[0].node_id == target {
            closest.truncate(1);
        }
        assert(closest@ =~= self@.found_nodes(target));
        Some(
            self.response(
                id,
                Response::FoundNodes {
                    id: self.node.node_id.to_str(),
                    nodes: encode_nodes(&closest),
                },
            ),
        )
    }

    /// Answers a search for peers.
    fn get_peers(
        &mut self,
        id: String,
        sender: String,
        info_hash: String,
        endpoint: Endpoint,
        now: Timestamp,
    ) -> (reply: Option<Message>)
        requires
            old(self)@.wf(),
        ensures
            (final(self)@, reply_view(reply)) == old(self)@.on_get_peers(
                id@,
                sender@,
                info_hash@,
                endpoint,
                now,
            ),
    {
        let sender = match HashId::from_str(sender) {
            Ok(sender) => sender,
            Err(_) => {
                return Some(self.protocol_error(id));
            },
        };
        let info_hash = match HashId::from_str(info_hash) {
            Ok(info_hash) => info_hash,
            Err(_) => {
                return Some(self.protocol_error(id));
            },
        };
        self.buckets.update_timestamps_at(&sender, now);
        let peers = self.peers.get(&info_hash);
        let response = if peers.len() > 0 {
            Response::FoundPeers {
                id: self.node.node_id.to_str(),
                token: self.signer.sign(&endpoint),
                values: encode_peers(&peers),
            }
        } else {
            let closest = match self.buckets.find_closest_nodes(&info_hash) {
                Some(closest) => closest,
                None => Vec::new(),
            };
            Response::FoundPeerNodes {
                id: self.node.node_id.to_str(),
                token: self.signer.sign(&endpoint),
                nodes: encode_nodes(&closest),
            }
        };
        Some(self.response(id, response))
    }

    /// Answers an announcement.
    fn announce_peer(
        &mut self,
        id: String,
        sender: String,
        implied_port: Option<bool>,
        port: u16,
        token: String,
        info_hash: String,
        endpoint: Endpoint,
        now: Timestamp,
    ) -> (reply: Option<Message>)
        requires
            old(self)@.wf(),
        ensures
            (final(self)@, reply_view(reply)) == old(self)@.on_announce_peer(
                id@,
                sender@,
                implied_port,
                port,
                token@,
                info_hash@,
                endpoint,
                now,
            ),
    {
        let sender = match HashId::from_str(sender) {
            Ok(sender) => sender,
            Err(_) => {
                return Some(self.protocol_error(id));
            },
        };
        let info_hash = match HashId::from_str(info_hash) {
            Ok(info_hash) => info_hash,
            Err(_) => {
                return Some(self.protocol_error(id));
            },
        };
        self.buckets.update_timestamps_at(&sender, now);
        if !self.signer.verify(&token, &endpoint) {
            return Some(self.protocol_error(id));
        }
        let implied = match implied_port {
            Some(implied) => implied,
            None => false,
        };
        if !implied && port == 0 {
            return Some(self.protocol_error(id));
        }
        let port = if implied {
            endpoint.port
        } else {
            port
        };
        self.peers.announce(info_hash, endpoint.with_port(port));
        Some(self.response(id, Response::Empty { id: self.node.node_id.to_str() }))
    }

    /// The response to the transaction `id`, under the handler's name.
    fn response(&self, id: String, response: Response) -> (reply: Message)
        ensures
            reply@ == self@.response(id@, response@),
    {
        Message::Response { id, response, client: Some(self.identifier.clone()) }
    }

    /// The error that answers a malformed query of the transaction `id`.
    fn protocol_error(&self, id: String) -> (reply: Message)
        ensures
            reply@ == self@.protocol_error(id@),
    {
        Message::Error {
            id,
            client: Some(self.identifier.clone()),
            error: ErrorResponse::new(PROTOCOL_ERROR, "Protocol Error".to_owned()),
        }
    }

    /// The error that answers a query of the transaction `id` whose
    /// method is not implemented.
    fn method_unknown(&self, id: String) -> (reply: Message)
        ensures
            reply@ == self@.method_unknown(id@),
    {
        Message::Error {
            id,
            client: Some(self.identifier.clone()),
            error: ErrorResponse::new(METHOD_UNKNOWN, "Method Unknown".to_owned()),
        }
    }
}

} // verus!
