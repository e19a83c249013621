//! The wire schema of the messages: which bencode value a message is, and
//! the functions that write and read it.
//!
//! A message is a dictionary with the transaction under `t`, the kind of
//! message under `y`, the sender's software under `v` where it names it,
//! and, by its kind, the arguments of a query under `a` with its name
//! under `q`, the values of a response under `r`, or the code and the text
//! of an error under `e`. Keys that the schema does not name are passed
//! over. Reading the wire form of a message gives the message back.

use crate::structs::bencode::{
    canonical, entry_views, item_views, lemma_entry_views, lemma_item_views, lex_less, Bencode,
    BencodeView, MAX_DEPTH,
};
use crate::structs::message::{
    byte_strings, ErrorResponse, ErrorView, Message, MessageView, Query, QueryView, Response,
    ResponseView,
};
use vstd::prelude::*;
use vstd::utf8::{decode_utf8, encode_utf8, valid_utf8};

verus! {

/// The bytes of a text.
pub open spec fn text_bytes(text: Seq<char>) -> Seq<u8> {
    encode_utf8(text)
}

/// The text that bytes stand for, where they stand for one.
pub open spec fn bytes_text(bytes: Seq<u8>) -> Option<Seq<char>> {
    if valid_utf8(bytes) {
        Some(decode_utf8(bytes))
    } else {
        None
    }
}

/// A text as a value.
pub open spec fn text_value(text: Seq<char>) -> BencodeView {
    BencodeView::Bytes(text_bytes(text))
}

/// An entry of a dictionary, under a key that is given as text.
pub open spec fn entry(name: Seq<char>, value: BencodeView) -> (Seq<u8>, BencodeView) {
    (text_bytes(name), value)
}

/// The value of the first entry under the key.
pub open spec fn lookup(entries: Seq<(Seq<u8>, BencodeView)>, key: Seq<u8>) -> Option<BencodeView>
    decreases entries.len(),
{
    if entries.len() == 0 {
        None
    } else if entries[0].0 == key {
        Some(entries[0].1)
    } else {
        lookup(entries.subrange(1, entries.len() as int), key)
    }
}

/// The value under a key that is given as text.
pub open spec fn field(entries: Seq<(Seq<u8>, BencodeView)>, name: Seq<char>) -> Option<BencodeView> {
    lookup(entries, text_bytes(name))
}

/// The text that a field holds, where it holds one.
pub open spec fn as_text(value: Option<BencodeView>) -> Option<Seq<char>> {
    match value {
        Some(BencodeView::Bytes(bytes)) => bytes_text(bytes),
        _ => None,
    }
}

/// The bytes that a field holds, where it holds a byte string.
pub open spec fn as_bytes(value: Option<BencodeView>) -> Option<Seq<u8>> {
    match value {
        Some(BencodeView::Bytes(bytes)) => Some(bytes),
        _ => None,
    }
}

/// The integer that a field holds, where it holds one.
pub open spec fn as_int(value: Option<BencodeView>) -> Option<int> {
    match value {
        Some(BencodeView::Int(value)) => Some(value),
        _ => None,
    }
}

/// The entries that a field holds, where it holds a dictionary.
pub open spec fn as_dict(value: Option<BencodeView>) -> Option<Seq<(Seq<u8>, BencodeView)>> {
    match value {
        Some(BencodeView::Dict(entries)) => Some(entries),
        _ => None,
    }
}

/// The items that a field holds, where it holds a list.
pub open spec fn as_list(value: Option<BencodeView>) -> Option<Seq<BencodeView>> {
    match value {
        Some(BencodeView::List(items)) => Some(items),
        _ => None,
    }
}

/// Whether every item is a byte string.
pub open spec fn all_bytes(items: Seq<BencodeView>) -> bool {
    forall|k: int| 0 <= k < items.len() ==> (#[trigger] items[k]) is Bytes
}

/// The byte strings that the items are.
pub open spec fn bytes_of_items(items: Seq<BencodeView>) -> Seq<Seq<u8>> {
    items.map_values(|item: BencodeView| item->Bytes_0)
}

/// Byte strings as items.
pub open spec fn items_of_bytes(values: Seq<Seq<u8>>) -> Seq<BencodeView> {
    values.map_values(|bytes: Seq<u8>| BencodeView::Bytes(bytes))
}

/// The name of the method of a query.
pub open spec fn method_of(query: QueryView) -> Seq<char> {
    match query {
        QueryView::Ping { .. } => "ping"@,
        QueryView::FindNode { .. } => "find_node"@,
        QueryView::GetPeers { .. } => "get_peers"@,
        QueryView::AnnouncePeer { .. } => "announce_peer"@,
    }
}

/// Whether the bytes name one of the four methods.
pub open spec fn known_method(name: Seq<u8>) -> bool {
    ||| name == text_bytes("ping"@)
    ||| name == text_bytes("find_node"@)
    ||| name == text_bytes("get_peers"@)
    ||| name == text_bytes("announce_peer"@)
}

/// The entries under which a query carries its arguments, in the order of
/// their keys.
pub open spec fn query_entries(query: QueryView) -> Seq<(Seq<u8>, BencodeView)> {
    match query {
        QueryView::Ping { id } => seq![entry("id"@, text_value(id))],
        QueryView::FindNode { id, target } => seq![
            entry("id"@, text_value(id)),
            entry("target"@, text_value(target)),
        ],
        QueryView::GetPeers { id, info_hash } => seq![
            entry("id"@, text_value(id)),
            entry("info_hash"@, text_value(info_hash)),
        ],
        QueryView::AnnouncePeer { id, implied_port, port, token, info_hash } => match implied_port {
            Some(implied) => seq![
                entry("id"@, text_value(id)),
                entry(
                    "implied_port"@,
                    BencodeView::Int(
                        if implied {
                            1
                        } else {
                            0
                        },
                    ),
                ),
                entry("info_hash"@, text_value(info_hash)),
                entry("port"@, BencodeView::Int(port as int)),
                entry("token"@, text_value(token)),
            ],
            None => seq![
                entry("id"@, text_value(id)),
                entry("info_hash"@, text_value(info_hash)),
                entry("port"@, BencodeView::Int(port as int)),
                entry("token"@, text_value(token)),
            ],
        },
    }
}

/// The search for a node that the arguments are, where they hold an
/// identifier and a target.
pub open spec fn find_node_of(a: Seq<(Seq<u8>, BencodeView)>) -> Option<QueryView> {
    match (as_text(field(a, "id"@)), as_text(field(a, "target"@))) {
        (Some(id), Some(target)) => Some(QueryView::FindNode { id, target }),
        _ => None,
    }
}

/// What the arguments say of an implied port: nothing where the key is
/// absent, and else whether its integer is not zero. `None` where the key
/// holds no integer.
pub open spec fn implied_port_of(a: Seq<(Seq<u8>, BencodeView)>) -> Option<Option<bool>> {
    match field(a, "implied_port"@) {
        None => Some(None),
        Some(BencodeView::Int(flag)) => Some(Some(flag != 0)),
        Some(_) => None,
    }
}

/// The announcement that the arguments are, where they hold an
/// identifier, a torrent, a port of 16 bits and a token.
pub open spec fn announce_peer_of(a: Seq<(Seq<u8>, BencodeView)>) -> Option<QueryView> {
    match (
        as_text(field(a, "id"@)),
        implied_port_of(a),
        as_text(field(a, "info_hash"@)),
        as_int(field(a, "port"@)),
        as_text(field(a, "token"@)),
    ) {
        (Some(id), Some(implied_port), Some(info_hash), Some(port), Some(token)) => if 0 <= port
            <= 0xffff {
            Some(
                QueryView::AnnouncePeer { id, implied_port, port: port as u16, token, info_hash },
            )
        } else {
            None
        },
        _ => None,
    }
}

/// The search for peers that the arguments are, where they hold an
/// identifier and a torrent.
pub open spec fn get_peers_of(a: Seq<(Seq<u8>, BencodeView)>) -> Option<QueryView> {
    match (as_text(field(a, "id"@)), as_text(field(a, "info_hash"@))) {
        (Some(id), Some(info_hash)) => Some(QueryView::GetPeers { id, info_hash }),
        _ => None,
    }
}

/// The ping that the arguments are, where they hold an identifier.
pub open spec fn ping_of(a: Seq<(Seq<u8>, BencodeView)>) -> Option<QueryView> {
    match as_text(field(a, "id"@)) {
        Some(id) => Some(QueryView::Ping { id }),
        None => None,
    }
}

/// The query that the arguments are: the first that they hold all keys
/// of, among the search for a node, the announcement, the search for
/// peers and the ping.
pub open spec fn query_of(a: Seq<(Seq<u8>, BencodeView)>) -> Option<QueryView> {
    if find_node_of(a) is Some {
        find_node_of(a)
    } else if announce_peer_of(a) is Some {
        announce_peer_of(a)
    } else if get_peers_of(a) is Some {
        get_peers_of(a)
    } else {
        ping_of(a)
    }
}

/// The entries under which a response carries its values, in the order
/// of their keys.
pub open spec fn response_entries(response: ResponseView) -> Seq<(Seq<u8>, BencodeView)> {
    match response {
        ResponseView::FoundPeers { id, token, values } => seq![
            entry("id"@, text_value(id)),
            entry("token"@, text_value(token)),
            entry("values"@, BencodeView::List(items_of_bytes(values))),
        ],
        ResponseView::FoundPeerNodes { id, token, nodes } => seq![
            entry("id"@, text_value(id)),
            entry("nodes"@, BencodeView::Bytes(nodes)),
            entry("token"@, text_value(token)),
        ],
        ResponseView::FoundNodes { id, nodes } => seq![
            entry("id"@, text_value(id)),
            entry("nodes"@, BencodeView::Bytes(nodes)),
        ],
        ResponseView::Empty { id } => seq![entry("id"@, text_value(id))],
    }
}

/// The peers that the values are, where they hold an identifier, a
/// token and a list of byte strings.
pub open spec fn found_peers_of(r: Seq<(Seq<u8>, BencodeView)>) -> Option<ResponseView> {
    match (as_text(field(r, "id"@)), as_text(field(r, "token"@)), as_list(field(r, "values"@))) {
        (Some(id), Some(token), Some(values)) => if all_bytes(values) {
            Some(ResponseView::FoundPeers { id, token, values: bytes_of_items(values) })
        } else {
            None
        },
        _ => None,
    }
}

/// The nodes near a torrent that the values are, where they hold an
/// identifier, a token and nodes.
pub open spec fn found_peer_nodes_of(r: Seq<(Seq<u8>, BencodeView)>) -> Option<ResponseView> {
    match (as_text(field(r, "id"@)), as_text(field(r, "token"@)), as_bytes(field(r, "nodes"@))) {
        (Some(id), Some(token), Some(nodes)) => Some(
            ResponseView::FoundPeerNodes { id, token, nodes },
        ),
        _ => None,
    }
}

/// The nodes that the values are, where they hold an identifier and
/// nodes.
pub open spec fn found_nodes_of(r: Seq<(Seq<u8>, BencodeView)>) -> Option<ResponseView> {
    match (as_text(field(r, "id"@)), as_bytes(field(r, "nodes"@))) {
        (Some(id), Some(nodes)) => Some(ResponseView::FoundNodes { id, nodes }),
        _ => None,
    }
}

/// The bare response that the values are, where they hold an identifier.
pub open spec fn empty_of(r: Seq<(Seq<u8>, BencodeView)>) -> Option<ResponseView> {
    match as_text(field(r, "id"@)) {
        Some(id) => Some(ResponseView::Empty { id }),
        None => None,
    }
}

/// The response that the values are: the first that they hold all keys
/// of, among peers, nodes near a torrent, nodes and the bare response.
pub open spec fn response_of(r: Seq<(Seq<u8>, BencodeView)>) -> Option<ResponseView> {
    if found_peers_of(r) is Some {
        found_peers_of(r)
    } else if found_peer_nodes_of(r) is Some {
        found_peer_nodes_of(r)
    } else if found_nodes_of(r) is Some {
        found_nodes_of(r)
    } else {
        empty_of(r)
    }
}

/// The items that an error is carried as: its code, then its text.
pub open spec fn error_items(error: ErrorView) -> Seq<BencodeView> {
    seq![BencodeView::Int(error.code as int), text_value(error.message)]
}

/// The error that the items are, where they are a code of 8 bits and a
/// text.
pub open spec fn error_of(items: Seq<BencodeView>) -> Option<ErrorView> {
    if items.len() == 2 {
        match (items[0], as_text(Some(items[1]))) {
            (BencodeView::Int(code), Some(message)) => if 0 <= code <= 0xff {
                Some(ErrorView { code: code as u8, message })
            } else {
                None
            },
            _ => None,
        }
    } else {
        None
    }
}

/// The entry under which a message names its sender's software, where
/// it does.
pub open spec fn client_entries(client: Option<Seq<char>>) -> Seq<(Seq<u8>, BencodeView)> {
    match client {
        Some(client) => seq![entry("v"@, text_value(client))],
        None => Seq::empty(),
    }
}

/// What a message says of its sender's software: nothing where the key is
/// absent, and else the text under it. `None` where the key holds no text.
pub open spec fn client_of(top: Seq<(Seq<u8>, BencodeView)>) -> Option<Option<Seq<char>>> {
    match field(top, "v"@) {
        None => Some(None),
        Some(BencodeView::Bytes(bytes)) => match bytes_text(bytes) {
            Some(client) => Some(Some(client)),
            None => None,
        },
        Some(_) => None,
    }
}

/// The value that a message is carried as.
pub open spec fn value_of_message(message: MessageView) -> BencodeView {
    match message {
        MessageView::Query { id, client, args } => BencodeView::Dict(
            seq![
                entry("a"@, BencodeView::Dict(query_entries(args))),
                entry("q"@, text_value(method_of(args))),
                entry("t"@, text_value(id)),
            ] + client_entries(client) + seq![entry("y"@, text_value("q"@))],
        ),
        MessageView::Response { id, client, response } => BencodeView::Dict(
            seq![
                entry("r"@, BencodeView::Dict(response_entries(response))),
                entry("t"@, text_value(id)),
            ] + client_entries(client) + seq![entry("y"@, text_value("r"@))],
        ),
        MessageView::Error { id, client, error } => BencodeView::Dict(
            seq![entry("e"@, BencodeView::List(error_items(error))), entry("t"@, text_value(id))]
                + client_entries(client) + seq![entry("y"@, text_value("e"@))],
        ),
    }
}

/// Why bytes are not read as a message.
pub enum WireError {
    /// The bytes are not the wire form of a bencode value.
    NotBencode,
    /// The value is not a message of the schema.
    NotAMessage,
    /// The value is a query whose method is none of the four; `id` is its
    /// transaction.
    UnknownMethod { id: Seq<char> },
}

/// The query that a dictionary is. With a name under `q` that is one of
/// the four, the arguments must be that query; with another name the
/// method is unknown; without `q` the arguments decide.
pub open spec fn query_message(
    top: Seq<(Seq<u8>, BencodeView)>,
    id: Seq<char>,
    client: Option<Seq<char>>,
) -> Result<MessageView, WireError> {
    match field(top, "q"@) {
        Some(BencodeView::Bytes(name)) => if known_method(name) {
            match as_dict(field(top, "a"@)) {
                Some(a) => match query_of(a) {
                    Some(args) => if text_bytes(method_of(args)) == name {
                        Ok(MessageView::Query { id, client, args })
                    } else {
                        Err(WireError::NotAMessage)
                    },
                    None => Err(WireError::NotAMessage),
                },
                None => Err(WireError::NotAMessage),
            }
        } else {
            Err(WireError::UnknownMethod { id })
        },
        Some(_) => Err(WireError::NotAMessage),
        None => match as_dict(field(top, "a"@)) {
            Some(a) => match query_of(a) {
                Some(args) => Ok(MessageView::Query { id, client, args }),
                None => Err(WireError::NotAMessage),
            },
            None => Err(WireError::NotAMessage),
        },
    }
}

/// The response that a dictionary is.
pub open spec fn response_message(
    top: Seq<(Seq<u8>, BencodeView)>,
    id: Seq<char>,
    client: Option<Seq<char>>,
) -> Result<MessageView, WireError> {
    match as_dict(field(top, "r"@)) {
        Some(r) => match response_of(r) {
            Some(response) => Ok(MessageView::Response { id, client, response }),
            None => Err(WireError::NotAMessage),
        },
        None => Err(WireError::NotAMessage),
    }
}

/// The error that a dictionary is.
pub open spec fn error_message(
    top: Seq<(Seq<u8>, BencodeView)>,
    id: Seq<char>,
    client: Option<Seq<char>>,
) -> Result<MessageView, WireError> {
    match as_list(field(top, "e"@)) {
        Some(items) => match error_of(items) {
            Some(error) => Ok(MessageView::Error { id, client, error }),
            None => Err(WireError::NotAMessage),
        },
        None => Err(WireError::NotAMessage),
    }
}

/// The message that a value is.
pub open spec fn message_of_value(value: BencodeView) -> Result<MessageView, WireError> {
    match value {
        BencodeView::Dict(top) => match (
            as_text(field(top, "t"@)),
            client_of(top),
            as_bytes(field(top, "y"@)),
        ) {
            (Some(id), Some(client), Some(kind)) => if kind == text_bytes("q"@) {
                query_message(top, id, client)
            } else if kind == text_bytes("r"@) {
                response_message(top, id, client)
            } else if kind == text_bytes("e"@) {
                error_message(top, id, client)
            } else {
                Err(WireError::NotAMessage)
            },
            _ => Err(WireError::NotAMessage),
        },
        _ => Err(WireError::NotAMessage),
    }
}

/// The wire form of a message.
pub open spec fn wire_form(message: MessageView) -> Seq<u8> {
    crate::structs::bencode::encoding(value_of_message(message))
}

/// The message that bytes are the wire form of.
pub open spec fn message_of(bytes: Seq<u8>) -> Result<MessageView, WireError> {
    match crate::structs::bencode::decoding(bytes) {
        Some(value) => message_of_value(value),
        None => Err(WireError::NotBencode),
    }
}

/// The bytes of the names that the schema uses.
pub proof fn lemma_names()
    ensures
        text_bytes("a"@) == seq![97u8],
        text_bytes("e"@) == seq![101u8],
        text_bytes("q"@) == seq![113u8],
        text_bytes("r"@) == seq![114u8],
        text_bytes("t"@) == seq![116u8],
        text_bytes("v"@) == seq![118u8],
        text_bytes("y"@) == seq![121u8],
        text_bytes("id"@) == seq![105u8, 100],
        text_bytes("implied_port"@) == seq![
            105u8,
            109,
            112,
            108,
            105,
            101,
            100,
            95,
            112,
            111,
            114,
            116,
        ],
        text_bytes("info_hash"@) == seq![105u8, 110, 102, 111, 95, 104, 97, 115, 104],
        text_bytes("nodes"@) == seq![110u8, 111, 100, 101, 115],
        text_bytes("port"@) == seq![112u8, 111, 114, 116],
        text_bytes("target"@) == seq![116u8, 97, 114, 103, 101, 116],
        text_bytes("token"@) == seq![116u8, 111, 107, 101, 110],
        text_bytes("values"@) == seq![118u8, 97, 108, 117, 101, 115],
        text_bytes("ping"@) == seq![112u8, 105, 110, 103],
        text_bytes("find_node"@) == seq![102u8, 105, 110, 100, 95, 110, 111, 100, 101],
        text_bytes("get_peers"@) == seq![103u8, 101, 116, 95, 112, 101, 101, 114, 115],
        text_bytes("announce_peer"@) == seq![
            97u8,
            110,
            110,
            111,
            117,
            110,
            99,
            101,
            95,
            112,
            101,
            101,
            114,
        ],
{
    lemma_short_names();
    lemma_field_names();
    lemma_method_names();
}

proof fn lemma_ascii(text: Seq<char>)
    requires
        vstd::utf8::is_ascii_chars(text),
    ensures
        text_bytes(text) == Seq::new(text.len(), |i: int| text[i] as u8),
{
    vstd::utf8::is_ascii_chars_encode_utf8(text);
}

proof fn lemma_short_names()
    ensures
        text_bytes("a"@) == seq![97u8],
        text_bytes("e"@) == seq![101u8],
        text_bytes("q"@) == seq![113u8],
        text_bytes("r"@) == seq![114u8],
        text_bytes("t"@) == seq![116u8],
        text_bytes("v"@) == seq![118u8],
        text_bytes("y"@) == seq![121u8],
        text_bytes("id"@) == seq![105u8, 100],
{
    reveal_strlit("a");
    reveal_strlit("e");
    reveal_strlit("q");
    reveal_strlit("r");
    reveal_strlit("t");
    reveal_strlit("v");
    reveal_strlit("y");
    reveal_strlit("id");
    lemma_ascii("a"@);
    lemma_ascii("e"@);
    lemma_ascii("q"@);
    lemma_ascii("r"@);
    lemma_ascii("t"@);
    lemma_ascii("v"@);
    lemma_ascii("y"@);
    lemma_ascii("id"@);
    assert(text_bytes("a"@) =~= seq![97u8]);
    assert(text_bytes("e"@) =~= seq![101u8]);
    assert(text_bytes("q"@) =~= seq![113u8]);
    assert(text_bytes("r"@) =~= seq![114u8]);
    assert(text_bytes("t"@) =~= seq![116u8]);
    assert(text_bytes("v"@) =~= seq![118u8]);
    assert(text_bytes("y"@) =~= seq![121u8]);
    assert(text_bytes("id"@) =~= seq![105u8, 100]);
}

proof fn lemma_field_names()
    ensures
        text_bytes("implied_port"@) == seq![
            105u8,
            109,
            112,
            108,
            105,
            101,
            100,
            95,
            112,
            111,
            114,
            116,
        ],
        text_bytes("info_hash"@) == seq![105u8, 110, 102, 111, 95, 104, 97, 115, 104],
        text_bytes("nodes"@) == seq![110u8, 111, 100, 101, 115],
        text_bytes("port"@) == seq![112u8, 111, 114, 116],
        text_bytes("target"@) == seq![116u8, 97, 114, 103, 101, 116],
        text_bytes("token"@) == seq![116u8, 111, 107, 101, 110],
        text_bytes("values"@) == seq![118u8, 97, 108, 117, 101, 115],
{
    reveal_strlit("implied_port");
    reveal_strlit("info_hash");
    reveal_strlit("nodes");
    reveal_strlit("port");
    reveal_strlit("target");
    reveal_strlit("token");
    reveal_strlit("values");
    lemma_ascii("implied_port"@);
    lemma_ascii("info_hash"@);
    lemma_ascii("nodes"@);
    lemma_ascii("port"@);
    lemma_ascii("target"@);
    lemma_ascii("token"@);
    lemma_ascii("values"@);
    assert(text_bytes("implied_port"@) =~= seq![
        105u8,
        109,
        112,
        108,
        105,
        101,
        100,
        95,
        112,
        111,
        114,
        116,
    ]);
    assert(text_bytes("info_hash"@) =~= seq![105u8, 110, 102, 111, 95, 104, 97, 115, 104]);
    assert(text_bytes("nodes"@) =~= seq![110u8, 111, 100, 101, 115]);
    assert(text_bytes("port"@) =~= seq![112u8, 111, 114, 116]);
    assert(text_bytes("target"@) =~= seq![116u8, 97, 114, 103, 101, 116]);
    assert(text_bytes("token"@) =~= seq![116u8, 111, 107, 101, 110]);
    assert(text_bytes("values"@) =~= seq![118u8, 97, 108, 117, 101, 115]);
}

proof fn lemma_method_names()
    ensures
        text_bytes("ping"@) == seq![112u8, 105, 110, 103],
        text_bytes("find_node"@) == seq![102u8, 105, 110, 100, 95, 110, 111, 100, 101],
        text_bytes("get_peers"@) == seq![103u8, 101, 116, 95, 112, 101, 101, 114, 115],
        text_bytes("announce_peer"@) == seq![
            97u8,
            110,
            110,
            111,
            117,
            110,
            99,
            101,
            95,
            112,
            101,
            101,
            114,
        ],
{
    reveal_strlit("ping");
    reveal_strlit("find_node");
    reveal_strlit("get_peers");
    reveal_strlit("announce_peer");
    lemma_ascii("ping"@);
    lemma_ascii("find_node"@);
    lemma_ascii("get_peers"@);
    lemma_ascii("announce_peer"@);
    assert(text_bytes("ping"@) =~= seq![112u8, 105, 110, 103]);
    assert(text_bytes("find_node"@) =~= seq![102u8, 105, 110, 100, 95, 110, 111, 100, 101]);
    assert(text_bytes("get_peers"@) =~= seq![103u8, 101, 116, 95, 112, 101, 101, 114, 115]);
    assert(text_bytes("announce_peer"@) =~= seq![
        97u8,
        110,
        110,
        111,
        117,
        110,
        99,
        101,
        95,
        112,
        101,
        101,
        114,
    ]);
}

/// The bytes of a text stand for that text.
pub proof fn lemma_text_round_trip(text: Seq<char>)
    ensures
        bytes_text(text_bytes(text)) == Some(text),
        as_text(Some(text_value(text))) == Some(text),
{
    vstd::utf8::encode_utf8_valid_utf8(text);
    vstd::utf8::encode_utf8_decode_utf8(text);
}

/// The entry at `k` is found under its key where no entry before it has
/// that key.
pub proof fn lemma_lookup_at(entries: Seq<(Seq<u8>, BencodeView)>, key: Seq<u8>, k: int)
    requires
        0 <= k < entries.len(),
        entries[k].0 == key,
        forall|j: int| 0 <= j < k ==> (#[trigger] entries[j]).0 != key,
    ensures
        lookup(entries, key) == Some(entries[k].1),
    decreases k,
{
    if k > 0 {
        let rest = entries.subrange(1, entries.len() as int);
        assert(entries[0].0 != key);
        assert forall|j: int| 0 <= j < k - 1 implies (#[trigger] rest[j]).0 != key by {
            assert(rest[j] == entries[j + 1]);
        }
        lemma_lookup_at(rest, key, k - 1);
    }
}

/// Nothing is found under a key that no entry has.
pub proof fn lemma_lookup_absent(entries: Seq<(Seq<u8>, BencodeView)>, key: Seq<u8>)
    requires
        forall|j: int| 0 <= j < entries.len() ==> (#[trigger] entries[j]).0 != key,
    ensures
        lookup(entries, key) is None,
    decreases entries.len(),
{
    if entries.len() > 0 {
        let rest = entries.subrange(1, entries.len() as int);
        assert(entries[0].0 != key);
        assert forall|j: int| 0 <= j < rest.len() implies (#[trigger] rest[j]).0 != key by {
            assert(rest[j] == entries[j + 1]);
        }
        lemma_lookup_absent(rest, key);
    }
}

/// A byte string stands before another where the two first differ in a
/// smaller byte.
pub proof fn lemma_lex_less_at(a: Seq<u8>, b: Seq<u8>, k: int)
    requires
        0 <= k < a.len(),
        k < b.len(),
        forall|j: int| 0 <= j < k ==> a[j] == b[j],
        a[k] < b[k],
    ensures
        lex_less(a, b),
    decreases k,
{
    if k > 0 {
        assert forall|j: int| 0 <= j < k - 1 implies a.skip(1)[j] == b.skip(1)[j] by {
            assert(a.skip(1)[j] == a[j + 1] && b.skip(1)[j] == b[j + 1]);
        }
        lemma_lex_less_at(a.skip(1), b.skip(1), k - 1);
    }
}

/// The keys of the arguments of queries differ from one another and rise
/// in the order in which the arguments are carried.
proof fn lemma_query_keys()
    ensures
        text_bytes("id"@) != text_bytes("implied_port"@),
        text_bytes("id"@) != text_bytes("info_hash"@),
        text_bytes("id"@) != text_bytes("port"@),
        text_bytes("id"@) != text_bytes("target"@),
        text_bytes("id"@) != text_bytes("token"@),
        text_bytes("implied_port"@) != text_bytes("info_hash"@),
        text_bytes("implied_port"@) != text_bytes("port"@),
        text_bytes("implied_port"@) != text_bytes("target"@),
        text_bytes("implied_port"@) != text_bytes("token"@),
        text_bytes("info_hash"@) != text_bytes("port"@),
        text_bytes("info_hash"@) != text_bytes("target"@),
        text_bytes("info_hash"@) != text_bytes("token"@),
        text_bytes("port"@) != text_bytes("target"@),
        text_bytes("port"@) != text_bytes("token"@),
        text_bytes("target"@) != text_bytes("token"@),
        lex_less(text_bytes("id"@), text_bytes("implied_port"@)),
        lex_less(text_bytes("id"@), text_bytes("info_hash"@)),
        lex_less(text_bytes("id"@), text_bytes("target"@)),
        lex_less(text_bytes("implied_port"@), text_bytes("info_hash"@)),
        lex_less(text_bytes("info_hash"@), text_bytes("port"@)),
        lex_less(text_bytes("port"@), text_bytes("token"@)),
{
    lemma_names();
    let id_key = text_bytes("id"@);
    let implied_key = text_bytes("implied_port"@);
    let info_key = text_bytes("info_hash"@);
    let port_key = text_bytes("port"@);
    let target_key = text_bytes("target"@);
    let token_key = text_bytes("token"@);
    assert(id_key[0] == 105 && id_key[1] == 100 && id_key.len() == 2);
    assert(implied_key[0] == 105 && implied_key[1] == 109 && implied_key.len() == 12);
    assert(info_key[0] == 105 && info_key[1] == 110 && info_key.len() == 9);
    assert(port_key[0] == 112 && port_key.len() == 4);
    assert(target_key[0] == 116 && target_key[1] == 97 && target_key.len() == 6);
    assert(token_key[0] == 116 && token_key[1] == 111 && token_key.len() == 5);
    lemma_lex_less_at(id_key, implied_key, 1);
    lemma_lex_less_at(id_key, info_key, 1);
    lemma_lex_less_at(implied_key, info_key, 1);
    lemma_lex_less_at(info_key, port_key, 0);
    lemma_lex_less_at(port_key, token_key, 0);
    lemma_lex_less_at(id_key, target_key, 0);
}

/// The keys of the values of responses differ from one another and rise
/// in the order in which the values are carried.
proof fn lemma_response_keys()
    ensures
        text_bytes("id"@) != text_bytes("nodes"@),
        text_bytes("id"@) != text_bytes("token"@),
        text_bytes("id"@) != text_bytes("values"@),
        text_bytes("nodes"@) != text_bytes("token"@),
        text_bytes("nodes"@) != text_bytes("values"@),
        text_bytes("token"@) != text_bytes("values"@),
        lex_less(text_bytes("id"@), text_bytes("nodes"@)),
        lex_less(text_bytes("id"@), text_bytes("token"@)),
        lex_less(text_bytes("nodes"@), text_bytes("token"@)),
        lex_less(text_bytes("token"@), text_bytes("values"@)),
{
    lemma_names();
    let id_key = text_bytes("id"@);
    let nodes_key = text_bytes("nodes"@);
    let token_key = text_bytes("token"@);
    let values_key = text_bytes("values"@);
    assert(id_key[0] == 105 && nodes_key[0] == 110 && token_key[0] == 116 && values_key[0] == 118);
    lemma_lex_less_at(id_key, nodes_key, 0);
    lemma_lex_less_at(id_key, token_key, 0);
    lemma_lex_less_at(nodes_key, token_key, 0);
    lemma_lex_less_at(token_key, values_key, 0);
}

/// One entry is found under its key, and nothing under another.
proof fn lemma_one_entry(first: (Seq<u8>, BencodeView))
    ensures
        lookup(seq![first], first.0) == Some(first.1),
        forall|key: Seq<u8>| key != first.0 ==> lookup(seq![first], key) is None,
{
    let entries = seq![first];
    lemma_lookup_at(entries, first.0, 0);
    assert forall|key: Seq<u8>| key != first.0 implies lookup(entries, key) is None by {
        lemma_lookup_absent(entries, key);
    }
}

/// The keys of entries rise strictly where each key stands before the
/// next.
pub open spec fn rising(entries: Seq<(Seq<u8>, BencodeView)>) -> bool {
    forall|k: int| 0 < k < entries.len() ==> lex_less(entries[k - 1].0, (#[trigger] entries[k]).0)
}

/// Whether every value of the entries is canonical.
pub open spec fn canonical_values(entries: Seq<(Seq<u8>, BencodeView)>, depth: nat) -> bool {
    forall|k: int| 0 <= k < entries.len() ==> canonical((#[trigger] entries[k]).1, depth)
}

proof fn lemma_ping_round_trip(id: Seq<char>)
    ensures
        query_of(query_entries(QueryView::Ping { id })) == Some(QueryView::Ping { id }),
        rising(query_entries(QueryView::Ping { id })),
{
    lemma_query_keys();
    lemma_text_round_trip(id);
    lemma_one_entry(entry("id"@, text_value(id)));
}

proof fn lemma_find_node_round_trip(id: Seq<char>, target: Seq<char>)
    ensures
        query_of(query_entries(QueryView::FindNode { id, target })) == Some(
            QueryView::FindNode { id, target },
        ),
        rising(query_entries(QueryView::FindNode { id, target })),
{
    lemma_query_keys();
    lemma_text_round_trip(id);
    lemma_text_round_trip(target);
    let a = query_entries(QueryView::FindNode { id, target });
    lemma_lookup_at(a, text_bytes("id"@), 0);
    lemma_lookup_at(a, text_bytes("target"@), 1);
}

proof fn lemma_get_peers_round_trip(id: Seq<char>, info_hash: Seq<char>)
    ensures
        query_of(query_entries(QueryView::GetPeers { id, info_hash })) == Some(
            QueryView::GetPeers { id, info_hash },
        ),
        rising(query_entries(QueryView::GetPeers { id, info_hash })),
{
    lemma_query_keys();
    lemma_text_round_trip(id);
    lemma_text_round_trip(info_hash);
    let a = query_entries(QueryView::GetPeers { id, info_hash });
    lemma_lookup_at(a, text_bytes("id"@), 0);
    lemma_lookup_at(a, text_bytes("info_hash"@), 1);
    lemma_lookup_absent(a, text_bytes("target"@));
    lemma_lookup_absent(a, text_bytes("port"@));
}

proof fn lemma_announce_round_trip(
    id: Seq<char>,
    implied_port: Option<bool>,
    port: u16,
    token: Seq<char>,
    info_hash: Seq<char>,
)
    ensures
        query_of(query_entries(QueryView::AnnouncePeer { id, implied_port, port, token, info_hash }))
            == Some(QueryView::AnnouncePeer { id, implied_port, port, token, info_hash }),
        rising(query_entries(QueryView::AnnouncePeer { id, implied_port, port, token, info_hash })),
{
    lemma_query_keys();
    lemma_text_round_trip(id);
    lemma_text_round_trip(info_hash);
    lemma_text_round_trip(token);
    let a = query_entries(QueryView::AnnouncePeer { id, implied_port, port, token, info_hash });
    match implied_port {
        Some(implied) => {
            lemma_lookup_absent(a, text_bytes("target"@));
            lemma_lookup_at(a, text_bytes("id"@), 0);
            lemma_lookup_at(a, text_bytes("implied_port"@), 1);
            lemma_lookup_at(a, text_bytes("info_hash"@), 2);
            lemma_lookup_at(a, text_bytes("port"@), 3);
            lemma_lookup_at(a, text_bytes("token"@), 4);
        },
        None => {
            lemma_lookup_absent(a, text_bytes("target"@));
            lemma_lookup_at(a, text_bytes("id"@), 0);
            lemma_lookup_absent(a, text_bytes("implied_port"@));
            lemma_lookup_at(a, text_bytes("info_hash"@), 1);
            lemma_lookup_at(a, text_bytes("port"@), 2);
            lemma_lookup_at(a, text_bytes("token"@), 3);
        },
    }
}

/// The arguments that a query is carried as are read as the query, and
/// are canonical.
pub proof fn lemma_query_round_trip(query: QueryView, depth: nat)
    requires
        depth > 0,
    ensures
        query_of(query_entries(query)) == Some(query),
        canonical(BencodeView::Dict(query_entries(query)), depth),
{
    match query {
        QueryView::Ping { id } => {
            lemma_ping_round_trip(id);
        },
        QueryView::FindNode { id, target } => {
            lemma_find_node_round_trip(id, target);
        },
        QueryView::GetPeers { id, info_hash } => {
            lemma_get_peers_round_trip(id, info_hash);
        },
        QueryView::AnnouncePeer { id, implied_port, port, token, info_hash } => {
            lemma_announce_round_trip(id, implied_port, port, token, info_hash);
        },
    }
    assert(rising(query_entries(query)));
    assert(canonical_values(query_entries(query), (depth - 1) as nat));
}

proof fn lemma_found_peers_round_trip(id: Seq<char>, token: Seq<char>, values: Seq<Seq<u8>>)
    ensures
        response_of(response_entries(ResponseView::FoundPeers { id, token, values })) == Some(
            ResponseView::FoundPeers { id, token, values },
        ),
        rising(response_entries(ResponseView::FoundPeers { id, token, values })),
{
    lemma_response_keys();
    lemma_text_round_trip(id);
    lemma_text_round_trip(token);
    let r = response_entries(ResponseView::FoundPeers { id, token, values });
    lemma_lookup_at(r, text_bytes("id"@), 0);
    lemma_lookup_at(r, text_bytes("token"@), 1);
    lemma_lookup_at(r, text_bytes("values"@), 2);
    assert(bytes_of_items(items_of_bytes(values)) =~= values);
    assert(all_bytes(items_of_bytes(values)));
}

proof fn lemma_found_peer_nodes_round_trip(id: Seq<char>, token: Seq<char>, nodes: Seq<u8>)
    ensures
        response_of(response_entries(ResponseView::FoundPeerNodes { id, token, nodes })) == Some(
            ResponseView::FoundPeerNodes { id, token, nodes },
        ),
        rising(response_entries(ResponseView::FoundPeerNodes { id, token, nodes })),
{
    lemma_response_keys();
    lemma_text_round_trip(id);
    lemma_text_round_trip(token);
    let r = response_entries(ResponseView::FoundPeerNodes { id, token, nodes });
    lemma_lookup_at(r, text_bytes("id"@), 0);
    lemma_lookup_at(r, text_bytes("nodes"@), 1);
    lemma_lookup_at(r, text_bytes("token"@), 2);
    lemma_lookup_absent(r, text_bytes("values"@));
}

proof fn lemma_found_nodes_round_trip(id: Seq<char>, nodes: Seq<u8>)
    ensures
        response_of(response_entries(ResponseView::FoundNodes { id, nodes })) == Some(
            ResponseView::FoundNodes { id, nodes },
        ),
        rising(response_entries(ResponseView::FoundNodes { id, nodes })),
{
    lemma_response_keys();
    lemma_text_round_trip(id);
    let r = response_entries(ResponseView::FoundNodes { id, nodes });
    lemma_lookup_at(r, text_bytes("id"@), 0);
    lemma_lookup_at(r, text_bytes("nodes"@), 1);
    lemma_lookup_absent(r, text_bytes("token"@));
}

proof fn lemma_empty_round_trip(id: Seq<char>)
    ensures
        response_of(response_entries(ResponseView::Empty { id })) == Some(
            ResponseView::Empty { id },
        ),
        rising(response_entries(ResponseView::Empty { id })),
{
    lemma_response_keys();
    lemma_text_round_trip(id);
    lemma_one_entry(entry("id"@, text_value(id)));
}

/// The values that a response is carried as are read as the response,
/// and are canonical.
pub proof fn lemma_response_round_trip(response: ResponseView, depth: nat)
    requires
        depth > 1,
    ensures
        response_of(response_entries(response)) == Some(response),
        canonical(BencodeView::Dict(response_entries(response)), depth),
{
    match response {
        ResponseView::FoundPeers { id, token, values } => {
            lemma_found_peers_round_trip(id, token, values);
            let items = items_of_bytes(values);
            assert forall|k: int| 0 <= k < items.len() implies canonical(
                #[trigger] items[k],
                (depth - 2) as nat,
            ) by {
                assert(items[k] == BencodeView::Bytes(values[k]));
            }
            assert(canonical(BencodeView::List(items), (depth - 1) as nat));
        },
        ResponseView::FoundPeerNodes { id, token, nodes } => {
            lemma_found_peer_nodes_round_trip(id, token, nodes);
        },
        ResponseView::FoundNodes { id, nodes } => {
            lemma_found_nodes_round_trip(id, nodes);
        },
        ResponseView::Empty { id } => {
            lemma_empty_round_trip(id);
        },
    }
    assert(rising(response_entries(response)));
    assert(canonical_values(response_entries(response), (depth - 1) as nat));
}

/// The items that an error is carried as are read as the error, and are
/// canonical.
pub proof fn lemma_error_round_trip(error: ErrorView, depth: nat)
    requires
        depth > 0,
    ensures
        error_of(error_items(error)) == Some(error),
        canonical(BencodeView::List(error_items(error)), depth),
{
    lemma_text_round_trip(error.message);
    let items = error_items(error);
    assert(items[0] == BencodeView::Int(error.code as int));
    assert(items[1] == text_value(error.message));
    assert forall|k: int| 0 <= k < items.len() implies canonical(
        #[trigger] items[k],
        (depth - 1) as nat,
    ) by {
        if k == 0 {
        } else {
            assert(k == 1);
        }
    }
}

/// The first entries of a message together with the entries for the
/// sender's software and the kind are found under their keys, and their
/// keys rise strictly.
proof fn lemma_top_entries(
    head: Seq<(Seq<u8>, BencodeView)>,
    client: Option<Seq<char>>,
    kind: Seq<char>,
    depth: nat,
)
    requires
        depth > 0,
        head.len() >= 1,
        head.last().0 == text_bytes("t"@),
        forall|k: int| 0 <= k < head.len() - 1 ==> (#[trigger] head[k]).0[0] < 116,
        forall|k: int| 0 <= k < head.len() ==> (#[trigger] head[k]).0.len() == 1,
        forall|k: int| 0 < k < head.len() ==> head[k - 1].0[0] < (#[trigger] head[k]).0[0],
        forall|k: int| 0 <= k < head.len() ==> canonical((#[trigger] head[k]).1, (depth - 1) as nat),
    ensures
        ({
            let top = head + client_entries(client) + seq![entry("y"@, text_value(kind))];
            &&& forall|k: int| 0 <= k < head.len() ==> lookup(top, (#[trigger] head[k]).0) == Some(head[k].1)
            &&& forall|key: Seq<u8>|
                key.len() == 1 && key[0] < 118 && (forall|k: int|
                    0 <= k < head.len() ==> (#[trigger] head[k]).0 != key) ==> lookup(top, key)
                    is None
            &&& client_of(top) == Some(client)
            &&& as_bytes(field(top, "y"@)) == Some(text_bytes(kind))
            &&& canonical(BencodeView::Dict(top), depth)
        }),
{
    lemma_names();
    let top = head + client_entries(client) + seq![entry("y"@, text_value(kind))];
    let v_key = text_bytes("v"@);
    let y_key = text_bytes("y"@);
    assert(v_key[0] == 118 && y_key[0] == 121);
    assert forall|k: int| 0 <= k < head.len() implies top[k] == head[k] by {}
    assert forall|k: int| 0 <= k < head.len() implies (#[trigger] head[k]).0[0] <= 116 by {
        if k < head.len() - 1 {
        } else {
            assert(head[k].0 == text_bytes("t"@));
        }
    }
    assert forall|k: int| 0 <= k < head.len() implies lookup(top, (#[trigger] head[k]).0) == Some(
        head[k].1,
    ) by {
        assert forall|j: int| 0 <= j < k implies (#[trigger] top[j]).0 != head[k].0 by {
            lemma_rising(head, j, k);
        }
        lemma_lookup_at(top, head[k].0, k);
    }
    assert forall|key: Seq<u8>|
        key.len() == 1 && key[0] < 118 && (forall|k: int|
            0 <= k < head.len() ==> (#[trigger] head[k]).0 != key) implies lookup(top, key)
        is None by {
        assert forall|j: int| 0 <= j < top.len() implies (#[trigger] top[j]).0 != key by {
            if j < head.len() {
                assert(top[j] == head[j]);
            } else {
                assert(top[j].0[0] >= 118);
            }
        }
        lemma_lookup_absent(top, key);
    }
    assert forall|j: int| 0 <= j < head.len() implies (#[trigger] top[j]).0 != v_key && top[j].0
        != y_key by {
        assert(top[j] == head[j]);
        assert(head[j].0[0] <= 116);
    }
    match client {
        Some(text) => {
            lemma_text_round_trip(text);
            lemma_lookup_at(top, v_key, head.len() as int);
            lemma_lookup_at(top, y_key, head.len() as int + 1);
            lemma_lex_less_at(v_key, y_key, 0);
            lemma_lex_less_at(head.last().0, v_key, 0);
        },
        None => {
            lemma_lookup_absent(top, v_key);
            lemma_lookup_at(top, y_key, head.len() as int);
            lemma_lex_less_at(head.last().0, y_key, 0);
        },
    }
    assert forall|k: int| 0 < k < top.len() implies lex_less(top[k - 1].0, (#[trigger] top[k]).0) by {
        if k < head.len() {
            assert(top[k] == head[k] && top[k - 1] == head[k - 1]);
            lemma_lex_less_at(head[k - 1].0, head[k].0, 0);
        }
    }
    assert forall|k: int| 0 <= k < top.len() implies canonical(
        (#[trigger] top[k]).1,
        (depth - 1) as nat,
    ) by {
        if k < head.len() {
            assert(top[k] == head[k]);
        }
    }
}

/// Keys that rise from one entry to the next differ from one another.
proof fn lemma_rising(head: Seq<(Seq<u8>, BencodeView)>, j: int, k: int)
    requires
        0 <= j < k < head.len(),
        forall|i: int| 0 < i < head.len() ==> head[i - 1].0[0] < (#[trigger] head[i]).0[0],
    ensures
        head[j].0[0] < head[k].0[0],
    decreases k - j,
{
    if j + 1 < k {
        lemma_rising(head, j, k - 1);
    }
    assert(head[k - 1].0[0] < head[k].0[0]);
}

/// The bytes of the keys of a message.
proof fn lemma_top_keys()
    ensures
        text_bytes("a"@) == seq![97u8],
        text_bytes("e"@) == seq![101u8],
        text_bytes("q"@) == seq![113u8],
        text_bytes("r"@) == seq![114u8],
        text_bytes("t"@) == seq![116u8],
        text_bytes("y"@) == seq![121u8],
        known_method(text_bytes("ping"@)),
        known_method(text_bytes("find_node"@)),
        known_method(text_bytes("get_peers"@)),
        known_method(text_bytes("announce_peer"@)),
        text_bytes("q"@) != text_bytes("r"@),
        text_bytes("q"@) != text_bytes("e"@),
        text_bytes("r"@) != text_bytes("e"@),
{
    lemma_short_names();
    assert(text_bytes("q"@)[0] == 113 && text_bytes("r"@)[0] == 114 && text_bytes("e"@)[0] == 101);
}

proof fn lemma_query_message(id: Seq<char>, client: Option<Seq<char>>, args: QueryView)
    ensures
        message_of_value(value_of_message(MessageView::Query { id, client, args })) == Ok::<
            MessageView,
            WireError,
        >(MessageView::Query { id, client, args }),
        canonical(value_of_message(MessageView::Query { id, client, args }), MAX_DEPTH as nat),
{
    lemma_top_keys();
    let depth = MAX_DEPTH as nat;
    let head = seq![
        entry("a"@, BencodeView::Dict(query_entries(args))),
        entry("q"@, text_value(method_of(args))),
        entry("t"@, text_value(id)),
    ];
    lemma_query_round_trip(args, (depth - 1) as nat);
    lemma_text_round_trip(id);
    assert(head[0].0 == seq![97u8] && head[1].0 == seq![113u8] && head[2].0 == seq![116u8]);
    lemma_top_entries(head, client, "q"@, depth);
    let top = head + client_entries(client) + seq![entry("y"@, text_value("q"@))];
    assert(lookup(top, head[0].0) == Some(head[0].1));
    assert(lookup(top, head[1].0) == Some(head[1].1));
    assert(lookup(top, head[2].0) == Some(head[2].1));
}

proof fn lemma_response_message(id: Seq<char>, client: Option<Seq<char>>, response: ResponseView)
    ensures
        message_of_value(value_of_message(MessageView::Response { id, client, response })) == Ok::<
            MessageView,
            WireError,
        >(MessageView::Response { id, client, response }),
        canonical(
            value_of_message(MessageView::Response { id, client, response }),
            MAX_DEPTH as nat,
        ),
{
    lemma_top_keys();
    let depth = MAX_DEPTH as nat;
    let head = seq![
        entry("r"@, BencodeView::Dict(response_entries(response))),
        entry("t"@, text_value(id)),
    ];
    lemma_response_round_trip(response, (depth - 1) as nat);
    lemma_text_round_trip(id);
    assert(head[0].0 == seq![114u8] && head[1].0 == seq![116u8]);
    lemma_top_entries(head, client, "r"@, depth);
    let top = head + client_entries(client) + seq![entry("y"@, text_value("r"@))];
    assert(lookup(top, head[0].0) == Some(head[0].1));
    assert(lookup(top, head[1].0) == Some(head[1].1));
}

proof fn lemma_error_message(id: Seq<char>, client: Option<Seq<char>>, error: ErrorView)
    ensures
        message_of_value(value_of_message(MessageView::Error { id, client, error })) == Ok::<
            MessageView,
            WireError,
        >(MessageView::Error { id, client, error }),
        canonical(value_of_message(MessageView::Error { id, client, error }), MAX_DEPTH as nat),
{
    lemma_top_keys();
    let depth = MAX_DEPTH as nat;
    let head = seq![
        entry("e"@, BencodeView::List(error_items(error))),
        entry("t"@, text_value(id)),
    ];
    lemma_error_round_trip(error, (depth - 1) as nat);
    lemma_text_round_trip(id);
    assert(head[0].0 == seq![101u8] && head[1].0 == seq![116u8]);
    lemma_top_entries(head, client, "e"@, depth);
    let top = head + client_entries(client) + seq![entry("y"@, text_value("e"@))];
    assert(lookup(top, head[0].0) == Some(head[0].1));
    assert(lookup(top, head[1].0) == Some(head[1].1));
}

/// The value that a message is carried as is read as the message, and is
/// canonical.
pub proof fn lemma_message_of_value(message: MessageView)
    ensures
        message_of_value(value_of_message(message)) == Ok::<MessageView, WireError>(message),
        canonical(value_of_message(message), MAX_DEPTH as nat),
{
    match message {
        MessageView::Query { id, client, args } => {
            lemma_query_message(id, client, args);
        },
        MessageView::Response { id, client, response } => {
            lemma_response_message(id, client, response);
        },
        MessageView::Error { id, client, error } => {
            lemma_error_message(id, client, error);
        },
    }
}

/// Reading the wire form of a message gives the message.
pub proof fn lemma_message_round_trip(message: MessageView)
    ensures
        message_of(wire_form(message)) == Ok::<MessageView, WireError>(message),
{
    lemma_message_of_value(message);
    crate::structs::bencode::lemma_decoding_of_encoding(value_of_message(message));
}

/// The error of `String::from_utf8`.
#[verifier::external_type_specification]
#[verifier::external_body]
pub struct ExFromUtf8Error(std::string::FromUtf8Error);

/// `String::from_utf8` turns bytes into a string without copying them. It
/// succeeds exactly on valid UTF-8, and the string then has these bytes.
pub assume_specification[ String::from_utf8 ](vec: Vec<u8>) -> (r: Result<
    String,
    std::string::FromUtf8Error,
>)
    ensures
        r is Ok <==> valid_utf8(vec@),
        r is Ok ==> text_bytes(r.unwrap()@) == vec@,
;

/// Why bytes were not read as a message.
#[derive(Debug)]
pub enum ParseError {
    /// The bytes are not the wire form of a bencode value.
    NotBencode,
    /// The value is not a message of the schema.
    NotAMessage,
    /// The value is a query whose method is none of the four; `id` is its
    /// transaction.
    UnknownMethod { id: String },
}

impl View for ParseError {
    type V = WireError;

    open spec fn view(&self) -> WireError {
        match self {
            ParseError::NotBencode => WireError::NotBencode,
            ParseError::NotAMessage => WireError::NotAMessage,
            ParseError::UnknownMethod { id } => WireError::UnknownMethod { id: id@ },
        }
    }
}

/// What was read, as plain values.
pub open spec fn read_view(r: Result<Message, ParseError>) -> Result<MessageView, WireError> {
    match r {
        Ok(message) => Ok(message@),
        Err(error) => Err(error@),
    }
}

/// The value that was found, as plain values.
pub open spec fn found_view(found: Option<&Bencode>) -> Option<BencodeView> {
    match found {
        Some(value) => Some(value@),
        None => None,
    }
}

/// A copy of the bytes.
pub fn copy_of(bytes: &[u8]) -> (copy: Vec<u8>)
    ensures
        copy@ == bytes@,
{
    let mut copy: Vec<u8> = Vec::new();
    let mut k: usize = 0;
    while k < bytes.len()
        invariant
            k <= bytes@.len(),
            copy@ == bytes@.take(k as int),
        decreases bytes@.len() - k,
    {
        copy.push(bytes[k]);
        assert(copy@ =~= bytes@.take(k + 1));
        k += 1;
    }
    assert(bytes@.take(k as int) =~= bytes@);
    copy
}

/// Whether two slices hold the same bytes.
pub fn same_bytes(a: &[u8], b: &[u8]) -> (same: bool)
    ensures
        same == (a@ == b@),
{
    if a.len() != b.len() {
        return false;
    }
    let mut k: usize = 0;
    while k < a.len()
        invariant
            k <= a@.len(),
            a@.len() == b@.len(),
            forall|j: int| 0 <= j < k ==> a@[j] == b@[j],
        decreases a@.len() - k,
    {
        if a[k] != b[k] {
            return false;
        }
        k += 1;
    }
    assert(a@ =~= b@);
    true
}

/// The text that the bytes stand for, where they stand for one.
pub fn text_of_bytes(bytes: &[u8]) -> (text: Option<String>)
    ensures
        crate::structs::message::text_of(text) == bytes_text(bytes@),
{
    match String::from_utf8(copy_of(bytes)) {
        Ok(text) => {
            proof {
                vstd::utf8::encode_utf8_decode_utf8(text@);
            }
            Some(text)
        },
        Err(_) => None,
    }
}

/// The value of the first entry under the key.
fn find<'a>(entries: &'a Vec<(Vec<u8>, Bencode)>, name: &str) -> (found: Option<&'a Bencode>)
    ensures
        found_view(found) == field(entry_views(entries@), name@),
{
    let key = name.as_bytes();
    let ghost all = entry_views(entries@);
    proof {
        lemma_entry_views(entries@);
        assert(all.subrange(0, all.len() as int) =~= all);
    }
    let mut k: usize = 0;
    while k < entries.len()
        invariant
            k <= entries@.len(),
            all == entry_views(entries@),
            all.len() == entries@.len(),
            key@ == text_bytes(name@),
            forall|j: int| 0 <= j < entries@.len() ==> #[trigger] all[j] == (
                entries@[j].0@,
                entries@[j].1@,
            ),
            lookup(all, key@) == lookup(all.subrange(k as int, all.len() as int), key@),
        decreases entries@.len() - k,
    {
        let ghost here = all.subrange(k as int, all.len() as int);
        assert(here[0] == all[k as int]);
        if same_bytes(entries[k].0.as_slice(), key) {
            return Some(&entries[k].1);
        }
        assert(here.subrange(1, here.len() as int) =~= all.subrange(k + 1, all.len() as int));
        k += 1;
    }
    None
}

/// The text under the key, where it holds one.
fn find_text(entries: &Vec<(Vec<u8>, Bencode)>, name: &str) -> (text: Option<String>)
    ensures
        crate::structs::message::text_of(text) == as_text(field(entry_views(entries@), name@)),
{
    match find(entries, name) {
        Some(Bencode::Bytes(bytes)) => text_of_bytes(bytes.as_slice()),
        _ => None,
    }
}

/// The bytes under the key, where it holds a byte string.
fn find_bytes<'a>(entries: &'a Vec<(Vec<u8>, Bencode)>, name: &str) -> (bytes: Option<&'a Vec<u8>>)
    ensures
        match bytes {
            Some(bytes) => as_bytes(field(entry_views(entries@), name@)) == Some(bytes@),
            None => as_bytes(field(entry_views(entries@), name@)) is None,
        },
{
    match find(entries, name) {
        Some(Bencode::Bytes(bytes)) => Some(bytes),
        _ => None,
    }
}

/// The integer under the key, where it holds one.
fn find_int(entries: &Vec<(Vec<u8>, Bencode)>, name: &str) -> (value: Option<i64>)
    ensures
        match value {
            Some(value) => as_int(field(entry_views(entries@), name@)) == Some(value as int),
            None => as_int(field(entry_views(entries@), name@)) is None,
        },
{
    match find(entries, name) {
        Some(Bencode::Int(value)) => Some(*value),
        _ => None,
    }
}

/// The entries under the key, where it holds a dictionary.
fn find_dict<'a>(entries: &'a Vec<(Vec<u8>, Bencode)>, name: &str) -> (dict: Option<
    &'a Vec<(Vec<u8>, Bencode)>,
>)
    ensures
        match dict {
            Some(dict) => as_dict(field(entry_views(entries@), name@)) == Some(entry_views(dict@)),
            None => as_dict(field(entry_views(entries@), name@)) is None,
        },
{
    match find(entries, name) {
        Some(Bencode::Dict(dict)) => Some(dict),
        _ => None,
    }
}

/// The items under the key, where it holds a list.
fn find_list<'a>(entries: &'a Vec<(Vec<u8>, Bencode)>, name: &str) -> (list: Option<
    &'a Vec<Bencode>,
>)
    ensures
        match list {
            Some(list) => as_list(field(entry_views(entries@), name@)) == Some(item_views(list@)),
            None => as_list(field(entry_views(entries@), name@)) is None,
        },
{
    match find(entries, name) {
        Some(Bencode::List(list)) => Some(list),
        _ => None,
    }
}

/// An entry that holds a text.
fn text_entry(name: &str, text: &String) -> (e: (Vec<u8>, Bencode))
    ensures
        (e.0@, e.1@) == entry(name@, text_value(text@)),
{
    (copy_of(name.as_bytes()), Bencode::Bytes(copy_of(text.as_str().as_bytes())))
}

/// An entry that holds a value.
fn value_entry(name: &str, value: Bencode) -> (e: (Vec<u8>, Bencode))
    ensures
        (e.0@, e.1@) == entry(name@, value@),
{
    (copy_of(name.as_bytes()), value)
}

/// The views of entries that were put together one by one.
proof fn lemma_entries_are(entries: Seq<(Vec<u8>, Bencode)>, views: Seq<(Seq<u8>, BencodeView)>)
    requires
        entries.len() == views.len(),
        forall|k: int| 0 <= k < entries.len() ==> (entries[k].0@, entries[k].1@) == #[trigger] views[k],
    ensures
        entry_views(entries) == views,
{
    lemma_entry_views(entries);
    assert(entry_views(entries) =~= views);
}

impl Query {
    /// The name of the method of the query.
    pub fn method(&self) -> (name: &'static str)
        ensures
            name@ == method_of(self@),
    {
        match self {
            Query::Ping { .. } => "ping",
            Query::FindNode { .. } => "find_node",
            Query::GetPeers { .. } => "get_peers",
            Query::AnnouncePeer { .. } => "announce_peer",
        }
    }

    /// The entries under which the query carries its arguments.
    fn to_entries(&self) -> (entries: Vec<(Vec<u8>, Bencode)>)
        ensures
            entry_views(entries@) == query_entries(self@),
    {
        let mut entries: Vec<(Vec<u8>, Bencode)> = Vec::new();
        match self {
            Query::Ping { id } => {
                entries.push(text_entry("id", id));
            },
            Query::FindNode { id, target } => {
                entries.push(text_entry("id", id));
                entries.push(text_entry("target", target));
            },
            Query::GetPeers { id, info_hash } => {
                entries.push(text_entry("id", id));
                entries.push(text_entry("info_hash", info_hash));
            },
            Query::AnnouncePeer { id, implied_port, port, token, info_hash } => {
                entries.push(text_entry("id", id));
                match implied_port {
                    Some(implied) => {
                        let flag: i64 = if *implied {
                            1
                        } else {
                            0
                        };
                        entries.push(value_entry("implied_port", Bencode::Int(flag)));
                    },
                    None => {},
                }
                entries.push(text_entry("info_hash", info_hash));
                entries.push(value_entry("port", Bencode::Int(*port as i64)));
                entries.push(text_entry("token", token));
            },
        }
        proof {
            lemma_entries_are(entries@, query_entries(self@));
        }
        entries
    }

    /// The query that the arguments are.
    fn from_entries(a: &Vec<(Vec<u8>, Bencode)>) -> (query: Option<Query>)
        ensures
            match query {
                Some(query) => query_of(entry_views(a@)) == Some(query@),
                None => query_of(entry_views(a@)) is None,
            },
    {
        let id = match find_text(a, "id") {
            Some(id) => id,
            None => {
                return None;
            },
        };
        if let Some(target) = find_text(a, "target") {
            return Some(Query::FindNode { id, target });
        }
        let info_hash = match find_text(a, "info_hash") {
            Some(info_hash) => info_hash,
            None => {
                return Some(Query::Ping { id });
            },
        };
        let implied_port = match find(a, "implied_port") {
            None => Some(None),
            Some(Bencode::Int(flag)) => Some(Some(*flag != 0)),
            Some(_) => None,
        };
        let port = find_int(a, "port");
        let token = find_text(a, "token");
        match (implied_port, port, token) {
            (Some(implied_port), Some(port), Some(token)) => {
                if 0 <= port && port <= 0xffff {
                    return Some(
                        Query::AnnouncePeer { id, implied_port, port: port as u16, token, info_hash },
                    );
                }
            },
            _ => {},
        }
        Some(Query::GetPeers { id, info_hash })
    }
}

impl Response {
    /// The entries under which the response carries its values.
    fn to_entries(&self) -> (entries: Vec<(Vec<u8>, Bencode)>)
        ensures
            entry_views(entries@) == response_entries(self@),
    {
        let mut entries: Vec<(Vec<u8>, Bencode)> = Vec::new();
        match self {
            Response::FoundPeers { id, token, values } => {
                entries.push(text_entry("id", id));
                entries.push(text_entry("token", token));
                let mut items: Vec<Bencode> = Vec::new();
                let mut k: usize = 0;
                while k < values.len()
                    invariant
                        k <= values@.len(),
                        items@.len() == k,
                        forall|j: int| 0 <= j < k ==> (#[trigger] items@[j])@ == BencodeView::Bytes(
                            values@[j]@,
                        ),
                    decreases values@.len() - k,
                {
                    items.push(Bencode::Bytes(copy_of(values[k].as_slice())));
                    k += 1;
                }
                proof {
                    lemma_item_views(items@);
                    assert(item_views(items@) =~= items_of_bytes(byte_strings(values@)));
                }
                entries.push(value_entry("values", Bencode::List(items)));
            },
            Response::FoundPeerNodes { id, token, nodes } => {
                entries.push(text_entry("id", id));
                entries.push(value_entry("nodes", Bencode::Bytes(copy_of(nodes.as_slice()))));
                entries.push(text_entry("token", token));
            },
            Response::FoundNodes { id, nodes } => {
                entries.push(text_entry("id", id));
                entries.push(value_entry("nodes", Bencode::Bytes(copy_of(nodes.as_slice()))));
            },
            Response::Empty { id } => {
                entries.push(text_entry("id", id));
            },
        }
        proof {
            lemma_entries_are(entries@, response_entries(self@));
        }
        entries
    }

    /// The byte strings that the items are, where all of them are byte
    /// strings.
    fn byte_strings_in(items: &Vec<Bencode>) -> (values: Option<Vec<Vec<u8>>>)
        ensures
            match values {
                Some(values) => all_bytes(item_views(items@)) && byte_strings(values@)
                    == bytes_of_items(item_views(items@)),
                None => !all_bytes(item_views(items@)),
            },
    {
        proof {
            lemma_item_views(items@);
        }
        let mut values: Vec<Vec<u8>> = Vec::new();
        let mut k: usize = 0;
        while k < items.len()
            invariant
                k <= items@.len(),
                values@.len() == k,
                item_views(items@).len() == items@.len(),
                forall|j: int| 0 <= j < items@.len() ==> #[trigger] item_views(items@)[j] == items@[j]@,
                forall|j: int| 0 <= j < k ==> (#[trigger] item_views(items@)[j]) is Bytes,
                forall|j: int| 0 <= j < k ==> (#[trigger] values@[j])@ == item_views(
                    items@,
                )[j]->Bytes_0,
            decreases items@.len() - k,
        {
            match &items[k] {
                Bencode::Bytes(bytes) => {
                    values.push(copy_of(bytes.as_slice()));
                },
                _ => {
                    assert(!(item_views(items@)[k as int] is Bytes));
                    return None;
                },
            }
            k += 1;
        }
        assert(byte_strings(values@) =~= bytes_of_items(item_views(items@)));
        Some(values)
    }

    /// The response that the values are.
    fn from_entries(r: &Vec<(Vec<u8>, Bencode)>) -> (response: Option<Response>)
        ensures
            match response {
                Some(response) => response_of(entry_views(r@)) == Some(response@),
                None => response_of(entry_views(r@)) is None,
            },
    {
        let id = match find_text(r, "id") {
            Some(id) => id,
            None => {
                return None;
            },
        };
        let nodes = find_bytes(r, "nodes");
        match find_text(r, "token") {
            Some(token) => {
                if let Some(items) = find_list(r, "values") {
                    if let Some(values) = Response::byte_strings_in(items) {
                        return Some(Response::FoundPeers { id, token, values });
                    }
                }
                match nodes {
                    Some(nodes) => Some(
                        Response::FoundPeerNodes { id, token, nodes: copy_of(nodes.as_slice()) },
                    ),
                    None => Some(Response::Empty { id }),
                }
            },
            None => match nodes {
                Some(nodes) => Some(Response::FoundNodes { id, nodes: copy_of(nodes.as_slice()) }),
                None => Some(Response::Empty { id }),
            },
        }
    }
}

impl ErrorResponse {
    /// The items that the error is carried as.
    fn to_items(&self) -> (items: Vec<Bencode>)
        ensures
            item_views(items@) == error_items(self@),
    {
        let mut items: Vec<Bencode> = Vec::new();
        items.push(Bencode::Int(self.0 as i64));
        items.push(Bencode::Bytes(copy_of(self.1.as_str().as_bytes())));
        proof {
            lemma_item_views(items@);
            assert(item_views(items@) =~= error_items(self@));
        }
        items
    }

    /// The error that the items are.
    fn from_items(items: &Vec<Bencode>) -> (error: Option<ErrorResponse>)
        ensures
            match error {
                Some(error) => error_of(item_views(items@)) == Some(error@),
                None => error_of(item_views(items@)) is None,
            },
    {
        proof {
            lemma_item_views(items@);
        }
        if items.len() != 2 {
            return None;
        }
        let code = match &items[0] {
            Bencode::Int(code) => *code,
            _ => {
                return None;
            },
        };
        let message = match &items[1] {
            Bencode::Bytes(bytes) => match text_of_bytes(bytes.as_slice()) {
                Some(message) => message,
                None => {
                    return None;
                },
            },
            _ => {
                return None;
            },
        };
        if 0 <= code && code <= 0xff {
            Some(ErrorResponse(code as u8, message))
        } else {
            None
        }
    }
}

impl Message {
    /// The value that the message is carried as.
    pub fn to_bencode(&self) -> (value: Bencode)
        ensures
            value@ == value_of_message(self@),
    {
        let mut top: Vec<(Vec<u8>, Bencode)> = Vec::new();
        let (id, client, kind) = match self {
            Message::Query { id, client, args } => {
                top.push(value_entry("a", Bencode::Dict(args.to_entries())));
                top.push(
                    value_entry("q", Bencode::Bytes(copy_of(args.method().as_bytes()))),
                );
                (id, client, "q")
            },
            Message::Response { id, client, response } => {
                top.push(value_entry("r", Bencode::Dict(response.to_entries())));
                (id, client, "r")
            },
            Message::Error { id, client, error } => {
                top.push(value_entry("e", Bencode::List(error.to_items())));
                (id, client, "e")
            },
        };
        top.push(text_entry("t", id));
        match client {
            Some(client) => {
                top.push(text_entry("v", client));
            },
            None => {},
        }
        top.push(value_entry("y", Bencode::Bytes(copy_of(kind.as_bytes()))));
        proof {
            lemma_entries_are(top@, value_of_message(self@)->Dict_0);
        }
        Bencode::Dict(top)
    }

    /// The message that the value is.
    pub fn from_bencode(value: &Bencode) -> (r: Result<Message, ParseError>)
        ensures
            read_view(r) == message_of_value(value@),
    {
        let top = match value {
            Bencode::Dict(top) => top,
            _ => {
                return Err(ParseError::NotAMessage);
            },
        };
        let id = match find_text(top, "t") {
            Some(id) => id,
            None => {
                return Err(ParseError::NotAMessage);
            },
        };
        let client = match find(top, "v") {
            None => None,
            Some(Bencode::Bytes(bytes)) => match text_of_bytes(bytes.as_slice()) {
                Some(client) => Some(client),
                None => {
                    return Err(ParseError::NotAMessage);
                },
            },
            Some(_) => {
                return Err(ParseError::NotAMessage);
            },
        };
        let kind = match find_bytes(top, "y") {
            Some(kind) => kind,
            None => {
                return Err(ParseError::NotAMessage);
            },
        };
        if same_bytes(kind.as_slice(), "q".as_bytes()) {
            Message::query_from(top, id, client)
        } else if same_bytes(kind.as_slice(), "r".as_bytes()) {
            match find_dict(top, "r") {
                Some(r) => match Response::from_entries(r) {
                    Some(response) => Ok(Message::Response { id, client, response }),
                    None => Err(ParseError::NotAMessage),
                },
                None => Err(ParseError::NotAMessage),
            }
        } else if same_bytes(kind.as_slice(), "e".as_bytes()) {
            match find_list(top, "e") {
                Some(items) => match ErrorResponse::from_items(items) {
                    Some(error) => Ok(Message::Error { id, client, error }),
                    None => Err(ParseError::NotAMessage),
                },
                None => Err(ParseError::NotAMessage),
            }
        } else {
            Err(ParseError::NotAMessage)
        }
    }

    /// The query that the dictionary is.
    fn query_from(top: &Vec<(Vec<u8>, Bencode)>, id: String, client: Option<String>) -> (r: Result<
        Message,
        ParseError,
    >)
        ensures
            read_view(r) == query_message(
                entry_views(top@),
                id@,
                crate::structs::message::text_of(client),
            ),
    {
        match find(top, "q") {
            Some(Bencode::Bytes(name)) => {
                let known = same_bytes(name.as_slice(), "ping".as_bytes()) || same_bytes(
                    name.as_slice(),
                    "find_node".as_bytes(),
                ) || same_bytes(name.as_slice(), "get_peers".as_bytes()) || same_bytes(
                    name.as_slice(),
                    "announce_peer".as_bytes(),
                );
                if !known {
                    return Err(ParseError::UnknownMethod { id });
                }
                match find_dict(top, "a") {
                    Some(a) => match Query::from_entries(a) {
                        Some(args) => if same_bytes(args.method().as_bytes(), name.as_slice()) {
                            Ok(Message::Query { id, client, args })
                        } else {
                            Err(ParseError::NotAMessage)
                        },
                        None => Err(ParseError::NotAMessage),
                    },
                    None => Err(ParseError::NotAMessage),
                }
            },
            Some(_) => Err(ParseError::NotAMessage),
            None => match find_dict(top, "a") {
                Some(a) => match Query::from_entries(a) {
                    Some(args) => Ok(Message::Query { id, client, args }),
                    None => Err(ParseError::NotAMessage),
                },
                None => Err(ParseError::NotAMessage),
            },
        }
    }

    /// The wire form of the message.
    pub fn to_bytes(&self) -> (bytes: Vec<u8>)
        ensures
            bytes@ == wire_form(self@),
    {
        self.to_bencode().encode()
    }

    /// The message that the bytes are the wire form of.
    pub fn from_bytes(input: &[u8]) -> (r: Result<Message, ParseError>)
        ensures
            read_view(r) == message_of(input@),
    {
        match Bencode::decode(input) {
            Some(value) => Message::from_bencode(&value),
            None => Err(ParseError::NotBencode),
        }
    }

    /// The message that the text is the wire form of.
    pub fn from_str(input: String) -> (r: Result<Message, ParseError>)
        ensures
            read_view(r) == message_of(text_bytes(input@)),
    {
        Message::from_bytes(input.as_str().as_bytes())
    }

    /// The wire form of the message as text, where it is text.
    pub fn to_str(&self) -> (r: Result<String, crate::structs::error::InvalidUtf8Error>)
        ensures
            r is Ok <==> valid_utf8(wire_form(self@)),
            r is Ok ==> text_bytes(r.unwrap()@) == wire_form(self@),
    {
        match String::from_utf8(self.to_bytes()) {
            Ok(text) => Ok(text),
            Err(_) => Err(crate::structs::error::InvalidUtf8Error {}),
        }
    }
}

} // verus!
