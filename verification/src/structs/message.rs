//! The messages of the protocol.

use vstd::prelude::*;

verus! {

/// The transaction identifier that a reply echoes.
pub type MessageId = String;

/// The short text by which a client names its software.
pub type ClientIdentifier = String;

/// The code and the text of an error.
#[derive(Debug)]
pub struct ErrorResponse(pub u8, pub String);

/// An error, as plain values.
pub struct ErrorView {
    pub code: u8,
    pub message: Seq<char>,
}

impl View for ErrorResponse {
    type V = ErrorView;

    open spec fn view(&self) -> ErrorView {
        ErrorView { code: self.0, message: self.1@ }
    }
}

impl ErrorResponse {
    /// An error of the code and the text given.
    pub fn new(code: u8, message: String) -> (error: ErrorResponse)
        ensures
            error@ == (ErrorView { code, message: message@ }),
    {
        ErrorResponse(code, message)
    }
}

/// The arguments of a query. Identifiers stand as their forty hexadecimal
/// digits, and are not checked before the query is handled.
#[derive(Debug)]
pub enum Query {
    FindNode { id: String, target: String },
    GetPeers { id: String, info_hash: String },
    AnnouncePeer { id: String, implied_port: Option<bool>, port: u16, token: String, info_hash: String },
    Ping { id: String },
}

/// The arguments of a query, as plain values.
pub enum QueryView {
    FindNode { id: Seq<char>, target: Seq<char> },
    GetPeers { id: Seq<char>, info_hash: Seq<char> },
    AnnouncePeer {
        id: Seq<char>,
        implied_port: Option<bool>,
        port: u16,
        token: Seq<char>,
        info_hash: Seq<char>,
    },
    Ping { id: Seq<char> },
}

impl View for Query {
    type V = QueryView;

    open spec fn view(&self) -> QueryView {
        match self {
            Query::FindNode { id, target } => QueryView::FindNode { id: id@, target: target@ },
            Query::GetPeers { id, info_hash } => QueryView::GetPeers {
                id: id@,
                info_hash: info_hash@,
            },
            Query::AnnouncePeer { id, implied_port, port, token, info_hash } => {
                QueryView::AnnouncePeer {
                    id: id@,
                    implied_port: *implied_port,
                    port: *port,
                    token: token@,
                    info_hash: info_hash@,
                }
            },
            Query::Ping { id } => QueryView::Ping { id: id@ },
        }
    }
}

/// The values of a response. Nodes stand in their compact form, 26 bytes
/// each, and peers as a list of compact endpoints.
#[derive(Debug)]
pub enum Response {
    FoundPeers { id: String, token: String, values: Vec<Vec<u8>> },
    FoundPeerNodes { id: String, token: String, nodes: Vec<u8> },
    FoundNodes { id: String, nodes: Vec<u8> },
    Empty { id: String },
}

/// The values of a response, as plain values.
pub enum ResponseView {
    FoundPeers { id: Seq<char>, token: Seq<char>, values: Seq<Seq<u8>> },
    FoundPeerNodes { id: Seq<char>, token: Seq<char>, nodes: Seq<u8> },
    FoundNodes { id: Seq<char>, nodes: Seq<u8> },
    Empty { id: Seq<char> },
}

/// The byte strings of a list, as plain values.
pub open spec fn byte_strings(values: Seq<Vec<u8>>) -> Seq<Seq<u8>> {
    values.map_values(|v: Vec<u8>| v@)
}

impl View for Response {
    type V = ResponseView;

    open spec fn view(&self) -> ResponseView {
        match self {
            Response::FoundPeers { id, token, values } => ResponseView::FoundPeers {
                id: id@,
                token: token@,
                values: byte_strings(values@),
            },
            Response::FoundPeerNodes { id, token, nodes } => ResponseView::FoundPeerNodes {
                id: id@,
                token: token@,
                nodes: nodes@,
            },
            Response::FoundNodes { id, nodes } => ResponseView::FoundNodes {
                id: id@,
                nodes: nodes@,
            },
            Response::Empty { id } => ResponseView::Empty { id: id@ },
        }
    }
}

/// One message: a query, a response to one, or an error.
#[derive(Debug)]
pub enum Message {
    Query { id: MessageId, client: Option<ClientIdentifier>, args: Query },
    Error { id: MessageId, client: Option<ClientIdentifier>, error: ErrorResponse },
    Response { id: MessageId, client: Option<ClientIdentifier>, response: Response },
}

/// One message, as plain values.
pub enum MessageView {
    Query { id: Seq<char>, client: Option<Seq<char>>, args: QueryView },
    Error { id: Seq<char>, client: Option<Seq<char>>, error: ErrorView },
    Response { id: Seq<char>, client: Option<Seq<char>>, response: ResponseView },
}

/// The text of an optional string.
pub open spec fn text_of(text: Option<String>) -> Option<Seq<char>> {
    match text {
        Some(text) => Some(text@),
        None => None,
    }
}

impl View for Message {
    type V = MessageView;

    open spec fn view(&self) -> MessageView {
        match self {
            Message::Query { id, client, args } => MessageView::Query {
                id: id@,
                client: text_of(*client),
                args: args@,
            },
            Message::Error { id, client, error } => MessageView::Error {
                id: id@,
                client: text_of(*client),
                error: error@,
            },
            Message::Response { id, client, response } => MessageView::Response {
                id: id@,
                client: text_of(*client),
                response: response@,
            },
        }
    }
}

} // verus!
