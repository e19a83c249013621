//! Endpoints and the records of known nodes.

use crate::structs::decimal::{
    digits, lemma_digits, lemma_number_at, lemma_number_read, number_at, read_number,
};
use crate::structs::error::{InvalidAddressError, InvalidCompactNodeError};
use crate::structs::hexcode::{decode_hex, encode_hex, hex_decoding, hex_encoding, is_hex};
use crate::structs::time::{current_time, Timestamp};
use crate::structs::util::HashId;
use vstd::prelude::*;

verus! {

/// The nanoseconds after which a node that was not heard of is
/// questionable: fifteen minutes.
pub const QUESTIONABLE_AFTER_NANOS: i128 = 900_000_000_000;

/// The byte `.`, which parts the octets of an address in dotted form.
pub const DOT: u8 = 46;

/// The dotted form of an address: its four octets as decimal numbers
/// without leading zeros, parted by dots.
pub open spec fn dotted(addr: Seq<u8>) -> Seq<u8> {
    digits(addr[0] as nat) + seq![DOT] + digits(addr[1] as nat) + seq![DOT] + digits(
        addr[2] as nat,
    ) + seq![DOT] + digits(addr[3] as nat)
}

/// The octet that a sequence starts with, and how many digits it has.
pub open spec fn octet_at(s: Seq<u8>) -> Option<(u8, int)> {
    match number_at(s) {
        Some((value, n)) => if value <= 255 {
            Some((value as u8, n))
        } else {
            None
        },
        None => None,
    }
}

/// The octet before a dot that a sequence starts with, and the length of
/// both.
pub open spec fn dotted_octet_at(s: Seq<u8>) -> Option<(u8, int)> {
    match octet_at(s) {
        Some((value, n)) => if n < s.len() && s[n] == DOT {
            Some((value, n + 1))
        } else {
            None
        },
        None => None,
    }
}

/// The octets of the address that the bytes are the dotted form of.
pub open spec fn address_of(s: Seq<u8>) -> Option<Seq<u8>> {
    match dotted_octet_at(s) {
        Some((a, n1)) => match dotted_octet_at(s.skip(n1)) {
            Some((b, n2)) => match dotted_octet_at(s.skip(n1 + n2)) {
                Some((c, n3)) => match octet_at(s.skip(n1 + n2 + n3)) {
                    Some((d, n4)) => if n1 + n2 + n3 + n4 == s.len() {
                        Some(seq![a, b, c, d])
                    } else {
                        None
                    },
                    None => None,
                },
                None => None,
            },
            None => None,
        },
        None => None,
    }
}

/// An octet before a dot is read as the octet, whatever follows the dot.
proof fn lemma_dotted_octet_at(octet: u8, rest: Seq<u8>)
    ensures
        dotted_octet_at(digits(octet as nat) + seq![DOT] + rest) == Some(
            (octet, digits(octet as nat).len() as int + 1),
        ),
        (digits(octet as nat) + seq![DOT] + rest).skip(digits(octet as nat).len() as int + 1)
            == rest,
{
    let s = digits(octet as nat) + seq![DOT] + rest;
    let n = digits(octet as nat).len() as int;
    lemma_number_at(octet as nat, seq![DOT] + rest);
    assert(s =~= digits(octet as nat) + (seq![DOT] + rest));
    assert(s[n] == DOT);
    assert(s.skip(n + 1) =~= rest);
}

/// The dotted form of an address is read as the address.
pub proof fn lemma_address_of_dotted(addr: Seq<u8>)
    requires
        addr.len() == 4,
    ensures
        address_of(dotted(addr)) == Some(addr),
{
    let d3 = digits(addr[3] as nat);
    let tail2 = digits(addr[2] as nat) + seq![DOT] + d3;
    let tail1 = digits(addr[1] as nat) + seq![DOT] + tail2;
    let s = dotted(addr);
    assert(s =~= digits(addr[0] as nat) + seq![DOT] + tail1);
    assert(tail1 =~= digits(addr[1] as nat) + seq![DOT] + digits(addr[2] as nat) + seq![DOT] + d3);
    lemma_dotted_octet_at(addr[0], tail1);
    lemma_dotted_octet_at(addr[1], tail2);
    lemma_dotted_octet_at(addr[2], d3);
    lemma_number_at(addr[3] as nat, Seq::empty());
    assert(d3 + Seq::<u8>::empty() =~= d3);
    let n1 = digits(addr[0] as nat).len() as int + 1;
    let n2 = digits(addr[1] as nat).len() as int + 1;
    let n3 = digits(addr[2] as nat).len() as int + 1;
    assert(s.skip(n1) == tail1);
    assert(s.skip(n1 + n2) =~= tail1.skip(n2));
    assert(s.skip(n1 + n2 + n3) =~= tail2.skip(n3));
    assert(seq![addr[0], addr[1], addr[2], addr[3]] =~= addr);
}

/// Bytes that are read as an address are the dotted form of that address.
pub proof fn lemma_dotted_of_address(s: Seq<u8>)
    ensures
        address_of(s) is Some ==> address_of(s).unwrap().len() == 4 && dotted(
            address_of(s).unwrap(),
        ) == s,
{
    if address_of(s) is Some {
        let (a, n1) = dotted_octet_at(s).unwrap();
        let (b, n2) = dotted_octet_at(s.skip(n1)).unwrap();
        let (c, n3) = dotted_octet_at(s.skip(n1 + n2)).unwrap();
        let (d, n4) = octet_at(s.skip(n1 + n2 + n3)).unwrap();
        lemma_number_read(s);
        lemma_number_read(s.skip(n1));
        lemma_number_read(s.skip(n1 + n2));
        lemma_number_read(s.skip(n1 + n2 + n3));
        let addr = seq![a, b, c, d];
        assert(digits(a as nat) =~= s.subrange(0, n1 - 1));
        assert(s.skip(n1).take(n2 - 1) =~= s.subrange(n1, n1 + n2 - 1));
        assert(s.skip(n1 + n2).take(n3 - 1) =~= s.subrange(n1 + n2, n1 + n2 + n3 - 1));
        assert(s.skip(n1 + n2 + n3).take(n4) =~= s.subrange(n1 + n2 + n3, n1 + n2 + n3 + n4));
        assert(s[n1 - 1] == DOT);
        assert(s.skip(n1)[n2 - 1] == DOT);
        assert(s.skip(n1 + n2)[n3 - 1] == DOT);
        assert(dotted(addr) =~= s);
    }
}

/// Reads the octet at `pos`.
fn read_octet(text: &[u8], pos: usize) -> (r: Option<(u8, usize)>)
    requires
        pos <= text@.len(),
    ensures
        match r {
            Some((value, end)) => pos < end <= text@.len() && octet_at(text@.skip(pos as int))
                == Some((value, end - pos)),
            None => octet_at(text@.skip(pos as int)) is None,
        },
{
    match read_number(text, pos, 255) {
        Some((value, end)) => Some((value as u8, end)),
        None => None,
    }
}

/// Reads the octet at `pos` and the dot behind it.
fn read_dotted_octet(text: &[u8], pos: usize) -> (r: Option<(u8, usize)>)
    requires
        pos <= text@.len(),
    ensures
        match r {
            Some((value, end)) => pos < end <= text@.len() && dotted_octet_at(
                text@.skip(pos as int),
            ) == Some((value, end - pos)),
            None => dotted_octet_at(text@.skip(pos as int)) is None,
        },
{
    let (value, end) = match read_octet(text, pos) {
        Some(octet) => octet,
        None => {
            return None;
        },
    };
    if end >= text.len() || text[end] != DOT {
        assert(end < text@.len() ==> text@.skip(pos as int)[end - pos] == text@[end as int]);
        return None;
    }
    assert(text@.skip(pos as int)[end - pos] == text@[end as int]);
    Some((value, end + 1))
}

/// Reads the octets of an address from its dotted form.
pub fn parse_address(text: &[u8]) -> (r: Option<[u8; 4]>)
    ensures
        match r {
            Some(addr) => address_of(text@) == Some(addr@),
            None => address_of(text@) is None,
        },
        r is Some ==> dotted(r.unwrap()@) == text@,
        r is None ==> forall|addr: Seq<u8>| addr.len() == 4 ==> #[trigger] dotted(addr) != text@,
{
    proof {
        lemma_dotted_of_address(text@);
        assert forall|addr: Seq<u8>| addr.len() == 4 && #[trigger] dotted(addr) == text@ implies address_of(
            text@,
        ) == Some(addr) by {
            lemma_address_of_dotted(addr);
        }
        assert(text@.skip(0) =~= text@);
    }
    let (a, p1) = match read_dotted_octet(text, 0) {
        Some(octet) => octet,
        None => {
            return None;
        },
    };
    let (b, p2) = match read_dotted_octet(text, p1) {
        Some(octet) => octet,
        None => {
            return None;
        },
    };
    let (c, p3) = match read_dotted_octet(text, p2) {
        Some(octet) => octet,
        None => {
            return None;
        },
    };
    let (d, p4) = match read_octet(text, p3) {
        Some(octet) => octet,
        None => {
            return None;
        },
    };
    if p4 != text.len() {
        return None;
    }
    let addr = [a, b, c, d];
    assert(addr@ =~= seq![a, b, c, d]);
    Some(addr)
}

/// An IPv4 address and a UDP port.
#[derive(Copy, Clone, Debug, Eq)]
pub struct Endpoint {
    pub port: u16,
    pub addr: [u8; 4],
}

impl Endpoint {
    /// The compact form: the four octets of the address, then the port,
    /// high byte first.
    pub open spec fn compact(&self) -> Seq<u8> {
        self.addr@ + seq![(self.port / 256) as u8, (self.port % 256) as u8]
    }

    /// The endpoint at the port of the address that is given in dotted
    /// form, as in `127.0.0.1`.
    pub fn new(addr: &str, port: u16) -> (r: Result<Endpoint, InvalidAddressError>)
        ensures
            r is Ok <==> address_of(vstd::utf8::encode_utf8(addr@)) is Some,
            r is Ok ==> r.unwrap().port == port && dotted(r.unwrap().addr@)
                == vstd::utf8::encode_utf8(addr@),
            r is Err ==> forall|octets: Seq<u8>|
                octets.len() == 4 ==> #[trigger] dotted(octets) != vstd::utf8::encode_utf8(addr@),
    {
        match parse_address(addr.as_bytes()) {
            Some(octets) => Ok(Endpoint { port, addr: octets }),
            None => Err(InvalidAddressError {}),
        }
    }

    /// The endpoint at the port of the address with these four octets.
    pub fn from_octets(addr: [u8; 4], port: u16) -> (e: Endpoint)
        ensures
            e.addr == addr,
            e.port == port,
    {
        Endpoint { port, addr }
    }

    /// Reads an endpoint from its compact form.
    pub fn from_compact(c: [u8; 6]) -> (e: Endpoint)
        ensures
            e.compact() == c@,
    {
        let e = Endpoint {
            addr: [c[0], c[1], c[2], c[3]],
            port: c[4] as u16 * 256 + c[5] as u16,
        };
        assert(e.compact() =~= c@);
        e
    }

    /// Writes the endpoint in its compact form.
    pub fn to_compact(&self) -> (c: [u8; 6])
        ensures
            c@ == self.compact(),
    {
        let a = &self.addr;
        let c = [a[0], a[1], a[2], a[3], (self.port / 256) as u8, (self.port % 256) as u8];
        assert(c@ =~= self.compact());
        c
    }

    /// The same address with another port.
    pub fn with_port(&self, port: u16) -> (e: Endpoint)
        ensures
            e.addr == self.addr,
            e.port == port,
    {
        Endpoint { port, addr: self.addr }
    }
}

/// Endpoints with one compact form are one endpoint.
pub proof fn lemma_compact_decides(a: Endpoint, b: Endpoint)
    requires
        a.compact() == b.compact(),
    ensures
        a == b,
{
    assert forall|i: int| 0 <= i < 4 implies a.addr[i] == b.addr[i] by {
        assert(a.compact()[i] == a.addr@[i]);
        assert(b.compact()[i] == b.addr@[i]);
    }
    assert(a.addr =~= b.addr);
    assert(a.compact()[4] == (a.port / 256) as u8);
    assert(b.compact()[4] == (b.port / 256) as u8);
    assert(a.compact()[5] == (a.port % 256) as u8);
    assert(b.compact()[5] == (b.port % 256) as u8);
}

impl PartialEq for Endpoint {
    fn eq(&self, other: &Self) -> (r: bool) {
        let same = self.port == other.port && self.addr[0] == other.addr[0] && self.addr[1]
            == other.addr[1] && self.addr[2] == other.addr[2] && self.addr[3] == other.addr[3];
        proof {
            if same {
                assert forall|i: int| 0 <= i < 4 implies self.addr[i] == other.addr[i] by {}
                assert(self.addr =~= other.addr);
            }
        }
        same
    }
}

impl vstd::std_specs::cmp::PartialEqSpecImpl for Endpoint {
    open spec fn obeys_eq_spec() -> bool {
        true
    }

    open spec fn eq_spec(&self, other: &Self) -> bool {
        *self == *other
    }
}

/// What is known of one node: where it is, who it is, and when it was
/// last heard of.
#[derive(Copy, Clone, Debug, Eq)]
pub struct Node {
    pub endpoint: Endpoint,
    pub node_id: HashId,
    pub last_seen: Timestamp,
    pub failed_queries: u8,
}

impl Node {
    /// The compact form: the twenty bytes of the identifier, then the
    /// compact form of the endpoint.
    pub open spec fn compact(&self) -> Seq<u8> {
        self.node_id@ + self.endpoint.compact()
    }

    /// Whether the node was last heard of more than fifteen minutes
    /// before `now`.
    pub open spec fn is_questionable_at(&self, now: Timestamp) -> bool {
        now.nanos_since(self.last_seen) > 900_000_000_000
    }

    /// The same node, heard of at `now`.
    pub open spec fn heard_at(&self, now: Timestamp) -> Node {
        Node { last_seen: now, ..*self }
    }

    /// Whether two records are of one node at one endpoint.
    pub open spec fn same_node(&self, other: Node) -> bool {
        self.node_id == other.node_id && self.endpoint == other.endpoint
    }

    /// A node that is heard of for the first time now.
    pub fn new(endpoint: Endpoint, node_id: HashId) -> (node: Node)
        ensures
            node.endpoint == endpoint,
            node.node_id == node_id,
            node.failed_queries == 0,
    {
        Node::first_seen(endpoint, node_id, current_time())
    }

    /// A node that was heard of for the first time at `now`.
    pub fn first_seen(endpoint: Endpoint, node_id: HashId, now: Timestamp) -> (node: Node)
        ensures
            node == (Node { endpoint, node_id, last_seen: now, failed_queries: 0 }),
    {
        Node { endpoint, node_id, last_seen: now, failed_queries: 0 }
    }

    /// Reads a node, heard of now, from the first 26 bytes that a
    /// hexadecimal text stands for.
    pub fn from_str(encoded: String) -> (r: Result<Node, InvalidCompactNodeError>)
        ensures
            r is Ok <==> is_hex(encoded@) && encoded@.len() >= 52,
            r is Ok ==> r.unwrap().compact() == hex_decoding(encoded@).take(26),
            r is Ok ==> r.unwrap().failed_queries == 0,
    {
        let compact = match decode_hex(&encoded) {
            Ok(compact) => compact,
            Err(_e) => return Err(InvalidCompactNodeError {}),
        };
        if compact.len() < 26 {
            return Err(InvalidCompactNodeError {});
        }
        let mut record = [0u8; 26];
        let mut i: usize = 0;
        while i < 26
            invariant
                i <= 26,
                compact@.len() >= 26,
                forall|j: int| 0 <= j < i ==> record@[j] == compact@[j],
            decreases 26 - i,
        {
            record[i] = compact[i];
            i += 1;
        }
        assert(record@ =~= compact@.take(26));
        Ok(Node::from_compact(&record, current_time()))
    }

    /// Reads a node, heard of at `now`, from its compact form.
    pub fn from_compact(record: &[u8; 26], now: Timestamp) -> (node: Node)
        ensures
            node.compact() == record@,
            node.last_seen == now,
            node.failed_queries == 0,
    {
        let mut hash = [0u8; 20];
        let mut i: usize = 0;
        while i < 20
            invariant
                i <= 20,
                forall|j: int| 0 <= j < i ==> hash@[j] == record@[j],
            decreases 20 - i,
        {
            hash[i] = record[i];
            i += 1;
        }
        let endpoint = Endpoint::from_compact(
            [record[20], record[21], record[22], record[23], record[24], record[25]],
        );
        let node = Node::first_seen(endpoint, HashId::new(hash), now);
        assert(node.compact() =~= record@);
        node
    }

    /// Writes the node in its compact form.
    pub fn to_compact(&self) -> (record: [u8; 26])
        ensures
            record@ == self.compact(),
    {
        let e = self.endpoint.to_compact();
        let mut record = [0u8; 26];
        let mut i: usize = 0;
        while i < 20
            invariant
                i <= 20,
                forall|j: int| 0 <= j < i ==> record@[j] == self.node_id@[j],
            decreases 20 - i,
        {
            record[i] = self.node_id.hash[i];
            i += 1;
        }
        let mut k: usize = 0;
        while k < 6
            invariant
                k <= 6,
                e@ == self.endpoint.compact(),
                forall|j: int| 0 <= j < 20 ==> record@[j] == self.node_id@[j],
                forall|j: int| 0 <= j < k ==> record@[20 + j] == e@[j],
            decreases 6 - k,
        {
            record[20 + k] = e[k];
            k += 1;
        }
        assert(record@ =~= self.compact());
        record
    }

    /// Writes the compact form of the node as 52 hexadecimal digits.
    pub fn to_str(&self) -> (text: String)
        ensures
            text@ == hex_encoding(self.compact()),
    {
        let record = self.to_compact();
        encode_hex(record.as_slice())
    }

    /// Whether the node was last heard of more than fifteen minutes ago.
    pub fn questionable(&self) -> (r: bool)
        ensures
            exists|now: Timestamp| r == self.is_questionable_at(now),
    {
        let now = current_time();
        self.questionable_at(&now)
    }

    /// Whether the node was last heard of more than fifteen minutes
    /// before `now`.
    pub fn questionable_at(&self, now: &Timestamp) -> (r: bool)
        ensures
            r == self.is_questionable_at(*now),
    {
        now.elapsed_since(&self.last_seen) > QUESTIONABLE_AFTER_NANOS
    }

    /// The XOR of the identifiers of two nodes.
    pub fn distance(self, node: Node) -> (d: HashId)
        ensures
            d@ == crate::structs::util::xor_bytes(self.node_id@, node.node_id@),
    {
        self.node_id.xor(&node.node_id)
    }
}

/// The compact forms of the nodes, one behind the other.
pub open spec fn compact_nodes(nodes: Seq<Node>) -> Seq<u8>
    decreases nodes.len(),
{
    if nodes.len() == 0 {
        Seq::empty()
    } else {
        compact_nodes(nodes.drop_last()) + nodes.last().compact()
    }
}

/// The compact forms of the endpoints, as a list.
pub open spec fn compact_peers(peers: Seq<Endpoint>) -> Seq<Seq<u8>> {
    peers.map_values(|e: Endpoint| e.compact())
}

/// Writes the nodes in their compact form, one behind the other.
pub fn encode_nodes(nodes: &Vec<Node>) -> (bytes: Vec<u8>)
    ensures
        bytes@ == compact_nodes(nodes@),
{
    let mut bytes: Vec<u8> = Vec::new();
    let mut i: usize = 0;
    while i < nodes.len()
        invariant
            i <= nodes@.len(),
            bytes@ == compact_nodes(nodes@.take(i as int)),
        decreases nodes@.len() - i,
    {
        let record = nodes[i].to_compact();
        let ghost before = bytes@;
        let mut k: usize = 0;
        while k < 26
            invariant
                k <= 26,
                record@.len() == 26,
                bytes@ == before + record@.take(k as int),
            decreases 26 - k,
        {
            bytes.push(record[k]);
            assert(bytes@ =~= before + record@.take(k + 1));
            k += 1;
        }
        assert(record@.take(26) =~= record@);
        assert(nodes@.take(i + 1).drop_last() =~= nodes@.take(i as int));
        i += 1;
    }
    assert(nodes@.take(i as int) =~= nodes@);
    bytes
}

/// The node, heard of for the first time at `now`, that a compact record
/// stands for.
pub open spec fn node_of(record: Seq<u8>, now: Timestamp) -> Node {
    choose|node: Node| node.compact() == record && node.last_seen == now && node.failed_queries == 0
}

/// The nodes, heard of for the first time at `now`, that compact records
/// stand for which stand one behind the other; none where the bytes are
/// no whole number of records.
pub open spec fn nodes_of(bytes: Seq<u8>, now: Timestamp) -> Option<Seq<Node>> {
    if bytes.len() % 26 == 0 {
        Some(
            Seq::new(
                bytes.len() / 26,
                |i: int| node_of(bytes.subrange(26 * i, 26 * i + 26), now),
            ),
        )
    } else {
        None
    }
}

/// A node with a compact form, a time and no failed queries is the node
/// that the compact form stands for.
pub proof fn lemma_node_of(node: Node)
    requires
        node.failed_queries == 0,
    ensures
        node_of(node.compact(), node.last_seen) == node,
{
    let chosen = node_of(node.compact(), node.last_seen);
    lemma_node_compact_decides(chosen, node);
}

/// Reads the nodes, heard of for the first time at `now`, from compact
/// records that stand one behind the other.
pub fn decode_nodes(bytes: &[u8], now: Timestamp) -> (r: Option<Vec<Node>>)
    ensures
        r is Some <==> bytes@.len() % 26 == 0,
        r is Some ==> Some(r.unwrap()@) == nodes_of(bytes@, now),
{
    if bytes.len() % 26 != 0 {
        return None;
    }
    let count = bytes.len() / 26;
    let mut nodes: Vec<Node> = Vec::new();
    let mut i: usize = 0;
    while i < count
        invariant
            i <= count,
            count == bytes@.len() / 26,
            bytes@.len() % 26 == 0,
            bytes@.len() <= usize::MAX,
            nodes@.len() == i,
            forall|j: int| 0 <= j < i ==> #[trigger] nodes@[j] == node_of(
                bytes@.subrange(26 * j, 26 * j + 26),
                now,
            ),
        decreases count - i,
    {
        let mut record = [0u8; 26];
        let mut k: usize = 0;
        while k < 26
            invariant
                k <= 26,
                i < count,
                count == bytes@.len() / 26,
                bytes@.len() % 26 == 0,
                bytes@.len() <= usize::MAX,
                forall|j: int| 0 <= j < k ==> record@[j] == bytes@[26 * i + j],
            decreases 26 - k,
        {
            record[k] = bytes[26 * i + k];
            k += 1;
        }
        assert(record@ =~= bytes@.subrange(26 * i, 26 * i + 26));
        let node = Node::from_compact(&record, now);
        proof {
            lemma_node_of(node);
        }
        nodes.push(node);
        i += 1;
    }
    assert(nodes@ =~= nodes_of(bytes@, now).unwrap());
    Some(nodes)
}

/// The compact forms of nodes, one behind the other, hold 26 bytes for
/// each node, and the record of each node where it stands.
pub proof fn lemma_compact_nodes(nodes: Seq<Node>)
    ensures
        compact_nodes(nodes).len() == 26 * nodes.len(),
        forall|i: int|
            0 <= i < nodes.len() ==> #[trigger] compact_nodes(nodes).subrange(26 * i, 26 * i + 26)
                == nodes[i].compact(),
    decreases nodes.len(),
{
    if nodes.len() > 0 {
        let front = nodes.drop_last();
        lemma_compact_nodes(front);
        assert(nodes.last().compact().len() == 26);
        assert forall|i: int| 0 <= i < nodes.len() implies #[trigger] compact_nodes(nodes).subrange(
            26 * i,
            26 * i + 26,
        ) == nodes[i].compact() by {
            if i < front.len() {
                assert(compact_nodes(nodes).subrange(26 * i, 26 * i + 26) =~= compact_nodes(
                    front,
                ).subrange(26 * i, 26 * i + 26));
                assert(front[i] == nodes[i]);
            } else {
                assert(compact_nodes(nodes).subrange(26 * i, 26 * i + 26) =~= nodes.last().compact());
            }
        }
    }
}

/// Reading the compact forms of nodes gives these nodes, at the
/// endpoints they were written with.
pub proof fn lemma_nodes_round_trip(nodes: Seq<Node>, now: Timestamp)
    ensures
        nodes_of(compact_nodes(nodes), now) is Some,
        nodes_of(compact_nodes(nodes), now).unwrap().len() == nodes.len(),
        forall|i: int|
            0 <= i < nodes.len() ==> (#[trigger] nodes_of(
                compact_nodes(nodes),
                now,
            ).unwrap()[i]).same_node(nodes[i]),
{
    lemma_compact_nodes(nodes);
    let read = nodes_of(compact_nodes(nodes), now).unwrap();
    assert forall|i: int| 0 <= i < nodes.len() implies (#[trigger] read[i]).same_node(nodes[i]) by {
        let written = Node { last_seen: now, failed_queries: 0, ..nodes[i] };
        assert(written.compact() == nodes[i].compact());
        lemma_node_of(written);
        assert(read[i] == node_of(compact_nodes(nodes).subrange(26 * i, 26 * i + 26), now));
    }
}

/// Writes the endpoints in their compact form, as a list.
pub fn encode_peers(peers: &Vec<Endpoint>) -> (values: Vec<Vec<u8>>)
    ensures
        crate::structs::message::byte_strings(values@) == compact_peers(peers@),
{
    let mut values: Vec<Vec<u8>> = Vec::new();
    let mut i: usize = 0;
    while i < peers.len()
        invariant
            i <= peers@.len(),
            values@.len() == i,
            forall|j: int| 0 <= j < i ==> (#[trigger] values@[j])@ == peers@[j].compact(),
        decreases peers@.len() - i,
    {
        let c = peers[i].to_compact();
        let mut value: Vec<u8> = Vec::new();
        let mut k: usize = 0;
        while k < 6
            invariant
                k <= 6,
                c@.len() == 6,
                value@ == c@.take(k as int),
            decreases 6 - k,
        {
            value.push(c[k]);
            assert(value@ =~= c@.take(k + 1));
            k += 1;
        }
        assert(c@.take(6) =~= c@);
        values.push(value);
        i += 1;
    }
    assert(crate::structs::message::byte_strings(values@) =~= compact_peers(peers@));
    values
}

/// A node read from the compact form of another is that node, whenever
/// either was heard of.
pub proof fn lemma_node_compact_decides(a: Node, b: Node)
    requires
        a.compact() == b.compact(),
    ensures
        a.same_node(b),
{
    assert(a.compact().take(20) =~= a.node_id@);
    assert(b.compact().take(20) =~= b.node_id@);
    assert(a.compact().skip(20) =~= a.endpoint.compact());
    assert(b.compact().skip(20) =~= b.endpoint.compact());
    lemma_compact_decides(a.endpoint, b.endpoint);
    assert forall|j: int| 0 <= j < 20 implies a.node_id@[j] == b.node_id@[j] by {}
    crate::structs::util::lemma_agree_everywhere(a.node_id, b.node_id);
}

impl PartialEq for Node {
    fn eq(&self, other: &Self) -> (r: bool) {
        self.node_id == other.node_id && self.endpoint == other.endpoint
    }
}

impl vstd::std_specs::cmp::PartialEqSpecImpl for Node {
    open spec fn obeys_eq_spec() -> bool {
        true
    }

    open spec fn eq_spec(&self, other: &Self) -> bool {
        self.same_node(*other)
    }
}

} // verus!
