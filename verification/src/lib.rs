//! Request-handling core of a Mainline-DHT (Kademlia-style) node.
//!
//! The crate keeps the routing table of known peers and the index of
//! announced peers, reads and writes the bencoded messages of the
//! protocol, and answers the four DHT queries (`ping`, `find_node`,
//! `get_peers`, `announce_peer`). Every function carries a contract that
//! Verus proves. The few calls whose results are taken on trust (hex text,
//! SHA-1, the clock, the random generator, and the check of UTF-8 in the
//! standard library) are declared with the contract they are trusted to
//! meet.

pub mod handler;
pub mod structs;
