//! The data structures of the node, leaves first.

pub mod bencode;
pub mod bucket;
pub mod decimal;
pub mod error;
pub mod hexcode;
pub mod kbuckets;
pub mod message;
pub mod node;
pub mod peers;
pub mod sorting;
pub mod time;
pub mod token;
pub mod util;
pub mod wire;
