//! Peer discovery for a BitTorrent download that starts from a magnet link.
//!
//! - `bencode`: the bencode codec, with its grammar as spec functions
//! - `bencode_laws`: the round-trip laws of the codec
//! - `compact`: compact IPv4 peer and node records
//! - `kademlia`: XOR distance over 160-bit ids
//! - `dht`: DHT `get_peers` / `find_node` queries and typed replies
//! - `walk`: the iterative, distance-ordered search for peers
//! - `tracker`: the UDP tracker connect / announce exchange
//! - `handshake`: the peer wire handshake
//! - `hex`: hex text of infohashes
//! - `ut_metadata`: the metadata extension's request message
//!
//! Sockets and timers live with the caller: each exchange here
//! takes the bytes received and returns the bytes to send.

use vstd::prelude::*;

pub mod bencode;
pub mod bencode_laws;
pub mod compact;
pub mod dht;
pub mod handshake;
pub mod hex;
pub mod kademlia;
pub mod tracker;
pub mod ut_metadata;
pub mod walk;

verus! {

} // verus!
