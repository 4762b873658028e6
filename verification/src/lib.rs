//! Core of a BitTorrent client: the bencode codec, the metainfo model, the peer wire
//! protocol, and the piece bookkeeping of a multi-peer download.
//!
//! Every function here carries a contract over a mathematical model of its data, and
//! Verus proves each function against its contract. I/O lives outside this crate:
//! callers hand in bytes and events, and act on the values and actions they get back.

use vstd::prelude::*;

pub mod bencode;
pub mod digest;
pub mod download;
pub mod hashes;
pub mod parse;
pub mod peer;
pub mod piece;
pub mod session;
pub mod torrent;
pub mod tracker;

verus! {

/// The largest number of bytes asked of a peer in one request.
pub const BLOCK_MAX: usize = 16384;

} // verus!
