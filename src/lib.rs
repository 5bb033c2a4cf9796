//! A leech-only BitTorrent client's core: the bencode codec, the metainfo model and the
//! info-hash, the layout of pieces over files, the tracker's query and reply, the peer wire
//! codec, and the per-peer session that downloads, verifies and hands over pieces.
use vstd::prelude::*;

pub mod bencode;
pub mod torrent;
pub mod digest;
pub mod peers;
pub mod tracker;
pub mod session;

verus! {

} // verus!
