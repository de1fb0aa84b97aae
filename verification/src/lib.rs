//! Core of a single-peer BitTorrent client: the bencode codec, the metainfo
//! parser, the peer-wire handshake and message framing, and the
//! piece-download engine. All wire layouts are stated as specifications over
//! byte sequences; the sockets and files themselves are driven by an
//! unverified shell around this crate.

pub mod bencode;
pub mod digest;
pub mod errors;
pub mod handshake;
pub mod messaging;
pub mod metainfo;
pub mod pieces;
