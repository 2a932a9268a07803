//! Metadata and bootstrap layer of a BitTorrent client: bencode decoding and
//! encoding, `.torrent` metadata, tracker announce data and the peer handshake.
pub mod bencode;
pub mod torrent;
pub mod peer;
pub mod tracker;
