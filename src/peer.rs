//! Peer connections: the opening handshake.
pub mod handshake;
