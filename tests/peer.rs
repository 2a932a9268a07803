use rs_torrent_client::peer::handshake::{Handshake, PROTOCOL};
use rs_torrent_client::torrent::TorrentError;

fn frame(info_hash: [u8; 20], peer_id: [u8; 20]) -> [u8; 68] {
    Handshake::new(info_hash, peer_id).serialize()
}

fn split(bytes: &[u8; 68]) -> (u8, [u8; 67]) {
    let mut rest = [0u8; 67];
    rest.copy_from_slice(&bytes[1..]);
    (bytes[0], rest)
}

#[test]
fn new_handshake_fields() {
    let h = Handshake::new([1; 20], [2; 20]);
    assert_eq!(h.protocol_len, 19);
    assert_eq!(&h.protocol, b"BitTorrent protocol");
    assert_eq!(h.reserved, [0; 8]);
    assert_eq!(PROTOCOL, *b"BitTorrent protocol");
}

#[test]
fn serialize_layout() {
    let bytes = frame([0xaa; 20], [0xbb; 20]);
    assert_eq!(bytes.len(), 68);
    assert_eq!(bytes[0], 19);
    assert_eq!(&bytes[1..20], b"BitTorrent protocol");
    assert_eq!(&bytes[20..28], &[0u8; 8]);
    assert_eq!(&bytes[28..48], &[0xaa; 20]);
    assert_eq!(&bytes[48..68], &[0xbb; 20]);
}

#[test]
fn accept_matching_handshake() {
    let bytes = frame([7; 20], [9; 20]);
    let (len, rest) = split(&bytes);
    assert!(Handshake::check_protocol_len(len).is_ok());
    let h = Handshake::accept(len, &rest, [7; 20]).unwrap();
    assert_eq!(h, Handshake::new([7; 20], [9; 20]));
}

#[test]
fn reject_bad_protocol_length() {
    assert!(matches!(
        Handshake::check_protocol_len(18),
        Err(TorrentError::HandshakeInvalidProtocol)
    ));
    let bytes = frame([7; 20], [9; 20]);
    let (_, rest) = split(&bytes);
    assert!(matches!(
        Handshake::accept(20, &rest, [7; 20]),
        Err(TorrentError::HandshakeInvalidProtocol)
    ));
}

#[test]
fn reject_bad_protocol_name() {
    let mut bytes = frame([7; 20], [9; 20]);
    bytes[5] = b'X';
    let (len, rest) = split(&bytes);
    assert!(matches!(
        Handshake::accept(len, &rest, [7; 20]),
        Err(TorrentError::HandshakeInvalidProtocol)
    ));
}

#[test]
fn reject_info_hash_mismatch() {
    let bytes = frame([7; 20], [9; 20]);
    let (len, rest) = split(&bytes);
    assert!(matches!(
        Handshake::accept(len, &rest, [8; 20]),
        Err(TorrentError::HandshakeInfoHashMismatch)
    ));
    let h = Handshake::new([7; 20], [9; 20]);
    assert!(h.validate([7; 20]).is_ok());
    assert!(matches!(h.validate([6; 20]), Err(TorrentError::HandshakeInfoHashMismatch)));
}
