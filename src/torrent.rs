//! `.torrent` metadata and the errors of this crate beyond bencode.
use vstd::prelude::*;
use crate::bencode::BencodeError;

pub mod file;
pub mod info_hash;

verus! {

/// `url::ParseError`, carried opaquely in `TorrentError::UrlParse`.
#[verifier::external_type_specification]
#[verifier::external_body]
pub struct ExUrlParseError(url::ParseError);

/// A field of a `.torrent` file that is required and absent, or present with the wrong type.
#[derive(Debug, Clone, Copy, PartialEq, Eq, Structural)]
pub enum Field {
    Announce,
    Info,
    PieceLength,
    Pieces,
    Name,
    FileLength,
    FilePath,
}

/// How a `.torrent` file is malformed.
#[derive(Debug, Clone, Copy, PartialEq, Eq, Structural)]
pub enum Malformed {
    RootNotDict,
    AnnounceNotUtf8,
    InfoNotDict,
    NameNotUtf8,
    FileEntryNotDict,
    PathComponentNotString,
    PathComponentNotUtf8,
    AnnounceListNotList,
    TierNotList,
    TrackerNotString,
    TrackerNotUtf8,
    CreationDateNotInteger,
}

/// Errors of metadata parsing, announce URL building and the peer handshake.
#[derive(Debug)]
pub enum TorrentError {
    Bencode(BencodeError),
    InvalidFormat(Malformed),
    MissingField(Field),
    InvalidPiecesHashLength,
    DateParseError,
    UrlParse(url::ParseError),
    HandshakeInvalidProtocol,
    HandshakeInfoHashMismatch,
    HandshakeTimeout,
}

pub type TorrentResult<T> = Result<T, TorrentError>;

} // verus!
