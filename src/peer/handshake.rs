//! The fixed 68-byte BitTorrent handshake: building, serializing and checking a remote one.
//!
//! The byte stream itself is driven by the caller, which reads the first byte, passes it to
//! `Handshake::check_protocol_len`, and only then reads the other 67 bytes for
//! `Handshake::accept`.
use vstd::prelude::*;
use crate::torrent::{TorrentError, TorrentResult};

verus! {

/// The protocol identifier `BitTorrent protocol`, in ASCII.
pub const PROTOCOL: [u8; 19] = [
    66, 105, 116, 84, 111, 114, 114, 101, 110, 116, 32, 112, 114, 111, 116, 111, 99, 111, 108,
];

/// The length of the protocol identifier, the first byte of a handshake.
pub const PROTOCOL_LEN: u8 = 19;

/// The bytes of the protocol identifier `BitTorrent protocol`.
pub open spec fn protocol_bytes() -> Seq<u8> {
    seq![66u8, 105, 116, 84, 111, 114, 114, 101, 110, 116, 32, 112, 114, 111, 116, 111, 99, 111, 108]
}

/// A handshake message: protocol length and identifier, reserved bytes, info-hash, peer id.
#[derive(Debug, Clone, Copy, PartialEq, Eq)]
pub struct Handshake {
    pub protocol_len: u8,
    pub protocol: [u8; 19],
    pub reserved: [u8; 8],
    pub info_hash: [u8; 20],
    pub peer_id: [u8; 20],
}

/// The wire form: length byte, identifier, eight zero bytes, info-hash, peer id.
pub open spec fn frame_bytes(h: Handshake) -> Seq<u8> {
    seq![h.protocol_len] + h.protocol@ + Seq::new(8, |i: int| 0u8) + h.info_hash@ + h.peer_id@
}

fn copy_into(dst: &mut [u8], src: &[u8], at: usize)
    requires
        at + src@.len() <= old(dst)@.len(),
    ensures
        final(dst)@.len() == old(dst)@.len(),
        forall|i: int|
            0 <= i < old(dst)@.len() ==> #[trigger] final(dst)@[i] == if at <= i < at + src@.len() {
                src@[i - at]
            } else {
                old(dst)@[i]
            },
{
    let n = dst.len();
    let mut k: usize = 0;
    while k < src.len()
        invariant
            n == dst@.len(),
            k <= src@.len(),
            at + src@.len() <= dst@.len(),
            dst@.len() == old(dst)@.len(),
            forall|i: int|
                0 <= i < dst@.len() ==> #[trigger] dst@[i] == if at <= i < at + k {
                    src@[i - at]
                } else {
                    old(dst)@[i]
                },
        decreases src@.len() - k,
    {
        dst[at + k] = src[k];
        k = k + 1;
    }
}

fn copy_out<const N: usize>(src: &[u8], at: usize) -> (r: [u8; N])
    requires
        at + N <= src@.len(),
    ensures
        r@ == src@.subrange(at as int, at + N),
{
    let mut out = [0u8; N];
    let n = src.len();
    let mut k: usize = 0;
    while k < N
        invariant
            n == src@.len(),
            k <= N,
            at + N <= src@.len(),
            forall|i: int| 0 <= i < k ==> #[trigger] out@[i] == src@[at + i],
        decreases N - k,
    {
        out[k] = src[at + k];
        k = k + 1;
    }
    assert(out@ =~= src@.subrange(at as int, at + N));
    out
}

impl Handshake {
    /// Creates our handshake for a torrent's info-hash and our peer id.
    pub fn new(info_hash: [u8; 20], peer_id: [u8; 20]) -> (r: Self)
        ensures
            r.protocol_len == 19,
            r.protocol@ == protocol_bytes(),
            r.reserved@ == Seq::new(8, |i: int| 0u8),
            r.info_hash == info_hash,
            r.peer_id == peer_id,
    {
        let r = Handshake {
            protocol_len: PROTOCOL_LEN,
            protocol: PROTOCOL,
            reserved: [0u8; 8],
            info_hash,
            peer_id,
        };
        assert(r.protocol@ =~= protocol_bytes());
        assert(r.reserved@ =~= Seq::new(8, |i: int| 0u8));
        r
    }

    /// Serializes the handshake into its 68-byte wire form; the reserved bytes go out as zeros.
    pub fn serialize(&self) -> (r: [u8; 68])
        ensures
            r@ == frame_bytes(*self),
    {
        let mut buf = [0u8; 68];
        buf[0] = self.protocol_len;
        copy_into(&mut buf, &self.protocol, 1);
        copy_into(&mut buf, &self.info_hash, 28);
        copy_into(&mut buf, &self.peer_id, 48);
        assert(buf@ =~= frame_bytes(*self));
        buf
    }

    /// Checks the first byte of a remote handshake; anything but 19 means the remote does
    /// not speak this protocol, and nothing more should be read.
    pub fn check_protocol_len(protocol_len: u8) -> (r: TorrentResult<()>)
        ensures
            protocol_len == 19 <==> r is Ok,
            protocol_len != 19 ==> r matches Err(TorrentError::HandshakeInvalidProtocol),
    {
        if protocol_len != PROTOCOL_LEN {
            return Err(TorrentError::HandshakeInvalidProtocol);
        }
        Ok(())
    }

    /// Checks that this handshake carries the expected info-hash.
    pub fn validate(&self, expected_info_hash: [u8; 20]) -> (r: TorrentResult<()>)
        ensures
            self.info_hash@ == expected_info_hash@ <==> r is Ok,
            self.info_hash@ != expected_info_hash@ ==> r matches Err(
                TorrentError::HandshakeInfoHashMismatch,
            ),
    {
        let mut k: usize = 0;
        while k < 20
            invariant
                k <= 20,
                forall|i: int| 0 <= i < k ==> self.info_hash@[i] == expected_info_hash@[i],
            decreases 20 - k,
        {
            if self.info_hash[k] != expected_info_hash[k] {
                return Err(TorrentError::HandshakeInfoHashMismatch);
            }
            k = k + 1;
        }
        assert(self.info_hash@ =~= expected_info_hash@);
        Ok(())
    }

    /// Builds the remote handshake from its first byte and the 67 bytes that follow, and
    /// checks it: the length byte must be 19 and the identifier exact, else
    /// `HandshakeInvalidProtocol`; then the info-hash must be the expected one, else
    /// `HandshakeInfoHashMismatch`.
    pub fn accept(protocol_len: u8, rest: &[u8; 67], expected_info_hash: [u8; 20]) -> (r:
        TorrentResult<Handshake>)
        ensures
            (protocol_len != 19 || rest@.subrange(0, 19) != protocol_bytes()) ==> r matches Err(
                TorrentError::HandshakeInvalidProtocol,
            ),
            (protocol_len == 19 && rest@.subrange(0, 19) == protocol_bytes()
                && rest@.subrange(27, 47) != expected_info_hash@) ==> r matches Err(
                TorrentError::HandshakeInfoHashMismatch,
            ),
            (protocol_len == 19 && rest@.subrange(0, 19) == protocol_bytes()
                && rest@.subrange(27, 47) == expected_info_hash@) ==> (r matches Ok(h) && h.protocol_len
                == 19 && h.protocol@ == protocol_bytes() && h.reserved@ == rest@.subrange(19, 27)
                && h.info_hash == expected_info_hash && h.peer_id@ == rest@.subrange(47, 67)),
    {
        Self::check_protocol_len(protocol_len)?;
        let protocol: [u8; 19] = copy_out(rest, 0);
        let mut k: usize = 0;
        while k < 19
            invariant
                k <= 19,
                protocol@ == rest@.subrange(0, 19),
                forall|i: int| 0 <= i < k ==> protocol@[i] == protocol_bytes()[i],
            decreases 19 - k,
        {
            if protocol[k] != PROTOCOL[k] {
                assert(protocol@[k as int] != protocol_bytes()[k as int]);
                return Err(TorrentError::HandshakeInvalidProtocol);
            }
            k = k + 1;
        }
        assert(protocol@ =~= protocol_bytes());
        let reserved: [u8; 8] = copy_out(rest, 19);
        let info_hash: [u8; 20] = copy_out(rest, 27);
        let peer_id: [u8; 20] = copy_out(rest, 47);
        let remote = Handshake { protocol_len, protocol, reserved, info_hash, peer_id };
        remote.validate(expected_info_hash)?;
        Ok(remote)
    }
}

} // verus!
