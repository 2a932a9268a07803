//! Tracker announce data: the local peer id, the announce URL and the peer list of a reply.
//!
//! The HTTP exchange and the decoding of the reply body into a `TrackerReply` are done by the
//! caller; this module builds what is sent and interprets what came back.
use vstd::prelude::*;
use crate::bencode::encoder::{int_text, push_int_text};
use crate::torrent::{TorrentError, TorrentResult};
use crate::torrent::file::TorrentFile;

verus! {

/// The client prefix of our peer id, `-RT0001-` in ASCII.
pub const PEER_ID_PREFIX: [u8; 8] = [45, 82, 84, 48, 48, 48, 49, 45];

pub open spec fn peer_id_prefix() -> Seq<u8> {
    seq![45u8, 82, 84, 48, 48, 48, 49, 45]
}

/// A client talking to trackers, with its peer id and listening port.
#[derive(Debug)]
pub struct Client {
    peer_id: [u8; 20],
    port: u16,
}

/// The parameters of an announce request.
#[derive(Debug)]
pub struct AnnounceRequest {
    pub info_hash: [u8; 20],
    pub peer_id: [u8; 20],
    pub port: u16,
    pub uploaded: i64,
    pub downloaded: i64,
    pub compact: bool,
    pub left: i64,
}

/// An IP address, as its bytes in network order.
#[derive(Debug, Clone, Copy, PartialEq, Eq)]
pub enum IpAddress {
    V4([u8; 4]),
    V6([u8; 16]),
}

/// A peer received from a tracker.
#[derive(Debug, Clone, Copy, PartialEq, Eq)]
pub struct Peer {
    pub ip: IpAddress,
    pub port: u16,
}

/// One entry of a non-compact peer list: the address, if its text parsed as one, and port.
#[derive(Debug, Clone, Copy)]
pub struct PeerEntry {
    pub ip: Option<IpAddress>,
    pub port: u16,
}

/// The `peers` field of a tracker reply.
#[derive(Debug)]
pub enum PeerList {
    /// A byte string of 6-byte groups: IPv4 address and port, both big-endian.
    Compact(Vec<u8>),
    /// A list of dictionaries with `ip` and `port`.
    NonCompact(Vec<PeerEntry>),
}

/// A decoded tracker reply; a missing `interval` is 0 and missing `peers` an empty list.
#[derive(Debug)]
pub struct TrackerReply {
    pub interval: i64,
    pub peers: PeerList,
}

/// The parsed response of a tracker.
#[derive(Debug)]
pub struct AnnounceResponse {
    pub interval: i64,
    pub peers: Vec<Peer>,
}

/// The peer id: the client prefix followed by 12 random bytes.
pub open spec fn peer_id_of(random: Seq<u8>) -> Seq<u8> {
    peer_id_prefix() + random
}

/// Relies on `rand::rngs::OsRng` through `rand::TryRngCore::try_fill_bytes`: 12 bytes from
/// the operating system's random source, or `None` when that source fails; nothing is
/// promised of the bytes.
#[verifier::external_body]
fn random_bytes() -> (r: Option<[u8; 12]>) {
    let mut buf = [0u8; 12];
    rand::TryRngCore::try_fill_bytes(&mut rand::rngs::OsRng, &mut buf).ok().map(|_| buf)
}

/// Builds a peer id from the client prefix and 12 random bytes.
pub fn generate_peer_id(random: [u8; 12]) -> (r: [u8; 20])
    ensures
        r@ == peer_id_of(random@),
{
    let mut id = [0u8; 20];
    let mut k: usize = 0;
    while k < 20
        invariant
            k <= 20,
            forall|i: int|
                0 <= i < k ==> #[trigger] id@[i] == if i < 8 {
                    peer_id_prefix()[i]
                } else {
                    random@[i - 8]
                },
        decreases 20 - k,
    {
        if k < 8 {
            id[k] = PEER_ID_PREFIX[k];
        } else {
            id[k] = random[k - 8];
        }
        k = k + 1;
    }
    assert(id@ =~= peer_id_of(random@));
    id
}

impl Client {
    /// Our peer id.
    pub closed spec fn spec_peer_id(self) -> [u8; 20] {
        self.peer_id
    }

    /// Our listening port.
    pub closed spec fn spec_port(self) -> u16 {
        self.port
    }

    /// Creates a client listening on `port`, with a peer id made of the client prefix and
    /// fresh random bytes; `None` when the system's random source fails.
    pub fn new(port: u16) -> (r: Option<Self>)
        ensures
            r matches Some(c) ==> c.spec_port() == port && c.spec_peer_id()@.subrange(0, 8)
                == peer_id_prefix(),
    {
        let random = match random_bytes() {
            Some(bytes) => bytes,
            None => return None,
        };
        let c = Self::with_random(port, random);
        assert(c.spec_peer_id()@.subrange(0, 8) =~= peer_id_prefix());
        Some(c)
    }

    /// Creates a client whose peer id ends with the given random bytes.
    pub fn with_random(port: u16, random: [u8; 12]) -> (r: Self)
        ensures
            r.spec_port() == port,
            r.spec_peer_id()@ == peer_id_of(random@),
    {
        Client { peer_id: generate_peer_id(random), port }
    }

    pub fn peer_id(&self) -> (r: [u8; 20])
        ensures
            r == self.spec_peer_id(),
    {
        self.peer_id
    }

    pub fn port(&self) -> (r: u16)
        ensures
            r == self.spec_port(),
    {
        self.port
    }

    /// The request of a fresh download: nothing uploaded or downloaded, the whole torrent
    /// left, compact peers asked for.
    pub fn announce_request(&self, torrent: &TorrentFile) -> (r: AnnounceRequest)
        requires
            torrent.sums_fit(),
        ensures
            r.info_hash == torrent.info_hash,
            r.peer_id == self.spec_peer_id(),
            r.port == self.spec_port(),
            r.uploaded == 0,
            r.downloaded == 0,
            r.compact,
            r.left == torrent.total_length_spec(),
    {
        AnnounceRequest {
            info_hash: torrent.info_hash,
            peer_id: self.peer_id,
            port: self.port,
            uploaded: 0,
            downloaded: 0,
            compact: true,
            left: torrent.total_length(),
        }
    }
}

/// Relies on `String::push`: appends one character.
#[verifier::external_body]
fn push_char(s: &mut String, c: char)
    ensures
        final(s)@ == old(s)@.push(c),
{
    s.push(c)
}

/// Bytes left as they are by percent-encoding: ASCII letters, digits and `-._~`.
pub open spec fn is_unreserved(b: u8) -> bool {
    (97 <= b <= 122) || (65 <= b <= 90) || (48 <= b <= 57) || b == 45 || b == 46 || b == 95 || b
        == 126
}

/// The upper-case hexadecimal digit of `d`, for `0 <= d < 16`.
pub open spec fn hex_digit(d: u8) -> char {
    if d < 10 {
        ((48 + d) as u8) as char
    } else {
        ((55 + d) as u8) as char
    }
}

/// One byte percent-encoded: itself if unreserved, else `%` and two upper-case hex digits.
pub open spec fn percent_byte(b: u8) -> Seq<char> {
    if is_unreserved(b) {
        seq![b as char]
    } else {
        seq!['%', hex_digit(b / 16), hex_digit(b % 16)]
    }
}

/// Percent-encoding of every byte in order.
pub open spec fn percent_encode(b: Seq<u8>) -> Seq<char>
    decreases b.len(),
{
    if b.len() == 0 {
        Seq::empty()
    } else {
        percent_encode(b.drop_last()) + percent_byte(b.last())
    }
}

fn hex_char(d: u8) -> (r: char)
    requires
        d < 16,
    ensures
        r == hex_digit(d),
{
    if d < 10 {
        (48u8 + d) as char
    } else {
        (55u8 + d) as char
    }
}

/// Percent-encodes raw bytes: every byte but ASCII letters, digits and `-._~` becomes `%XX`
/// in upper-case hexadecimal.
pub fn url_encode(bytes: &[u8]) -> (r: String)
    ensures
        r@ == percent_encode(bytes@),
{
    let mut encoded = String::new();
    let mut i: usize = 0;
    assert(bytes@.subrange(0, 0) =~= Seq::<u8>::empty());
    while i < bytes.len()
        invariant
            i <= bytes@.len(),
            encoded@ == percent_encode(bytes@.subrange(0, i as int)),
        decreases bytes@.len() - i,
    {
        let byte = bytes[i];
        let ghost next = bytes@.subrange(0, i + 1);
        assert(next.drop_last() =~= bytes@.subrange(0, i as int));
        let unreserved = (97u8 <= byte && byte <= 122u8) || (65u8 <= byte && byte <= 90u8) || (48u8
            <= byte && byte <= 57u8) || byte == 45u8 || byte == 46u8 || byte == 95u8 || byte
            == 126u8;
        if unreserved {
            push_char(&mut encoded, byte as char);
        } else {
            push_char(&mut encoded, '%');
            push_char(&mut encoded, hex_char(byte / 16));
            push_char(&mut encoded, hex_char(byte % 16));
        }
        i = i + 1;
        assert(encoded@ =~= percent_encode(bytes@.subrange(0, i as int)));
    }
    assert(bytes@.subrange(0, i as int) =~= bytes@);
    encoded
}

/// The decimal text of an integer as characters.
pub open spec fn decimal(i: int) -> Seq<char> {
    int_text(i).map_values(|b: u8| b as char)
}

fn push_decimal_text(s: &mut String, i: i64)
    ensures
        final(s)@ == old(s)@ + decimal(i as int),
{
    let mut digits: Vec<u8> = Vec::new();
    push_int_text(&mut digits, i);
    assert(digits@ =~= int_text(i as int));
    let ghost start = s@;
    let mut k: usize = 0;
    while k < digits.len()
        invariant
            k <= digits@.len(),
            digits@ == int_text(i as int),
            s@ == start + digits@.subrange(0, k as int).map_values(|b: u8| b as char),
        decreases digits@.len() - k,
    {
        push_char(s, digits[k] as char);
        k = k + 1;
        assert(s@ =~= start + digits@.subrange(0, k as int).map_values(|b: u8| b as char));
    }
    assert(digits@.subrange(0, k as int) =~= digits@);
}

/// The query string of an announce request.
pub open spec fn announce_query_text(r: AnnounceRequest) -> Seq<char> {
    "info_hash="@ + percent_encode(r.info_hash@) + "&peer_id="@ + percent_encode(r.peer_id@)
        + "&port="@ + decimal(r.port as int) + "&uploaded="@ + decimal(r.uploaded as int)
        + "&downloaded="@ + decimal(r.downloaded as int) + "&left="@ + decimal(r.left as int)
        + "&compact="@ + (if r.compact {
        "1"@
    } else {
        "0"@
    })
}

/// Builds the query string of an announce request: `info_hash`, `peer_id` (both
/// percent-encoded byte by byte), `port`, `uploaded`, `downloaded`, `left` and `compact`.
pub fn announce_query(request: &AnnounceRequest) -> (r: String)
    ensures
        r@ == announce_query_text(*request),
{
    let mut q = String::new();
    q.append("info_hash=");
    q.append(url_encode(&request.info_hash).as_str());
    q.append("&peer_id=");
    q.append(url_encode(&request.peer_id).as_str());
    q.append("&port=");
    push_decimal_text(&mut q, request.port as i64);
    q.append("&uploaded=");
    push_decimal_text(&mut q, request.uploaded);
    q.append("&downloaded=");
    push_decimal_text(&mut q, request.downloaded);
    q.append("&left=");
    push_decimal_text(&mut q, request.left);
    q.append("&compact=");
    q.append(if request.compact { "1" } else { "0" });
    assert(q@ =~= announce_query_text(*request));
    q
}

/// The serialization of the URL that `url::Url::parse` reads from a text, or `None` when it
/// rejects the text.
pub uninterp spec fn url_serialization(text: Seq<char>) -> Option<Seq<char>>;

/// Relies on `url::Url::parse`: it accepts or rejects the text, and serializes what it
/// accepts, as a function of the text alone.
#[verifier::external_body]
fn parse_url(text: &str) -> (r: Result<Vec<char>, url::ParseError>)
    ensures
        match url_serialization(text@) {
            Some(u) => r matches Ok(v) && v@ == u,
            None => r is Err,
        },
{
    url::Url::parse(text).map(|u| u.as_str().chars().collect())
}

/// The position of the first `c` in `s` at or after `from`, or `s.len()` if there is none.
pub open spec fn first_index(s: Seq<char>, c: char, from: int) -> int
    decreases s.len() - from,
{
    if from < 0 || from >= s.len() {
        s.len() as int
    } else if s[from] == c {
        from
    } else {
        first_index(s, c, from + 1)
    }
}

/// The URL with `q` appended to its query, before any fragment: after `&` when the URL has a
/// non-empty query, directly after a bare `?`, and after a new `?` when it has no query.
pub open spec fn with_query(url: Seq<char>, q: Seq<char>) -> Seq<char> {
    let f = first_index(url, '#', 0);
    let head = url.subrange(0, f);
    let tail = url.subrange(f, url.len() as int);
    let sep = if first_index(head, '?', 0) < head.len() {
        if head.last() == '?' {
            Seq::empty()
        } else {
            seq!['&']
        }
    } else {
        seq!['?']
    };
    head + sep + q + tail
}

proof fn lemma_first_index(s: Seq<char>, c: char, from: int)
    requires
        0 <= from <= s.len(),
    ensures
        from <= first_index(s, c, from) <= s.len(),
        first_index(s, c, from) < s.len() ==> s[first_index(s, c, from)] == c,
        forall|j: int| from <= j < first_index(s, c, from) ==> s[j] != c,
    decreases s.len() - from,
{
    if from < s.len() && s[from] != c {
        lemma_first_index(s, c, from + 1);
    }
}

/// Finds the first `c` at or after `from`, or the length.
fn find_char(s: &Vec<char>, c: char, from: usize, to: usize) -> (r: usize)
    requires
        from <= to <= s@.len(),
    ensures
        r == first_index(s@.subrange(0, to as int), c, from as int),
{
    let ghost h = s@.subrange(0, to as int);
    let mut i = from;
    while i < to
        invariant
            from <= i <= to,
            to <= s@.len(),
            h == s@.subrange(0, to as int),
            first_index(h, c, from as int) == first_index(h, c, i as int),
        decreases to - i,
    {
        if s[i] == c {
            return i;
        }
        i = i + 1;
    }
    i
}

/// Appends `chars[from..to]` to `out`.
fn push_chars(out: &mut String, chars: &Vec<char>, from: usize, to: usize)
    requires
        from <= to <= chars@.len(),
    ensures
        final(out)@ == old(out)@ + chars@.subrange(from as int, to as int),
{
    let mut i = from;
    while i < to
        invariant
            from <= i <= to,
            to <= chars@.len(),
            out@ == old(out)@ + chars@.subrange(from as int, i as int),
        decreases to - i,
    {
        push_char(out, chars[i]);
        i = i + 1;
        assert(out@ =~= old(out)@ + chars@.subrange(from as int, i as int));
    }
}

/// Appends `query` to the query of a URL text, before any fragment.
pub fn append_query(url: &Vec<char>, query: &str) -> (r: String)
    ensures
        r@ == with_query(url@, query@),
{
    let n = url.len();
    assert(url@.subrange(0, n as int) =~= url@);
    let f = find_char(url, '#', 0, n);
    proof {
        lemma_first_index(url@, '#', 0);
    }
    let q = find_char(url, '?', 0, f);
    let mut out = String::new();
    push_chars(&mut out, url, 0, f);
    if q < f {
        if url[f - 1] != '?' {
            push_char(&mut out, '&');
        }
    } else {
        push_char(&mut out, '?');
    }
    out.append(query);
    push_chars(&mut out, url, f, n);
    proof {
        let head = url@.subrange(0, f as int);
        assert(out@ =~= with_query(url@, query@));
    }
    out
}

/// The announce URL: the torrent's `announce` URL, as `url::Url::parse` serializes it, with
/// the request's query string appended to any query it already has. Fails exactly when
/// `announce` is not a URL.
pub fn announce_url(announce: &str, request: &AnnounceRequest) -> (r: TorrentResult<String>)
    ensures
        match url_serialization(announce@) {
            Some(u) => r matches Ok(s) && s@ == with_query(u, announce_query_text(*request)),
            None => r matches Err(TorrentError::UrlParse(_)),
        },
{
    let url = match parse_url(announce) {
        Ok(u) => u,
        Err(e) => return Err(TorrentError::UrlParse(e)),
    };
    let query = announce_query(request);
    Ok(append_query(&url, query.as_str()))
}

/// A peer read from a 6-byte compact group: IPv4 address, then big-endian port.
pub open spec fn peer_from_group(p: Peer, group: Seq<u8>) -> bool {
    &&& p.ip matches IpAddress::V4(a)
    &&& a@ == group.subrange(0, 4)
    &&& p.port == group[4] as int * 256 + group[5] as int
}

/// The compact peer list: one peer per whole 6-byte group, in order; trailing bytes that
/// make no whole group are ignored.
pub open spec fn compact_peers(b: Seq<u8>, peers: Seq<Peer>) -> bool {
    &&& peers.len() == b.len() / 6
    &&& forall|i: int|
        0 <= i < peers.len() ==> peer_from_group(#[trigger] peers[i], b.subrange(6 * i, 6 * i + 6))
}

/// The entries whose address parsed, in order.
pub open spec fn kept_peers(entries: Seq<PeerEntry>) -> Seq<Peer>
    decreases entries.len(),
{
    if entries.len() == 0 {
        Seq::empty()
    } else {
        let rest = kept_peers(entries.drop_last());
        match entries.last().ip {
            Some(ip) => rest.push(Peer { ip, port: entries.last().port }),
            None => rest,
        }
    }
}

/// Decodes a compact peer list: each 6-byte group is an IPv4 address and a big-endian port.
pub fn parse_compact_peers(bytes: &[u8]) -> (r: Vec<Peer>)
    ensures
        compact_peers(bytes@, r@),
{
    let n = bytes.len() / 6;
    let total = bytes.len();
    let mut peers: Vec<Peer> = Vec::new();
    let mut i: usize = 0;
    while i < n
        invariant
            n == bytes@.len() / 6,
            total == bytes@.len(),
            i <= n,
            peers@.len() == i,
            forall|k: int|
                0 <= k < i ==> peer_from_group(
                    #[trigger] peers@[k],
                    bytes@.subrange(6 * k, 6 * k + 6),
                ),
        decreases n - i,
    {
        assert(6 * i + 6 <= total) by (nonlinear_arith)
            requires
                i < n,
                n == total / 6,
        ;
        let at = 6 * i;
        let ip = [bytes[at], bytes[at + 1], bytes[at + 2], bytes[at + 3]];
        let port = (bytes[at + 4] as u16) * 256 + bytes[at + 5] as u16;
        let peer = Peer { ip: IpAddress::V4(ip), port };
        assert(ip@ =~= bytes@.subrange(6 * i, 6 * i + 6).subrange(0, 4));
        peers.push(peer);
        i = i + 1;
    }
    peers
}

/// Keeps the entries of a non-compact peer list whose address parsed, in order.
pub fn peers_from_entries(entries: &Vec<PeerEntry>) -> (r: Vec<Peer>)
    ensures
        r@ == kept_peers(entries@),
{
    let mut peers: Vec<Peer> = Vec::new();
    let mut i: usize = 0;
    assert(entries@.subrange(0, 0) =~= Seq::<PeerEntry>::empty());
    while i < entries.len()
        invariant
            i <= entries@.len(),
            peers@ == kept_peers(entries@.subrange(0, i as int)),
        decreases entries@.len() - i,
    {
        let ghost next = entries@.subrange(0, i + 1);
        assert(next.drop_last() =~= entries@.subrange(0, i as int));
        let entry = entries[i];
        match entry.ip {
            Some(ip) => peers.push(Peer { ip, port: entry.port }),
            None => {},
        }
        i = i + 1;
    }
    assert(entries@.subrange(0, i as int) =~= entries@);
    peers
}

impl Client {
    /// Interprets a decoded tracker reply: the interval as given, and the peers of either
    /// form.
    pub fn parse_announce_response(reply: &TrackerReply) -> (r: AnnounceResponse)
        ensures
            r.interval == reply.interval,
            reply.peers matches PeerList::Compact(b) ==> compact_peers(b@, r.peers@),
            reply.peers matches PeerList::NonCompact(e) ==> r.peers@ == kept_peers(e@),
    {
        let peers = match &reply.peers {
            PeerList::Compact(b) => parse_compact_peers(b.as_slice()),
            PeerList::NonCompact(e) => peers_from_entries(e),
        };
        AnnounceResponse { interval: reply.interval, peers }
    }
}

} // verus!
