use rs_torrent_client::bencode::{dict_insert, BencodeValue};
use rs_torrent_client::torrent::file::TorrentFile;
use rs_torrent_client::tracker::{
    announce_query, announce_url, generate_peer_id, parse_compact_peers, peers_from_entries,
    url_encode, AnnounceRequest, Client, IpAddress, Peer, PeerEntry, PeerList, TrackerReply,
};
use rs_torrent_client::torrent::TorrentError;

fn request() -> AnnounceRequest {
    AnnounceRequest {
        info_hash: [0x12; 20],
        peer_id: *b"-RT0001-abcdefghijkl",
        port: 6881,
        uploaded: 0,
        downloaded: 0,
        compact: true,
        left: 5100,
    }
}

#[test]
fn url_encode_reserved_and_unreserved() {
    assert_eq!(url_encode(b"Hello World!"), "Hello%20World%21");
    assert_eq!(url_encode(b"aZ09-._~"), "aZ09-._~");
    assert_eq!(url_encode(&[0x00, 0xff, 0x2f]), "%00%FF%2F");
    assert_eq!(url_encode(b""), "");
}

#[test]
fn compact_peer_decode() {
    let peers = parse_compact_peers(&[127, 0, 0, 1, 0x1A, 0xE1]);
    assert_eq!(peers, vec![Peer { ip: IpAddress::V4([127, 0, 0, 1]), port: 6881 }]);
}

#[test]
fn compact_peers_ignore_partial_group() {
    let peers = parse_compact_peers(&[10, 0, 0, 2, 0, 80, 192, 168, 1, 1, 0xff, 0xff, 1, 2]);
    assert_eq!(
        peers,
        vec![
            Peer { ip: IpAddress::V4([10, 0, 0, 2]), port: 80 },
            Peer { ip: IpAddress::V4([192, 168, 1, 1]), port: 65535 },
        ]
    );
    assert!(parse_compact_peers(&[]).is_empty());
}

#[test]
fn non_compact_entries_drop_bad_addresses() {
    let entries = vec![
        PeerEntry { ip: Some(IpAddress::V4([1, 2, 3, 4])), port: 1 },
        PeerEntry { ip: None, port: 2 },
        PeerEntry { ip: Some(IpAddress::V6([0; 16])), port: 3 },
    ];
    assert_eq!(
        peers_from_entries(&entries),
        vec![
            Peer { ip: IpAddress::V4([1, 2, 3, 4]), port: 1 },
            Peer { ip: IpAddress::V6([0; 16]), port: 3 },
        ]
    );
}

#[test]
fn announce_response_keeps_interval() {
    let reply = TrackerReply { interval: 1800, peers: PeerList::Compact(vec![127, 0, 0, 1, 0x1A, 0xE1]) };
    let r = Client::parse_announce_response(&reply);
    assert_eq!(r.interval, 1800);
    assert_eq!(r.peers.len(), 1);
    let empty = TrackerReply { interval: 0, peers: PeerList::NonCompact(Vec::new()) };
    assert!(Client::parse_announce_response(&empty).peers.is_empty());
}

#[test]
fn peer_id_layout() {
    let id = generate_peer_id(*b"abcdefghijkl");
    assert_eq!(&id, b"-RT0001-abcdefghijkl");
    let c = Client::with_random(6881, *b"abcdefghijkl");
    assert_eq!(c.peer_id(), id);
    assert_eq!(c.port(), 6881);
    let fresh = Client::new(1).unwrap();
    assert_eq!(&fresh.peer_id()[..8], b"-RT0001-");
}

#[test]
fn query_string() {
    let q = announce_query(&request());
    assert_eq!(
        q,
        "info_hash=%12%12%12%12%12%12%12%12%12%12%12%12%12%12%12%12%12%12%12%12\
         &peer_id=-RT0001-abcdefghijkl&port=6881&uploaded=0&downloaded=0&left=5100&compact=1"
    );
}

#[test]
fn announce_url_appends_query() {
    let u = announce_url("http://tracker.example:8080/announce", &request()).unwrap();
    assert_eq!(u, format!("http://tracker.example:8080/announce?{}", announce_query(&request())));
}

#[test]
fn announce_url_keeps_existing_query() {
    let u = announce_url("http://tracker.example/announce?passkey=s3cr3t", &request()).unwrap();
    assert_eq!(
        u,
        format!("http://tracker.example/announce?passkey=s3cr3t&{}", announce_query(&request()))
    );
}

#[test]
fn announce_url_after_bare_question_mark() {
    let u = announce_url("http://tracker.example/announce?", &request()).unwrap();
    assert_eq!(u, format!("http://tracker.example/announce?{}", announce_query(&request())));
}

#[test]
fn announce_url_keeps_fragment_last() {
    let u = announce_url("http://tracker.example/announce?a=1#frag", &request()).unwrap();
    assert_eq!(u, format!("http://tracker.example/announce?a=1&{}#frag", announce_query(&request())));
}

#[test]
fn announce_url_is_normalized() {
    let u = announce_url("HTTP://Tracker.Example/announce", &request()).unwrap();
    assert!(u.starts_with("http://tracker.example/announce?info_hash="));
}

#[test]
fn announce_url_rejects_bad_url() {
    assert!(matches!(announce_url("not a url", &request()), Err(TorrentError::UrlParse(_))));
}

#[test]
fn announce_request_uses_total_length() {
    let mut info = Vec::new();
    dict_insert(&mut info, b"length".to_vec(), BencodeValue::Integer(777));
    dict_insert(&mut info, b"name".to_vec(), BencodeValue::String(b"f".to_vec()));
    dict_insert(&mut info, b"piece length".to_vec(), BencodeValue::Integer(1024));
    dict_insert(&mut info, b"pieces".to_vec(), BencodeValue::String(vec![0; 20]));
    let mut root = Vec::new();
    dict_insert(&mut root, b"announce".to_vec(), BencodeValue::String(b"http://t/a".to_vec()));
    dict_insert(&mut root, b"info".to_vec(), BencodeValue::Dict(info));
    let t = TorrentFile::parse(BencodeValue::Dict(root)).unwrap();
    let c = Client::with_random(51413, [0; 12]);
    let r = c.announce_request(&t);
    assert_eq!(r.left, 777);
    assert_eq!(r.port, 51413);
    assert_eq!(r.info_hash, t.info_hash);
    assert!(r.compact);
}
