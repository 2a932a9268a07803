use rs_torrent_client::bencode::decoder::decode;
use rs_torrent_client::bencode::encoder::encode;
use rs_torrent_client::bencode::{dict_insert, BencodeValue};
use rs_torrent_client::torrent::file::TorrentFile;
use rs_torrent_client::torrent::info_hash::calculate_info_hash;
use rs_torrent_client::torrent::{Field, Malformed, TorrentError};

fn s(text: &str) -> BencodeValue {
    BencodeValue::String(text.as_bytes().to_vec())
}

fn dict(entries: Vec<(&str, BencodeValue)>) -> BencodeValue {
    let mut d = Vec::new();
    for (k, v) in entries {
        dict_insert(&mut d, k.as_bytes().to_vec(), v);
    }
    BencodeValue::Dict(d)
}

fn encoded(v: &BencodeValue) -> Vec<u8> {
    let mut out = Vec::new();
    encode(&mut out, v);
    out
}

fn pieces(n: usize) -> BencodeValue {
    BencodeValue::String((0..n * 20).map(|i| i as u8).collect())
}

fn single_file_info() -> BencodeValue {
    dict(vec![
        ("length", BencodeValue::Integer(1_048_576)),
        ("name", s("file.bin")),
        ("piece length", BencodeValue::Integer(262_144)),
        ("pieces", pieces(4)),
    ])
}

fn single_file_root(comment: &str) -> BencodeValue {
    dict(vec![
        ("announce", s("http://tracker.example/announce")),
        ("comment", s(comment)),
        ("info", single_file_info()),
    ])
}

fn multi_file_root() -> BencodeValue {
    let file_a = dict(vec![
        ("length", BencodeValue::Integer(100)),
        ("path", BencodeValue::List(vec![s("a.txt")])),
    ]);
    let file_b = dict(vec![
        ("length", BencodeValue::Integer(5000)),
        ("path", BencodeValue::List(vec![s("dir"), s("b.txt")])),
    ]);
    let info = dict(vec![
        ("files", BencodeValue::List(vec![file_a, file_b])),
        ("name", s("root")),
        ("piece length", BencodeValue::Integer(1024)),
        ("pieces", pieces(5)),
    ]);
    dict(vec![("announce", s("http://t.example/a")), ("info", info)])
}

fn hex(bytes: &[u8]) -> String {
    bytes.iter().map(|b| format!("{:02x}", b)).collect()
}

#[test]
fn parses_single_file_torrent() {
    let t = TorrentFile::parse(single_file_root("hello")).unwrap();
    assert_eq!(t.announce, "http://tracker.example/announce");
    assert_eq!(t.comment, "hello");
    assert_eq!(t.created_by, "");
    assert_eq!(t.info.name, "file.bin");
    assert_eq!(t.info.length, Some(1_048_576));
    assert!(!t.info.is_directory);
    assert!(!t.info.private);
    assert_eq!(t.pieces_hash.len(), 4);
    assert_eq!(t.pieces_hash[1][0], 20);
    assert_eq!(t.creation_date, None);
}

#[test]
fn info_hash_is_sha1_of_canonical_info() {
    let t = TorrentFile::parse(single_file_root("hello")).unwrap();
    assert_eq!(hex(&t.info_hash), "589cc803dbcf24d786b08e8d8d39eb0719d3a572");
}

#[test]
fn info_hash_of_empty_dict() {
    assert_eq!(hex(&calculate_info_hash(&Vec::new())), "600ccd1b71569232d01d110bc63e906beab04d8c");
}

#[test]
fn info_hash_is_stable() {
    let bytes = encoded(&single_file_root("hello"));
    let a = TorrentFile::parse(decode(&bytes).unwrap()).unwrap();
    let b = TorrentFile::parse(decode(&bytes).unwrap()).unwrap();
    assert_eq!(a.info_hash, b.info_hash);
}

#[test]
fn info_hash_ignores_outside_fields() {
    let a = TorrentFile::parse(decode(&encoded(&single_file_root("one"))).unwrap()).unwrap();
    let b = TorrentFile::parse(decode(&encoded(&single_file_root("two"))).unwrap()).unwrap();
    assert_ne!(a.comment, b.comment);
    assert_eq!(a.info_hash, b.info_hash);
}

#[test]
fn info_hash_follows_info_bytes() {
    let bytes = encoded(&single_file_root("hello"));
    let mut changed = bytes.clone();
    let at = changed.windows(8).position(|w| w == b"file.bin").unwrap();
    changed[at] = b'g';
    let a = TorrentFile::parse(decode(&bytes).unwrap()).unwrap();
    let b = TorrentFile::parse(decode(&changed).unwrap()).unwrap();
    assert_ne!(a.info_hash, b.info_hash);
}

#[test]
fn single_file_piece_mapping() {
    let t = TorrentFile::parse(single_file_root("")).unwrap();
    assert_eq!(t.total_length(), 1_048_576);
    assert_eq!(t.num_pieces(), 4);
    assert_eq!(t.piece_size(0), 262_144);
    assert_eq!(t.piece_size(3), 262_144);
    assert_eq!(t.piece_size(4), 0);
    assert_eq!(t.file_paths_for_piece(3), vec![vec!["file.bin".to_string()]]);
    assert!(t.file_paths_for_piece(4).is_empty());
}

#[test]
fn multi_file_piece_mapping() {
    let t = TorrentFile::parse(multi_file_root()).unwrap();
    assert!(t.info.is_directory);
    assert_eq!(t.total_length(), 5100);
    assert_eq!(t.num_pieces(), 5);
    assert_eq!(t.piece_size(4), 5100 - 4 * 1024);
    let both = t.file_paths_for_piece(0);
    assert_eq!(
        both,
        vec![
            vec!["root".to_string(), "a.txt".to_string()],
            vec!["root".to_string(), "dir".to_string(), "b.txt".to_string()],
        ]
    );
    assert_eq!(
        t.file_paths_for_piece(1),
        vec![vec!["root".to_string(), "dir".to_string(), "b.txt".to_string()]]
    );
    assert!(t.file_paths_for_piece(5).is_empty());
}

#[test]
fn last_piece_remainder() {
    let info = dict(vec![
        ("length", BencodeValue::Integer(1000)),
        ("name", s("f")),
        ("piece length", BencodeValue::Integer(300)),
        ("pieces", pieces(4)),
    ]);
    let t = TorrentFile::parse(dict(vec![("announce", s("u")), ("info", info)])).unwrap();
    assert_eq!(t.piece_size(2), 300);
    assert_eq!(t.piece_size(3), 100);
}

#[test]
fn announce_list_and_optional_fields() {
    let root = dict(vec![
        ("announce", s("a")),
        (
            "announce-list",
            BencodeValue::List(vec![
                BencodeValue::List(vec![s("x"), s("y")]),
                BencodeValue::List(vec![s("z")]),
            ]),
        ),
        ("created by", BencodeValue::String(vec![0xff, 0xfe])),
        ("creation date", BencodeValue::Integer(1_700_000_000)),
        ("encoding", s("UTF-8")),
        ("info", single_file_info()),
    ]);
    let t = TorrentFile::parse(root).unwrap();
    assert_eq!(
        t.announce_list,
        vec![vec!["x".to_string(), "y".to_string()], vec!["z".to_string()]]
    );
    assert_eq!(t.created_by, "");
    assert_eq!(t.encoding, "UTF-8");
    assert_eq!(t.creation_date, Some(1_700_000_000));
}

#[test]
fn private_flag() {
    let info = dict(vec![
        ("name", s("f")),
        ("piece length", BencodeValue::Integer(1)),
        ("pieces", pieces(0)),
        ("private", BencodeValue::Integer(1)),
    ]);
    let t = TorrentFile::parse(dict(vec![("announce", s("u")), ("info", info)])).unwrap();
    assert!(t.info.private);
    assert_eq!(t.info.length, None);
    assert_eq!(t.total_length(), 0);
    assert_eq!(t.num_pieces(), 0);
}

#[test]
fn root_must_be_dict() {
    let e = TorrentFile::parse(BencodeValue::Integer(1)).unwrap_err();
    assert!(matches!(e, TorrentError::InvalidFormat(Malformed::RootNotDict)));
}

#[test]
fn missing_announce() {
    let e = TorrentFile::parse(dict(vec![("info", single_file_info())])).unwrap_err();
    assert!(matches!(e, TorrentError::MissingField(Field::Announce)));
}

#[test]
fn announce_not_utf8() {
    let root = dict(vec![("announce", BencodeValue::String(vec![0xc3])), ("info", single_file_info())]);
    let e = TorrentFile::parse(root).unwrap_err();
    assert!(matches!(e, TorrentError::InvalidFormat(Malformed::AnnounceNotUtf8)));
}

#[test]
fn missing_info() {
    let e = TorrentFile::parse(dict(vec![("announce", s("u"))])).unwrap_err();
    assert!(matches!(e, TorrentError::MissingField(Field::Info)));
}

#[test]
fn info_not_dict() {
    let e = TorrentFile::parse(dict(vec![("announce", s("u")), ("info", s("x"))])).unwrap_err();
    assert!(matches!(e, TorrentError::InvalidFormat(Malformed::InfoNotDict)));
}

#[test]
fn missing_info_fields() {
    let no_pl = dict(vec![("name", s("f")), ("pieces", pieces(1))]);
    let e = TorrentFile::parse(dict(vec![("announce", s("u")), ("info", no_pl)])).unwrap_err();
    assert!(matches!(e, TorrentError::MissingField(Field::PieceLength)));
    let no_pieces = dict(vec![("name", s("f")), ("piece length", BencodeValue::Integer(1))]);
    let e = TorrentFile::parse(dict(vec![("announce", s("u")), ("info", no_pieces)])).unwrap_err();
    assert!(matches!(e, TorrentError::MissingField(Field::Pieces)));
    let no_name = dict(vec![("piece length", BencodeValue::Integer(1)), ("pieces", pieces(1))]);
    let e = TorrentFile::parse(dict(vec![("announce", s("u")), ("info", no_name)])).unwrap_err();
    assert!(matches!(e, TorrentError::MissingField(Field::Name)));
}

#[test]
fn bad_file_entries() {
    let info = |files: BencodeValue| {
        dict(vec![
            ("files", files),
            ("name", s("r")),
            ("piece length", BencodeValue::Integer(1)),
            ("pieces", pieces(1)),
        ])
    };
    let root = |files| dict(vec![("announce", s("u")), ("info", info(files))]);
    let e = TorrentFile::parse(root(BencodeValue::List(vec![s("x")]))).unwrap_err();
    assert!(matches!(e, TorrentError::InvalidFormat(Malformed::FileEntryNotDict)));
    let no_len = dict(vec![("path", BencodeValue::List(vec![s("a")]))]);
    let e = TorrentFile::parse(root(BencodeValue::List(vec![no_len]))).unwrap_err();
    assert!(matches!(e, TorrentError::MissingField(Field::FileLength)));
    let no_path = dict(vec![("length", BencodeValue::Integer(1))]);
    let e = TorrentFile::parse(root(BencodeValue::List(vec![no_path]))).unwrap_err();
    assert!(matches!(e, TorrentError::MissingField(Field::FilePath)));
    let bad_part = dict(vec![
        ("length", BencodeValue::Integer(1)),
        ("path", BencodeValue::List(vec![BencodeValue::Integer(3)])),
    ]);
    let e = TorrentFile::parse(root(BencodeValue::List(vec![bad_part]))).unwrap_err();
    assert!(matches!(e, TorrentError::InvalidFormat(Malformed::PathComponentNotString)));
}

#[test]
fn bad_announce_list() {
    let root = |al: BencodeValue| {
        dict(vec![("announce", s("u")), ("announce-list", al), ("info", single_file_info())])
    };
    let e = TorrentFile::parse(root(s("x"))).unwrap_err();
    assert!(matches!(e, TorrentError::InvalidFormat(Malformed::AnnounceListNotList)));
    let e = TorrentFile::parse(root(BencodeValue::List(vec![s("x")]))).unwrap_err();
    assert!(matches!(e, TorrentError::InvalidFormat(Malformed::TierNotList)));
    let e = TorrentFile::parse(root(BencodeValue::List(vec![BencodeValue::List(vec![
        BencodeValue::Integer(1),
    ])])))
    .unwrap_err();
    assert!(matches!(e, TorrentError::InvalidFormat(Malformed::TrackerNotString)));
}

#[test]
fn bad_creation_date() {
    let root = |d: BencodeValue| {
        dict(vec![("announce", s("u")), ("creation date", d), ("info", single_file_info())])
    };
    let e = TorrentFile::parse(root(BencodeValue::Integer(-1))).unwrap_err();
    assert!(matches!(e, TorrentError::DateParseError));
    let e = TorrentFile::parse(root(s("yesterday"))).unwrap_err();
    assert!(matches!(e, TorrentError::InvalidFormat(Malformed::CreationDateNotInteger)));
}

#[test]
fn pieces_length_must_be_multiple_of_twenty() {
    let info = dict(vec![
        ("name", s("f")),
        ("piece length", BencodeValue::Integer(1)),
        ("pieces", BencodeValue::String(vec![0; 21])),
    ]);
    let e = TorrentFile::parse(dict(vec![("announce", s("u")), ("info", info)])).unwrap_err();
    assert!(matches!(e, TorrentError::InvalidPiecesHashLength));
}

#[test]
fn info_hash_of_unsorted_info_is_canonical() {
    let sorted = match single_file_info() {
        BencodeValue::Dict(d) => d,
        _ => unreachable!(),
    };
    let reversed: Vec<(Vec<u8>, BencodeValue)> = sorted.into_iter().rev().collect();
    assert_eq!(hex(&calculate_info_hash(&reversed)), "589cc803dbcf24d786b08e8d8d39eb0719d3a572");
}
