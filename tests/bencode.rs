use rs_torrent_client::bencode::decoder::{decode, decode_integer, decode_next, decode_string, read_until};
use rs_torrent_client::bencode::encoder::encode;
use rs_torrent_client::bencode::{bytes_less, dict_insert, BencodeError, BencodeValue};

fn encoded(v: &BencodeValue) -> Vec<u8> {
    let mut out = Vec::new();
    encode(&mut out, v);
    out
}

fn dict(entries: Vec<(&str, BencodeValue)>) -> BencodeValue {
    let mut d = Vec::new();
    for (k, v) in entries {
        dict_insert(&mut d, k.as_bytes().to_vec(), v);
    }
    BencodeValue::Dict(d)
}

#[test]
fn integer_zero_decodes() {
    assert_eq!(decode(b"i0e").unwrap(), BencodeValue::Integer(0));
}

#[test]
fn negative_integer_decodes() {
    assert_eq!(decode(b"i-42e").unwrap(), BencodeValue::Integer(-42));
}

#[test]
fn integer_with_leading_zero_fails() {
    assert_eq!(decode(b"i03e").unwrap_err(), BencodeError::InvalidInteger);
}

#[test]
fn negative_zero_fails() {
    assert_eq!(decode(b"i-0e").unwrap_err(), BencodeError::InvalidInteger);
}

#[test]
fn empty_integer_fails() {
    assert_eq!(decode(b"ie").unwrap_err(), BencodeError::InvalidInteger);
}

#[test]
fn integer_limits() {
    assert_eq!(decode(b"i9223372036854775807e").unwrap(), BencodeValue::Integer(i64::MAX));
    assert_eq!(decode(b"i-9223372036854775808e").unwrap(), BencodeValue::Integer(i64::MIN));
    assert_eq!(decode(b"i9223372036854775808e").unwrap_err(), BencodeError::InvalidInteger);
    assert_eq!(decode(b"i-9223372036854775809e").unwrap_err(), BencodeError::InvalidInteger);
}

#[test]
fn integer_without_end_fails() {
    assert_eq!(decode(b"i42").unwrap_err(), BencodeError::UnexpectedEOI);
}

#[test]
fn integer_with_junk_fails() {
    assert_eq!(decode(b"i4x2e").unwrap_err(), BencodeError::InvalidInteger);
    assert_eq!(decode(b"i-e").unwrap_err(), BencodeError::InvalidInteger);
}

#[test]
fn decode_integer_reports_end() {
    assert_eq!(decode_integer(b"xxi17ei3e", 2).unwrap(), (17, 6));
    assert_eq!(decode_integer(b"l", 0).unwrap_err(), BencodeError::UnexpectedByte(b'l'));
}

#[test]
fn string_decodes() {
    assert_eq!(decode(b"5:hello").unwrap(), BencodeValue::String(b"hello".to_vec()));
}

#[test]
fn short_string_fails() {
    assert_eq!(decode(b"5:hi").unwrap_err(), BencodeError::UnexpectedEOI);
}

#[test]
fn empty_string_decodes() {
    assert_eq!(decode(b"0:").unwrap(), BencodeValue::String(Vec::new()));
}

#[test]
fn bad_string_length_fails() {
    assert_eq!(decode_string(b"5x:hello", 0).unwrap_err(), BencodeError::InvalidStringLength);
    assert_eq!(decode_string(b"5hello", 0).unwrap_err(), BencodeError::UnexpectedEOI);
    assert_eq!(
        decode_string(b"99999999999999999999999:a", 0).unwrap_err(),
        BencodeError::InvalidStringLength
    );
}

#[test]
fn decode_string_reports_end() {
    assert_eq!(decode_string(b"3:abc4:defg", 5).unwrap(), (b"defg".to_vec(), 11));
}

#[test]
fn read_until_stops_at_delimiter() {
    assert_eq!(read_until(b"12:ab", 0, b':').unwrap(), (b"12".to_vec(), 3));
    assert_eq!(read_until(b"12ab", 0, b':').unwrap_err(), BencodeError::UnexpectedEOI);
    assert_eq!(read_until(b"", 0, b':').unwrap_err(), BencodeError::UnexpectedEOI);
}

#[test]
fn list_decodes() {
    assert_eq!(
        decode(b"li42ei-1e4:spamee").unwrap(),
        BencodeValue::List(vec![
            BencodeValue::Integer(42),
            BencodeValue::Integer(-1),
            BencodeValue::String(b"spam".to_vec()),
        ])
    );
    assert_eq!(decode(b"le").unwrap(), BencodeValue::List(Vec::new()));
    assert_eq!(decode(b"li1e").unwrap_err(), BencodeError::UnexpectedEOI);
}

#[test]
fn dict_decodes_sorted() {
    let v = decode(b"d1:bi1e1:ai2ee").unwrap();
    assert_eq!(
        v,
        BencodeValue::Dict(vec![
            (b"a".to_vec(), BencodeValue::Integer(2)),
            (b"b".to_vec(), BencodeValue::Integer(1)),
        ])
    );
    assert_eq!(decode(b"de").unwrap(), BencodeValue::Dict(Vec::new()));
}

#[test]
fn dict_repeated_key_keeps_last() {
    let v = decode(b"d1:ai1e1:ai2ee").unwrap();
    assert_eq!(v, BencodeValue::Dict(vec![(b"a".to_vec(), BencodeValue::Integer(2))]));
}

#[test]
fn dict_key_must_be_string() {
    assert_eq!(decode(b"di1ei2ee").unwrap_err(), BencodeError::DictKeyNotString);
}

#[test]
fn unexpected_byte_fails() {
    assert_eq!(decode(b"x").unwrap_err(), BencodeError::UnexpectedByte(b'x'));
    assert_eq!(decode(b"").unwrap_err(), BencodeError::UnexpectedEOI);
}

#[test]
fn decode_next_leaves_rest() {
    let (v, end) = decode_next(b"i1ei2e", 0).unwrap();
    assert_eq!(v, BencodeValue::Integer(1));
    assert_eq!(end, 3);
    let (v, end) = decode_next(b"i1ei2e", end).unwrap();
    assert_eq!(v, BencodeValue::Integer(2));
    assert_eq!(end, 6);
}

#[test]
fn encode_scalars() {
    assert_eq!(encoded(&BencodeValue::String(b"hello".to_vec())), b"5:hello".to_vec());
    assert_eq!(encoded(&BencodeValue::Integer(42)), b"i42e".to_vec());
    assert_eq!(encoded(&BencodeValue::Integer(-7)), b"i-7e".to_vec());
    assert_eq!(encoded(&BencodeValue::Integer(0)), b"i0e".to_vec());
    assert_eq!(encoded(&BencodeValue::Integer(i64::MIN)), b"i-9223372036854775808e".to_vec());
}

#[test]
fn encode_list() {
    let v = BencodeValue::List(vec![BencodeValue::Integer(1), BencodeValue::String(b"hello".to_vec())]);
    assert_eq!(encoded(&v), b"li1e5:helloe".to_vec());
}

#[test]
fn canonical_ordering() {
    let v = dict(vec![("b", BencodeValue::Integer(1)), ("a", BencodeValue::Integer(2))]);
    assert_eq!(encoded(&v), b"d1:ai2e1:bi1ee".to_vec());
}

#[test]
fn insertion_order_is_irrelevant() {
    let one = dict(vec![
        ("zeta", BencodeValue::Integer(1)),
        ("alpha", BencodeValue::Integer(2)),
        ("al", BencodeValue::Integer(3)),
    ]);
    let two = dict(vec![
        ("al", BencodeValue::Integer(3)),
        ("zeta", BencodeValue::Integer(1)),
        ("alpha", BencodeValue::Integer(2)),
    ]);
    assert_eq!(one, two);
    assert_eq!(encoded(&one), b"d2:ali3e5:alphai2e4:zetai1ee".to_vec());
}

#[test]
fn dict_insert_replaces() {
    let v = dict(vec![("k", BencodeValue::Integer(1)), ("k", BencodeValue::Integer(5))]);
    assert_eq!(v, BencodeValue::Dict(vec![(b"k".to_vec(), BencodeValue::Integer(5))]));
}

#[test]
fn byte_order() {
    assert!(bytes_less(b"a", b"b"));
    assert!(bytes_less(b"ab", b"abc"));
    assert!(!bytes_less(b"abc", b"ab"));
    assert!(!bytes_less(b"x", b"x"));
    assert!(bytes_less(b"", b"a"));
}

#[test]
fn round_trip() {
    let input = b"d4:infod6:lengthi5e4:name1:xe4:listli1e3:abcdee3:numi-3ee";
    let v = decode(input).unwrap();
    let bytes = encoded(&v);
    assert_eq!(bytes, input.to_vec());
    assert_eq!(decode(&bytes).unwrap(), v);
}

#[test]
fn round_trip_of_unsorted_input() {
    let v = decode(b"d1:bi1e1:ai2ee").unwrap();
    let bytes = encoded(&v);
    assert_eq!(decode(&bytes).unwrap(), v);
}

#[test]
fn plus_sign_integer() {
    assert_eq!(decode(b"i+5e").unwrap(), BencodeValue::Integer(5));
    assert_eq!(decode(b"i+0e").unwrap(), BencodeValue::Integer(0));
    assert_eq!(decode(b"i+e").unwrap_err(), BencodeError::InvalidInteger);
    assert_eq!(decode(b"i+-5e").unwrap_err(), BencodeError::InvalidInteger);
    assert_eq!(decode(b"i-+5e").unwrap_err(), BencodeError::InvalidInteger);
    assert_eq!(decode(b"i+9223372036854775808e").unwrap_err(), BencodeError::InvalidInteger);
}

#[test]
fn plus_sign_string_length() {
    assert_eq!(decode_string(b"+5:hello", 0).unwrap(), (b"hello".to_vec(), 8));
    assert_eq!(decode(b"+5:hello").unwrap_err(), BencodeError::UnexpectedByte(b'+'));
    assert_eq!(decode_string(b"+:a", 0).unwrap_err(), BencodeError::InvalidStringLength);
    assert_eq!(decode_string(b"-1:a", 0).unwrap_err(), BencodeError::InvalidStringLength);
}

#[test]
fn encode_sorts_unsorted_dict() {
    let v = BencodeValue::Dict(vec![
        (b"b".to_vec(), BencodeValue::Integer(1)),
        (b"a".to_vec(), BencodeValue::Integer(2)),
    ]);
    assert_eq!(encoded(&v), b"d1:ai2e1:bi1ee".to_vec());
}

#[test]
fn encode_sorts_nested_dicts_and_keeps_last_duplicate() {
    let inner = BencodeValue::Dict(vec![
        (b"z".to_vec(), BencodeValue::Integer(1)),
        (b"y".to_vec(), BencodeValue::Integer(2)),
        (b"z".to_vec(), BencodeValue::Integer(3)),
    ]);
    let v = BencodeValue::List(vec![inner]);
    assert_eq!(encoded(&v), b"ld1:yi2e1:zi3eee".to_vec());
}

#[test]
fn same_mapping_same_encoding() {
    let one = BencodeValue::Dict(vec![
        (b"k".to_vec(), BencodeValue::Integer(0)),
        (b"b".to_vec(), BencodeValue::Integer(1)),
        (b"a".to_vec(), BencodeValue::Integer(2)),
        (b"k".to_vec(), BencodeValue::Integer(3)),
    ]);
    let two = BencodeValue::Dict(vec![
        (b"a".to_vec(), BencodeValue::Integer(2)),
        (b"k".to_vec(), BencodeValue::Integer(3)),
        (b"b".to_vec(), BencodeValue::Integer(1)),
    ]);
    assert_eq!(encoded(&one), encoded(&two));
    assert_eq!(encoded(&one), b"d1:ai2e1:bi1e1:ki3ee".to_vec());
}
