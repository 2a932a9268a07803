//! The info-hash: SHA-1 of the canonical encoding of the `info` dictionary.
use vstd::prelude::*;
use sha1::Digest;
use crate::bencode::{BencodeValue, Term, view_entries};
use crate::bencode::encoder::{canonical, encode_dict, encode_term};

verus! {

/// The SHA-1 digest of a byte string.
pub uninterp spec fn sha1_of(data: Seq<u8>) -> Seq<u8>;

/// Relies on `sha1::Sha1::digest`: the 20-byte SHA-1 digest of `data`, which depends on
/// `data` alone.
#[verifier::external_body]
fn sha1_digest(data: &[u8]) -> (r: [u8; 20])
    ensures
        r@ == sha1_of(data@),
{
    sha1::Sha1::digest(data).into()
}

/// SHA-1 of the canonical bencode encoding of an `info` dictionary: its entries, at every
/// depth, in byte-lexicographic key order.
pub fn calculate_info_hash(info_dict: &Vec<(Vec<u8>, BencodeValue)>) -> (r: [u8; 20])
    ensures
        r@ == sha1_of(encode_term(canonical(Term::Dict(view_entries(info_dict@))))),
{
    let mut buffer: Vec<u8> = Vec::new();
    encode_dict(&mut buffer, info_dict);
    assert(buffer@ =~= encode_term(canonical(Term::Dict(view_entries(info_dict@)))));
    sha1_digest(buffer.as_slice())
}

} // verus!
