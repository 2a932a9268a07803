//! The `.torrent` metadata model, its parser and the piece-to-file mapping.
use vstd::prelude::*;
use vstd::utf8::{valid_utf8, decode_utf8};
use vstd::string::StringSliceAdditionalSpecFns;
use crate::bencode::{BencodeValue, Term, view_entries, view_items, lemma_view_entries, lemma_view_items};
use crate::bencode::decoder::copy_range;
use crate::torrent::{Field, Malformed, TorrentError, TorrentResult};
use crate::torrent::info_hash::{calculate_info_hash, sha1_of};
use crate::bencode::encoder::{canonical, encode_term};
use crate::bencode::{lookup, wf_term};
use crate::bencode::decoder::parse_value;
use crate::bencode::canonical::{lemma_canonical_wf, lemma_encoding_injective, lemma_parse_value_wf};

verus! {

/// Parsed `.torrent` metadata.
#[derive(Debug, Clone, PartialEq)]
pub struct TorrentFile {
    pub announce: String,
    pub announce_list: Vec<Vec<String>>,
    /// Seconds since the Unix epoch.
    pub creation_date: Option<u64>,
    pub comment: String,
    pub created_by: String,
    pub encoding: String,
    pub info: InfoDict,
    pub info_hash: [u8; 20],
    pub pieces_hash: Vec<[u8; 20]>,
}

/// The `info` dictionary.
#[derive(Debug, Clone, PartialEq)]
pub struct InfoDict {
    pub piece_length: i64,
    pub pieces: Vec<u8>,
    pub private: bool,
    pub name: String,
    pub length: Option<i64>,
    pub files: Vec<FileDict>,
    pub is_directory: bool,
}

/// One file of a multi-file torrent: its length and its path below the root name.
#[derive(Debug, Clone, PartialEq)]
pub struct FileDict {
    pub length: i64,
    pub path: Vec<String>,
}

pub struct FileModel {
    pub length: int,
    pub path: Seq<Seq<char>>,
}

pub struct InfoModel {
    pub piece_length: int,
    pub pieces: Seq<u8>,
    pub private: bool,
    pub name: Seq<char>,
    pub length: Option<int>,
    pub files: Seq<FileModel>,
    pub is_directory: bool,
}

pub struct TorrentModel {
    pub announce: Seq<char>,
    pub announce_list: Seq<Seq<Seq<char>>>,
    pub creation_date: Option<int>,
    pub comment: Seq<char>,
    pub created_by: Seq<char>,
    pub encoding: Seq<char>,
    pub info: InfoModel,
    pub info_hash: Seq<u8>,
    pub pieces_hash: Seq<Seq<u8>>,
}

pub open spec fn strings_view(s: Seq<String>) -> Seq<Seq<char>> {
    s.map_values(|x: String| x@)
}

pub open spec fn tiers_view(s: Seq<Vec<String>>) -> Seq<Seq<Seq<char>>> {
    s.map_values(|x: Vec<String>| strings_view(x@))
}

impl FileDict {
    pub open spec fn view(self) -> FileModel {
        FileModel { length: self.length as int, path: strings_view(self.path@) }
    }
}

pub open spec fn files_view(s: Seq<FileDict>) -> Seq<FileModel> {
    s.map_values(|f: FileDict| f.view())
}

impl InfoDict {
    pub open spec fn view(self) -> InfoModel {
        InfoModel {
            piece_length: self.piece_length as int,
            pieces: self.pieces@,
            private: self.private,
            name: self.name@,
            length: match self.length {
                Some(l) => Some(l as int),
                None => None,
            },
            files: files_view(self.files@),
            is_directory: self.is_directory,
        }
    }
}

impl TorrentFile {
    pub open spec fn view(self) -> TorrentModel {
        TorrentModel {
            announce: self.announce@,
            announce_list: tiers_view(self.announce_list@),
            creation_date: match self.creation_date {
                Some(d) => Some(d as int),
                None => None,
            },
            comment: self.comment@,
            created_by: self.created_by@,
            encoding: self.encoding@,
            info: self.info.view(),
            info_hash: self.info_hash@,
            pieces_hash: self.pieces_hash@.map_values(|h: [u8; 20]| h@),
        }
    }
}

/// The text that `b` spells, if it is valid UTF-8.
pub open spec fn utf8_text(b: Seq<u8>) -> Option<Seq<char>> {
    if valid_utf8(b) {
        Some(decode_utf8(b))
    } else {
        None
    }
}

/// Relies on `String::from_utf8`: it succeeds exactly on valid UTF-8, with the text the bytes
/// encode.
#[verifier::external_body]
fn utf8_string(b: &[u8]) -> (r: Option<String>)
    ensures
        match utf8_text(b@) {
            Some(t) => r matches Some(s) && s@ == t,
            None => r is None,
        },
{
    String::from_utf8(b.to_vec()).ok()
}

/// The value of the first entry whose key is `key`.
pub fn dict_get<'a>(d: &'a Vec<(Vec<u8>, BencodeValue)>, key: &[u8]) -> (r: Option<&'a BencodeValue>)
    ensures
        match lookup(view_entries(d@), key@) {
            None => r is None,
            Some(t) => r matches Some(v) && v.view() == t,
        },
{
    let ghost e = view_entries(d@);
    proof {
        lemma_view_entries(d@);
        assert(e.subrange(0, e.len() as int) =~= e);
    }
    let mut i: usize = 0;
    while i < d.len()
        invariant
            i <= d.len(),
            e == view_entries(d@),
            e.len() == d@.len(),
            forall|j: int| 0 <= j < d@.len() ==> #[trigger] e[j] == (d@[j].0@, d@[j].1.view()),
            lookup(e, key@) == lookup(e.subrange(i as int, e.len() as int), key@),
        decreases d.len() - i,
    {
        let ghost rest = e.subrange(i as int, e.len() as int);
        assert(rest[0] == e[i as int]);
        if crate::bencode::bytes_eq(d[i].0.as_slice(), key) {
            return Some(&d[i].1);
        }
        assert(rest.drop_first() =~= e.subrange(i + 1, e.len() as int));
        i = i + 1;
    }
    None
}

/// Each item mapped by `f`, or the first error of `f` in item order.
pub open spec fn collect_all<A>(items: Seq<Term>, f: spec_fn(Term) -> Result<A, TorrentError>) -> Result<
    Seq<A>,
    TorrentError,
>
    decreases items.len(),
{
    if items.len() == 0 {
        Ok(Seq::empty())
    } else {
        match collect_all(items.drop_last(), f) {
            Err(e) => Err(e),
            Ok(done) => match f(items.last()) {
                Err(e) => Err(e),
                Ok(x) => Ok(done.push(x)),
            },
        }
    }
}

/// An error in a prefix is the error of the whole.
pub proof fn lemma_collect_all_err<A>(
    items: Seq<Term>,
    f: spec_fn(Term) -> Result<A, TorrentError>,
    k: int,
)
    requires
        0 <= k <= items.len(),
        collect_all(items.subrange(0, k), f) is Err,
    ensures
        collect_all(items, f) == collect_all(items.subrange(0, k), f),
    decreases items.len(),
{
    if k == items.len() {
        assert(items.subrange(0, k) =~= items);
    } else {
        assert(items.drop_last().subrange(0, k) =~= items.subrange(0, k));
        lemma_collect_all_err(items.drop_last(), f, k);
    }
}

/// A string element of a list of text: a byte string that is valid UTF-8.
pub open spec fn text_item(t: Term, not_string: Malformed, not_utf8: Malformed) -> Result<
    Seq<char>,
    TorrentError,
> {
    match t {
        Term::Bytes(b) => match utf8_text(b) {
            Some(s) => Ok(s),
            None => Err(TorrentError::InvalidFormat(not_utf8)),
        },
        _ => Err(TorrentError::InvalidFormat(not_string)),
    }
}

/// A list of text items, or the first error among them.
pub open spec fn text_list(items: Seq<Term>, not_string: Malformed, not_utf8: Malformed) -> Result<
    Seq<Seq<char>>,
    TorrentError,
> {
    collect_all(items, text_fn(not_string, not_utf8))
}

pub open spec fn text_fn(not_string: Malformed, not_utf8: Malformed) -> spec_fn(Term) -> Result<
    Seq<char>,
    TorrentError,
> {
    |x: Term| text_item(x, not_string, not_utf8)
}

pub open spec fn tier_fn() -> spec_fn(Term) -> Result<Seq<Seq<char>>, TorrentError> {
    |x: Term| tracker_tier(x)
}

pub open spec fn tracker_tier(t: Term) -> Result<Seq<Seq<char>>, TorrentError> {
    match t {
        Term::List(items) => text_list(items, Malformed::TrackerNotString, Malformed::TrackerNotUtf8),
        _ => Err(TorrentError::InvalidFormat(Malformed::TierNotList)),
    }
}

/// The `announce-list`: a list of tiers, each a list of UTF-8 tracker URLs.
pub open spec fn announce_list_model(t: Term) -> Result<Seq<Seq<Seq<char>>>, TorrentError> {
    match t {
        Term::List(tiers) => collect_all(tiers, tier_fn()),
        _ => Err(TorrentError::InvalidFormat(Malformed::AnnounceListNotList)),
    }
}

/// Converts a list of byte strings to text, failing on the first element that is not a byte
/// string or not valid UTF-8.
fn parse_text_list(items: &Vec<BencodeValue>, not_string: Malformed, not_utf8: Malformed) -> (r:
    TorrentResult<Vec<String>>)
    ensures
        match text_list(view_items(items@), not_string, not_utf8) {
            Ok(m) => r matches Ok(v) && strings_view(v@) == m,
            Err(e) => r matches Err(x) && x == e,
        },
{
    let ghost f = text_fn(not_string, not_utf8);
    let ghost vs = view_items(items@);
    proof {
        lemma_view_items(items@);
        assert(vs.subrange(0, 0) =~= Seq::<Term>::empty());
    }
    let mut out: Vec<String> = Vec::new();
    assert(strings_view(out@) =~= Seq::<Seq<char>>::empty());
    let mut i: usize = 0;
    while i < items.len()
        invariant
            i <= items.len(),
            vs == view_items(items@),
            vs.len() == items@.len(),
            forall|j: int| 0 <= j < items@.len() ==> #[trigger] vs[j] == items@[j].view(),
            f == text_fn(not_string, not_utf8),
            collect_all(vs.subrange(0, i as int), f) == Ok::<Seq<Seq<char>>, TorrentError>(
                strings_view(out@),
            ),
        decreases items.len() - i,
    {
        let ghost next = vs.subrange(0, i + 1);
        proof {
            assert(next.drop_last() =~= vs.subrange(0, i as int));
            assert(next.last() == vs[i as int]);
        }
        match &items[i] {
            BencodeValue::String(b) => match utf8_string(b.as_slice()) {
                Some(text) => {
                    let ghost before = out@;
                    out.push(text);
                    assert(strings_view(out@) =~= strings_view(before).push(text@));
                },
                None => {
                    proof {
                        lemma_collect_all_err(vs, f, i + 1);
                    }
                    return Err(TorrentError::InvalidFormat(not_utf8));
                },
            },
            _ => {
                proof {
                    lemma_collect_all_err(vs, f, i + 1);
                }
                return Err(TorrentError::InvalidFormat(not_string));
            },
        }
        i = i + 1;
    }
    assert(vs.subrange(0, i as int) =~= vs);
    Ok(out)
}

/// Parses the `announce-list`: a list of tiers, each a list of UTF-8 tracker URLs.
fn parse_announce_list(value: &BencodeValue) -> (r: TorrentResult<Vec<Vec<String>>>)
    ensures
        match announce_list_model(value.view()) {
            Ok(m) => r matches Ok(v) && tiers_view(v@) == m,
            Err(e) => r matches Err(x) && x == e,
        },
{
    let tiers = match value {
        BencodeValue::List(tiers) => tiers,
        _ => return Err(TorrentError::InvalidFormat(Malformed::AnnounceListNotList)),
    };
    let ghost f = tier_fn();
    let ghost vs = view_items(tiers@);
    proof {
        lemma_view_items(tiers@);
        assert(vs.subrange(0, 0) =~= Seq::<Term>::empty());
    }
    let mut out: Vec<Vec<String>> = Vec::new();
    assert(tiers_view(out@) =~= Seq::<Seq<Seq<char>>>::empty());
    let mut i: usize = 0;
    while i < tiers.len()
        invariant
            i <= tiers.len(),
            vs == view_items(tiers@),
            value.view() == Term::List(vs),
            vs.len() == tiers@.len(),
            forall|j: int| 0 <= j < tiers@.len() ==> #[trigger] vs[j] == tiers@[j].view(),
            f == tier_fn(),
            collect_all(vs.subrange(0, i as int), f) == Ok::<Seq<Seq<Seq<char>>>, TorrentError>(
                tiers_view(out@),
            ),
        decreases tiers.len() - i,
    {
        let ghost next = vs.subrange(0, i + 1);
        proof {
            assert(next.drop_last() =~= vs.subrange(0, i as int));
            assert(next.last() == vs[i as int]);
        }
        match &tiers[i] {
            BencodeValue::List(items) => match parse_text_list(
                items,
                Malformed::TrackerNotString,
                Malformed::TrackerNotUtf8,
            ) {
                Ok(tier) => {
                    let ghost before = out@;
                    out.push(tier);
                    assert(tiers_view(out@) =~= tiers_view(before).push(strings_view(tier@)));
                },
                Err(e) => {
                    proof {
                        assert(vs[i as int] == Term::List(view_items(items@)));
                        assert(f(vs[i as int]) == Err::<Seq<Seq<char>>, TorrentError>(e));
                        assert(collect_all(next, f) == Err::<Seq<Seq<Seq<char>>>, TorrentError>(e));
                        lemma_collect_all_err(vs, f, i + 1);
                    }
                    return Err(e);
                },
            },
            _ => {
                proof {
                    assert(!(vs[i as int] is List));
                    assert(f(vs[i as int]) is Err);
                    assert(collect_all(next, f) is Err);
                    lemma_collect_all_err(vs, f, i + 1);
                }
                return Err(TorrentError::InvalidFormat(Malformed::TierNotList));
            },
        }
        i = i + 1;
    }
    assert(vs.subrange(0, i as int) =~= vs);
    Ok(out)
}

/// One entry of `files`: a dictionary with an integer `length` and a `path` list of UTF-8
/// components.
pub open spec fn file_entry(t: Term) -> Result<FileModel, TorrentError> {
    match t {
        Term::Dict(d) => match lookup(d, "length".spec_bytes()) {
            Some(Term::Int(l)) => match lookup(d, "path".spec_bytes()) {
                Some(Term::List(p)) => match text_list(
                    p,
                    Malformed::PathComponentNotString,
                    Malformed::PathComponentNotUtf8,
                ) {
                    Ok(parts) => Ok(FileModel { length: l, path: parts }),
                    Err(e) => Err(e),
                },
                _ => Err(TorrentError::MissingField(Field::FilePath)),
            },
            _ => Err(TorrentError::MissingField(Field::FileLength)),
        },
        _ => Err(TorrentError::InvalidFormat(Malformed::FileEntryNotDict)),
    }
}

pub open spec fn file_fn() -> spec_fn(Term) -> Result<FileModel, TorrentError> {
    |x: Term| file_entry(x)
}

/// The `files` list when it is present as a list, else no files.
pub open spec fn files_model(d: Seq<(Seq<u8>, Term)>) -> Result<Seq<FileModel>, TorrentError> {
    match lookup(d, "files".spec_bytes()) {
        Some(Term::List(items)) => collect_all(items, file_fn()),
        _ => Ok(Seq::empty()),
    }
}

/// The `info` dictionary: required integer `piece length`, byte string `pieces` and UTF-8
/// `name`; `private` is set only by the integer 1; optional integer `length`; optional `files`.
pub open spec fn info_model(t: Term) -> Result<InfoModel, TorrentError> {
    match t {
        Term::Dict(d) => match lookup(d, "piece length".spec_bytes()) {
            Some(Term::Int(piece_length)) => match lookup(d, "pieces".spec_bytes()) {
                Some(Term::Bytes(pieces)) => match lookup(d, "name".spec_bytes()) {
                    Some(Term::Bytes(name_bytes)) => match utf8_text(name_bytes) {
                        Some(name) => match files_model(d) {
                            Ok(files) => Ok(
                                InfoModel {
                                    piece_length,
                                    pieces,
                                    private: lookup(d, "private".spec_bytes()) == Some(
                                        Term::Int(1),
                                    ),
                                    name,
                                    length: match lookup(d, "length".spec_bytes()) {
                                        Some(Term::Int(l)) => Some(l),
                                        _ => None,
                                    },
                                    files,
                                    is_directory: files.len() > 0,
                                },
                            ),
                            Err(e) => Err(e),
                        },
                        None => Err(TorrentError::InvalidFormat(Malformed::NameNotUtf8)),
                    },
                    _ => Err(TorrentError::MissingField(Field::Name)),
                },
                _ => Err(TorrentError::MissingField(Field::Pieces)),
            },
            _ => Err(TorrentError::MissingField(Field::PieceLength)),
        },
        _ => Err(TorrentError::InvalidFormat(Malformed::InfoNotDict)),
    }
}

/// Parses one entry of `files`.
fn parse_file_entry(value: &BencodeValue) -> (r: TorrentResult<FileDict>)
    ensures
        match file_entry(value.view()) {
            Ok(m) => r matches Ok(f) && f.view() == m,
            Err(e) => r matches Err(x) && x == e,
        },
{
    let d = match value {
        BencodeValue::Dict(d) => d,
        _ => return Err(TorrentError::InvalidFormat(Malformed::FileEntryNotDict)),
    };
    let length = match dict_get(d, "length".as_bytes()) {
        Some(BencodeValue::Integer(l)) => *l,
        _ => return Err(TorrentError::MissingField(Field::FileLength)),
    };
    let parts = match dict_get(d, "path".as_bytes()) {
        Some(BencodeValue::List(p)) => p,
        _ => return Err(TorrentError::MissingField(Field::FilePath)),
    };
    let path = parse_text_list(
        parts,
        Malformed::PathComponentNotString,
        Malformed::PathComponentNotUtf8,
    )?;
    Ok(FileDict { length, path })
}

/// Parses the `files` list of an `info` dictionary.
fn parse_files(d: &Vec<(Vec<u8>, BencodeValue)>) -> (r: TorrentResult<Vec<FileDict>>)
    ensures
        match files_model(view_entries(d@)) {
            Ok(m) => r matches Ok(v) && files_view(v@) == m,
            Err(e) => r matches Err(x) && x == e,
        },
{
    let items = match dict_get(d, "files".as_bytes()) {
        Some(BencodeValue::List(items)) => items,
        _ => {
            let none: Vec<FileDict> = Vec::new();
            assert(files_view(none@) =~= Seq::<FileModel>::empty());
            return Ok(none);
        },
    };
    let ghost f = file_fn();
    let ghost vs = view_items(items@);
    proof {
        lemma_view_items(items@);
        assert(vs.subrange(0, 0) =~= Seq::<Term>::empty());
    }
    let mut out: Vec<FileDict> = Vec::new();
    assert(files_view(out@) =~= Seq::<FileModel>::empty());
    let mut i: usize = 0;
    while i < items.len()
        invariant
            i <= items.len(),
            vs == view_items(items@),
            files_model(view_entries(d@)) == collect_all(vs, f),
            vs.len() == items@.len(),
            forall|j: int| 0 <= j < items@.len() ==> #[trigger] vs[j] == items@[j].view(),
            f == file_fn(),
            collect_all(vs.subrange(0, i as int), f) == Ok::<Seq<FileModel>, TorrentError>(
                files_view(out@),
            ),
        decreases items.len() - i,
    {
        let ghost next = vs.subrange(0, i + 1);
        proof {
            assert(next.drop_last() =~= vs.subrange(0, i as int));
            assert(next.last() == vs[i as int]);
        }
        match parse_file_entry(&items[i]) {
            Ok(entry) => {
                let ghost before = out@;
                out.push(entry);
                assert(files_view(out@) =~= files_view(before).push(entry.view()));
            },
            Err(e) => {
                proof {
                    assert(f(vs[i as int]) == Err::<FileModel, TorrentError>(e));
                    assert(collect_all(next, f) == Err::<Seq<FileModel>, TorrentError>(e));
                    lemma_collect_all_err(vs, f, i + 1);
                }
                return Err(e);
            },
        }
        i = i + 1;
    }
    assert(vs.subrange(0, i as int) =~= vs);
    Ok(out)
}

/// Parses the `info` dictionary.
fn parse_info_dict(value: &BencodeValue) -> (r: TorrentResult<InfoDict>)
    ensures
        match info_model(value.view()) {
            Ok(m) => r matches Ok(info) && info.view() == m,
            Err(e) => r matches Err(x) && x == e,
        },
{
    let d = match value {
        BencodeValue::Dict(d) => d,
        _ => return Err(TorrentError::InvalidFormat(Malformed::InfoNotDict)),
    };
    let piece_length = match dict_get(d, "piece length".as_bytes()) {
        Some(BencodeValue::Integer(i)) => *i,
        _ => return Err(TorrentError::MissingField(Field::PieceLength)),
    };
    let pieces = match dict_get(d, "pieces".as_bytes()) {
        Some(BencodeValue::String(p)) => copy_range(p.as_slice(), 0, p.len()),
        _ => return Err(TorrentError::MissingField(Field::Pieces)),
    };
    let private = match dict_get(d, "private".as_bytes()) {
        Some(BencodeValue::Integer(flag)) => *flag == 1,
        _ => false,
    };
    let name = match dict_get(d, "name".as_bytes()) {
        Some(BencodeValue::String(b)) => match utf8_string(b.as_slice()) {
            Some(text) => text,
            None => return Err(TorrentError::InvalidFormat(Malformed::NameNotUtf8)),
        },
        _ => return Err(TorrentError::MissingField(Field::Name)),
    };
    let length = match dict_get(d, "length".as_bytes()) {
        Some(BencodeValue::Integer(l)) => Some(*l),
        _ => None,
    };
    let files = parse_files(d)?;
    let is_directory = files.len() > 0;
    let info = InfoDict { piece_length, pieces, private, name, length, files, is_directory };
    proof {
        let m = info_model(value.view())->Ok_0;
        assert(info.pieces@ =~= m.pieces);
        assert(info.view() == m);
    }
    Ok(info)
}

/// The 20-byte piece hashes that `pieces` concatenates, in order.
pub open spec fn piece_hashes(p: Seq<u8>) -> Seq<Seq<u8>> {
    Seq::new((p.len() / 20) as nat, |i: int| p.subrange(20 * i, 20 * i + 20))
}

pub open spec fn hashes_view(v: Seq<[u8; 20]>) -> Seq<Seq<u8>> {
    v.map_values(|h: [u8; 20]| h@)
}

/// Splits the concatenated piece hashes into 20-byte hashes; the length must be a multiple
/// of 20.
fn parse_pieces(pieces_bytes: &[u8]) -> (r: TorrentResult<Vec<[u8; 20]>>)
    ensures
        pieces_bytes@.len() % 20 != 0 ==> r matches Err(TorrentError::InvalidPiecesHashLength),
        pieces_bytes@.len() % 20 == 0 ==> (r matches Ok(v) && hashes_view(v@) == piece_hashes(
            pieces_bytes@,
        )),
{
    if pieces_bytes.len() % 20 != 0 {
        return Err(TorrentError::InvalidPiecesHashLength);
    }
    let total = pieces_bytes.len();
    let num_pieces = total / 20;
    let mut hashes: Vec<[u8; 20]> = Vec::new();
    let mut i: usize = 0;
    while i < num_pieces
        invariant
            num_pieces == pieces_bytes@.len() / 20,
            total == pieces_bytes@.len(),
            i <= num_pieces,
            hashes@.len() == i,
            forall|k: int|
                0 <= k < i ==> #[trigger] hashes@[k]@ == pieces_bytes@.subrange(20 * k, 20 * k + 20),
        decreases num_pieces - i,
    {
        assert(20 * i + 20 <= pieces_bytes@.len()) by (nonlinear_arith)
            requires
                i < num_pieces,
                num_pieces == pieces_bytes@.len() / 20,
        ;
        let start = 20 * i;
        let mut hash = [0u8; 20];
        let mut j: usize = 0;
        while j < 20
            invariant
                j <= 20,
                start + 20 <= total,
                total == pieces_bytes@.len(),
                forall|m: int| 0 <= m < j ==> #[trigger] hash@[m] == pieces_bytes@[start + m],
            decreases 20 - j,
        {
            hash[j] = pieces_bytes[start + j];
            j = j + 1;
        }
        assert(hash@ =~= pieces_bytes@.subrange(20 * i, 20 * i + 20));
        hashes.push(hash);
        i = i + 1;
    }
    assert(hashes_view(hashes@) =~= piece_hashes(pieces_bytes@));
    Ok(hashes)
}

/// An optional text field: its text when it is a UTF-8 byte string, else empty.
pub open spec fn optional_text(d: Seq<(Seq<u8>, Term)>, key: Seq<u8>) -> Seq<char> {
    match lookup(d, key) {
        Some(Term::Bytes(b)) => match utf8_text(b) {
            Some(s) => s,
            None => Seq::empty(),
        },
        _ => Seq::empty(),
    }
}

/// `creation date`: absent, or a non-negative integer of seconds.
pub open spec fn creation_date_model(d: Seq<(Seq<u8>, Term)>) -> Result<Option<int>, TorrentError> {
    match lookup(d, "creation date".spec_bytes()) {
        None => Ok(None),
        Some(Term::Int(ts)) => if ts < 0 {
            Err(TorrentError::DateParseError)
        } else {
            Ok(Some(ts))
        },
        Some(_) => Err(TorrentError::InvalidFormat(Malformed::CreationDateNotInteger)),
    }
}

/// `announce-list`: absent means no tiers.
pub open spec fn announce_tiers_model(d: Seq<(Seq<u8>, Term)>) -> Result<
    Seq<Seq<Seq<char>>>,
    TorrentError,
> {
    match lookup(d, "announce-list".spec_bytes()) {
        None => Ok(Seq::empty()),
        Some(t) => announce_list_model(t),
    }
}

/// The metadata that a decoded `.torrent` root describes, or the first error met, in this
/// order: root, `announce`, `info`, the `info` fields, `announce-list`, `creation date`, and
/// the length of `pieces`.
pub open spec fn torrent_model(root: Term) -> Result<TorrentModel, TorrentError> {
    match root {
        Term::Dict(d) => match lookup(d, "announce".spec_bytes()) {
            Some(Term::Bytes(ab)) => match utf8_text(ab) {
                Some(announce) => match lookup(d, "info".spec_bytes()) {
                    Some(Term::Dict(id)) => match info_model(Term::Dict(id)) {
                        Ok(info) => match announce_tiers_model(d) {
                            Ok(announce_list) => match creation_date_model(d) {
                                Ok(creation_date) => if info.pieces.len() % 20 != 0 {
                                    Err(TorrentError::InvalidPiecesHashLength)
                                } else {
                                    Ok(
                                        TorrentModel {
                                            announce,
                                            announce_list,
                                            creation_date,
                                            comment: optional_text(d, "comment".spec_bytes()),
                                            created_by: optional_text(d, "created by".spec_bytes()),
                                            encoding: optional_text(d, "encoding".spec_bytes()),
                                            info,
                                            info_hash: sha1_of(encode_term(canonical(Term::Dict(id)))),
                                            pieces_hash: piece_hashes(info.pieces),
                                        },
                                    )
                                },
                                Err(e) => Err(e),
                            },
                            Err(e) => Err(e),
                        },
                        Err(e) => Err(e),
                    },
                    Some(_) => Err(TorrentError::InvalidFormat(Malformed::InfoNotDict)),
                    None => Err(TorrentError::MissingField(Field::Info)),
                },
                None => Err(TorrentError::InvalidFormat(Malformed::AnnounceNotUtf8)),
            },
            _ => Err(TorrentError::MissingField(Field::Announce)),
        },
        _ => Err(TorrentError::InvalidFormat(Malformed::RootNotDict)),
    }
}

/// An optional text field of `d`, empty when absent, not a byte string, or not UTF-8.
fn optional_string(d: &Vec<(Vec<u8>, BencodeValue)>, key: &str) -> (r: String)
    ensures
        r@ == optional_text(view_entries(d@), key.spec_bytes()),
{
    let found = dict_get(d, key.as_bytes());
    match found {
        Some(BencodeValue::String(b)) => match utf8_string(b.as_slice()) {
            Some(text) => text,
            None => String::new(),
        },
        _ => String::new(),
    }
}

impl TorrentFile {
    /// Parses decoded `.torrent` data. The info-hash is the SHA-1 of the re-encoded `info`
    /// dictionary.
    pub fn parse(data: BencodeValue) -> (r: TorrentResult<TorrentFile>)
        ensures
            match torrent_model(data.view()) {
                Ok(m) => r matches Ok(t) && t.view() == m,
                Err(e) => r matches Err(x) && x == e,
            },
    {
        let d = match &data {
            BencodeValue::Dict(d) => d,
            _ => return Err(TorrentError::InvalidFormat(Malformed::RootNotDict)),
        };
        let announce = match dict_get(d, "announce".as_bytes()) {
            Some(BencodeValue::String(b)) => match utf8_string(b.as_slice()) {
                Some(text) => text,
                None => return Err(TorrentError::InvalidFormat(Malformed::AnnounceNotUtf8)),
            },
            _ => return Err(TorrentError::MissingField(Field::Announce)),
        };
        let info_value = match dict_get(d, "info".as_bytes()) {
            Some(v) => v,
            None => return Err(TorrentError::MissingField(Field::Info)),
        };
        let info_entries = match info_value {
            BencodeValue::Dict(entries) => entries,
            _ => return Err(TorrentError::InvalidFormat(Malformed::InfoNotDict)),
        };
        let info = parse_info_dict(info_value)?;
        let announce_list = match dict_get(d, "announce-list".as_bytes()) {
            Some(v) => parse_announce_list(v)?,
            None => {
                let none: Vec<Vec<String>> = Vec::new();
                assert(tiers_view(none@) =~= Seq::<Seq<Seq<char>>>::empty());
                none
            },
        };
        let creation_date = match dict_get(d, "creation date".as_bytes()) {
            Some(BencodeValue::Integer(ts)) => {
                if *ts < 0 {
                    return Err(TorrentError::DateParseError);
                }
                Some(*ts as u64)
            },
            Some(_) => return Err(TorrentError::InvalidFormat(Malformed::CreationDateNotInteger)),
            None => None,
        };
        let comment = optional_string(d, "comment");
        let created_by = optional_string(d, "created by");
        let encoding = optional_string(d, "encoding");
        let info_hash = calculate_info_hash(info_entries);
        let pieces_hash = parse_pieces(info.pieces.as_slice())?;
        let t = TorrentFile {
            announce,
            announce_list,
            creation_date,
            comment,
            created_by,
            encoding,
            info,
            info_hash,
            pieces_hash,
        };
        proof {
            let m = torrent_model(data.view())->Ok_0;
            assert(t.view().pieces_hash == m.pieces_hash);
            assert(t.view() == m);
        }
        Ok(t)
    }
}

pub open spec fn in_i64(x: int) -> bool {
    i64::MIN <= x <= i64::MAX
}

/// The sum of the file lengths, in list order.
pub open spec fn files_total(files: Seq<FileDict>) -> int
    decreases files.len(),
{
    if files.len() == 0 {
        0
    } else {
        files_total(files.drop_last()) + files.last().length
    }
}

/// The paths of the files, laid end to end from `cursor`, whose byte range `[start, end)`
/// overlaps `[piece_start, piece_end)`; each path is the root name followed by the file's
/// path components.
pub open spec fn overlapping_paths(
    files: Seq<FileDict>,
    root: Seq<char>,
    cursor: int,
    piece_start: int,
    piece_end: int,
) -> Seq<Seq<Seq<char>>>
    decreases files.len(),
{
    if files.len() == 0 {
        Seq::empty()
    } else {
        let file_end = cursor + files[0].length;
        let rest = overlapping_paths(files.drop_first(), root, file_end, piece_start, piece_end);
        if file_end > piece_start && cursor < piece_end {
            seq![seq![root] + strings_view(files[0].path@)] + rest
        } else {
            rest
        }
    }
}

impl TorrentFile {
    /// The total length: the `length` field (0 when absent) for a single-file torrent, the
    /// sum of the file lengths for a multi-file one.
    pub open spec fn total_length_spec(self) -> int {
        if !self.info.is_directory {
            match self.info.length {
                Some(l) => l as int,
                None => 0,
            }
        } else {
            files_total(self.info.files@)
        }
    }

    /// Every running sum of the file lengths fits in `i64`.
    pub open spec fn sums_fit(self) -> bool {
        self.info.is_directory ==> forall|k: int|
            0 <= k <= self.info.files@.len() ==> #[trigger] in_i64(
                files_total(self.info.files@.subrange(0, k)),
            )
    }

    pub open spec fn num_pieces_spec(self) -> int {
        self.pieces_hash@.len() as int
    }

    /// The offset of the last piece and its remainder fit in `i64`.
    pub open spec fn last_piece_fits(self) -> bool {
        let n = self.num_pieces_spec();
        let full = (n - 1) * self.info.piece_length;
        n > 0 ==> n - 1 <= i64::MAX && in_i64(full) && in_i64(self.total_length_spec() - full)
    }

    /// The size of piece `index`: 0 out of range, the piece length for all but the last, and
    /// for the last one the remaining bytes, or the full piece length when nothing remains.
    pub open spec fn piece_size_spec(self, index: int) -> int {
        let n = self.num_pieces_spec();
        if index >= n {
            0
        } else if index < n - 1 {
            self.info.piece_length as int
        } else {
            let last = self.total_length_spec() - (n - 1) * self.info.piece_length;
            if last == 0 {
                self.info.piece_length as int
            } else {
                last
            }
        }
    }

    /// The file paths that hold data of piece `index`.
    pub open spec fn piece_paths(self, index: int) -> Seq<Seq<Seq<char>>> {
        if index >= self.num_pieces_spec() {
            Seq::empty()
        } else if !self.info.is_directory {
            seq![seq![self.info.name@]]
        } else {
            let start = index * self.info.piece_length;
            overlapping_paths(
                self.info.files@,
                self.info.name@,
                0,
                start,
                start + self.piece_size_spec(index),
            )
        }
    }

    /// The byte range of piece `index` fits in `i64`.
    pub open spec fn piece_range_fits(self, index: int) -> bool {
        let start = index * self.info.piece_length;
        index <= i64::MAX && in_i64(start) && in_i64(start + self.piece_size_spec(index))
    }

    /// Whether every running sum of the file lengths fits in `i64`, which `total_length`
    /// needs.
    pub fn lengths_fit(&self) -> (r: bool)
        ensures
            r == self.sums_fit(),
    {
        if !self.info.is_directory {
            return true;
        }
        let files = &self.info.files;
        let mut sum: i64 = 0;
        let mut i: usize = 0;
        assert(files@.subrange(0, 0) =~= Seq::<FileDict>::empty());
        while i < files.len()
            invariant
                i <= files.len(),
                self.info.is_directory,
                files == &self.info.files,
                sum == files_total(files@.subrange(0, i as int)),
                forall|k: int| 0 <= k <= i ==> #[trigger] in_i64(files_total(files@.subrange(0, k))),
            decreases files.len() - i,
        {
            let ghost next = files@.subrange(0, i + 1);
            assert(next.drop_last() =~= files@.subrange(0, i as int));
            match sum.checked_add(files[i].length) {
                Some(total) => sum = total,
                None => {
                    assert(!in_i64(files_total(next)));
                    return false;
                },
            }
            i = i + 1;
        }
        assert(files@.subrange(0, i as int) =~= files@);
        true
    }

    /// Returns the total length of all files in the torrent.
    pub fn total_length(&self) -> (r: i64)
        requires
            self.sums_fit(),
        ensures
            r == self.total_length_spec(),
    {
        if !self.info.is_directory {
            match self.info.length {
                Some(l) => l,
                None => 0,
            }
        } else {
            let files = &self.info.files;
            let mut sum: i64 = 0;
            let mut i: usize = 0;
            assert(files@.subrange(0, 0) =~= Seq::<FileDict>::empty());
            while i < files.len()
                invariant
                    i <= files.len(),
                    self.sums_fit(),
                    self.info.is_directory,
                    files == &self.info.files,
                    sum == files_total(files@.subrange(0, i as int)),
                decreases files.len() - i,
            {
                let ghost next = files@.subrange(0, i + 1);
                assert(next.drop_last() =~= files@.subrange(0, i as int));
                assert(in_i64(files_total(next)));
                sum = sum + files[i].length;
                i = i + 1;
            }
            assert(files@.subrange(0, i as int) =~= files@);
            sum
        }
    }

    /// Returns the number of pieces: one per 20-byte hash.
    pub fn num_pieces(&self) -> (r: usize)
        ensures
            r == self.num_pieces_spec(),
    {
        self.pieces_hash.len()
    }

    /// Returns the size in bytes of piece `index`.
    pub fn piece_size(&self, index: usize) -> (r: i64)
        requires
            self.sums_fit(),
            index + 1 == self.num_pieces_spec() ==> self.last_piece_fits(),
        ensures
            r == self.piece_size_spec(index as int),
    {
        let n = self.num_pieces();
        if index >= n {
            return 0;
        }
        if index < n - 1 {
            self.info.piece_length
        } else {
            let total_length = self.total_length();
            let full_pieces_length = (n - 1) as i64 * self.info.piece_length;
            let last_piece_size = total_length - full_pieces_length;
            if last_piece_size == 0 {
                self.info.piece_length
            } else {
                last_piece_size
            }
        }
    }

    /// Returns the paths, as the root name followed by path components, of the files that
    /// hold data of piece `index`: every file of a multi-file torrent whose byte range
    /// overlaps the piece's, in list order; the root name alone for a single-file torrent;
    /// nothing for an index out of range.
    pub fn file_paths_for_piece(&self, index: usize) -> (r: Vec<Vec<String>>)
        requires
            self.sums_fit(),
            index + 1 == self.num_pieces_spec() ==> self.last_piece_fits(),
            index < self.num_pieces_spec() ==> self.piece_range_fits(index as int),
        ensures
            r@.map_values(|p: Vec<String>| strings_view(p@)) == self.piece_paths(index as int),
    {
        let mut result_paths: Vec<Vec<String>> = Vec::new();
        if index >= self.num_pieces() {
            assert(result_paths@.map_values(|p: Vec<String>| strings_view(p@)) =~= Seq::<
                Seq<Seq<char>>,
            >::empty());
            return result_paths;
        }
        if !self.info.is_directory {
            let mut path: Vec<String> = Vec::new();
            path.push(self.info.name.clone());
            result_paths.push(path);
            assert(strings_view(path@) =~= seq![self.info.name@]);
            assert(result_paths@.map_values(|p: Vec<String>| strings_view(p@)) =~= seq![
                seq![self.info.name@],
            ]);
            return result_paths;
        }
        let piece_start = (index as i64) * self.info.piece_length;
        let piece_end = piece_start + self.piece_size(index);
        let files = &self.info.files;
        let ghost root = self.info.name@;
        let ghost whole = overlapping_paths(files@, root, 0, piece_start as int, piece_end as int);
        let mut cursor: i64 = 0;
        let mut i: usize = 0;
        assert(files@.subrange(0, 0) =~= Seq::<FileDict>::empty());
        assert(files@.subrange(0, files@.len() as int) =~= files@);
        assert(result_paths@.map_values(|p: Vec<String>| strings_view(p@)) =~= Seq::<
            Seq<Seq<char>>,
        >::empty());
        while i < files.len()
            invariant
                i <= files.len(),
                self.sums_fit(),
                self.info.is_directory,
                files == &self.info.files,
                root == self.info.name@,
                whole == self.piece_paths(index as int),
                whole == overlapping_paths(files@, root, 0, piece_start as int, piece_end as int),
                cursor == files_total(files@.subrange(0, i as int)),
                whole == result_paths@.map_values(|p: Vec<String>| strings_view(p@))
                    + overlapping_paths(
                    files@.subrange(i as int, files@.len() as int),
                    root,
                    cursor as int,
                    piece_start as int,
                    piece_end as int,
                ),
            decreases files.len() - i,
        {
            let ghost next = files@.subrange(0, i + 1);
            let ghost rest = files@.subrange(i as int, files@.len() as int);
            assert(next.drop_last() =~= files@.subrange(0, i as int));
            assert(in_i64(files_total(next)));
            assert(rest[0] == files@[i as int]);
            assert(rest.drop_first() =~= files@.subrange(i + 1, files@.len() as int));
            let file_info = &files[i];
            let file_start = cursor;
            let file_end = file_start + file_info.length;
            let ghost before = result_paths@.map_values(|p: Vec<String>| strings_view(p@));
            if file_end > piece_start && file_start < piece_end {
                let mut full_path: Vec<String> = Vec::new();
                full_path.push(self.info.name.clone());
                let mut c: usize = 0;
                while c < file_info.path.len()
                    invariant
                        c <= file_info.path.len(),
                        root == self.info.name@,
                        strings_view(full_path@) == seq![root] + strings_view(
                            file_info.path@.subrange(0, c as int),
                        ),
                    decreases file_info.path.len() - c,
                {
                    let ghost old_path = full_path@;
                    let part = file_info.path[c].clone();
                    assert(part@ == file_info.path@[c as int]@);
                    full_path.push(part);
                    c = c + 1;
                    assert(strings_view(full_path@) =~= strings_view(old_path).push(part@));
                    assert(strings_view(file_info.path@.subrange(0, c as int)) =~= strings_view(
                        file_info.path@.subrange(0, c - 1),
                    ).push(part@));
                    assert(strings_view(full_path@) =~= seq![root] + strings_view(
                        file_info.path@.subrange(0, c as int),
                    ));
                }
                assert(file_info.path@.subrange(0, c as int) =~= file_info.path@);
                result_paths.push(full_path);
                assert(result_paths@.map_values(|p: Vec<String>| strings_view(p@)) =~= before.push(
                    strings_view(full_path@),
                ));
            }
            cursor = file_end;
            i = i + 1;
        }
        assert(files@.subrange(i as int, files@.len() as int) =~= Seq::<FileDict>::empty());
        assert(result_paths@.map_values(|p: Vec<String>| strings_view(p@)) =~= whole);
        result_paths
    }
}

/// The `info` value of a root dictionary.
pub open spec fn info_of(root: Term) -> Option<Term> {
    match root {
        Term::Dict(d) => lookup(d, "info".spec_bytes()),
        _ => None,
    }
}

proof fn lemma_lookup_wf(d: Seq<(Seq<u8>, Term)>, k: Seq<u8>)
    requires
        forall|i: int| 0 <= i < d.len() ==> wf_term(#[trigger] d[i].1),
    ensures
        lookup(d, k) matches Some(t) ==> wf_term(t),
    decreases d.len(),
{
    if d.len() > 0 && d[0].0 != k {
        let rest = d.drop_first();
        assert forall|i: int| 0 <= i < rest.len() implies wf_term(#[trigger] rest[i].1) by {
            assert(rest[i] == d[i + 1]);
        }
        lemma_lookup_wf(rest, k);
    }
}

/// Info-hash stability. For two `.torrent` inputs that decode and parse: the same `info`
/// value gives the same info-hash, whatever differs outside it (such as `comment`); a
/// different `info` value gives different hashed bytes (the canonical encodings differ).
pub proof fn lemma_info_hash_stability(s1: Seq<u8>, s2: Seq<u8>)
    requires
        parse_value(s1, 0) is Ok,
        parse_value(s2, 0) is Ok,
        torrent_model(parse_value(s1, 0)->Ok_0.0) is Ok,
        torrent_model(parse_value(s2, 0)->Ok_0.0) is Ok,
    ensures
        ({
            let a = parse_value(s1, 0)->Ok_0.0;
            let b = parse_value(s2, 0)->Ok_0.0;
            &&& info_of(a) == info_of(b) ==> torrent_model(a)->Ok_0.info_hash == torrent_model(
                b,
            )->Ok_0.info_hash
            &&& info_of(a) != info_of(b) ==> encode_term(canonical(info_of(a)->Some_0))
                != encode_term(canonical(info_of(b)->Some_0))
            &&& torrent_model(a)->Ok_0.info_hash == sha1_of(encode_term(info_of(a)->Some_0))
        }),
{
    let a = parse_value(s1, 0)->Ok_0.0;
    let b = parse_value(s2, 0)->Ok_0.0;
    lemma_parse_value_wf(s1, 0);
    lemma_parse_value_wf(s2, 0);
    let da = a->Dict_0;
    let db = b->Dict_0;
    assert forall|i: int| 0 <= i < da.len() implies wf_term(#[trigger] da[i].1) by {
        assert(da[i].0.len() <= usize::MAX && wf_term(da[i].1));
    }
    assert forall|i: int| 0 <= i < db.len() implies wf_term(#[trigger] db[i].1) by {
        assert(db[i].0.len() <= usize::MAX && wf_term(db[i].1));
    }
    lemma_lookup_wf(da, "info".spec_bytes());
    lemma_lookup_wf(db, "info".spec_bytes());
    lemma_canonical_wf(info_of(a)->Some_0);
    lemma_canonical_wf(info_of(b)->Some_0);
    if info_of(a) != info_of(b) {
        lemma_encoding_injective(info_of(a)->Some_0, info_of(b)->Some_0);
    }
}

} // verus!
