//! The bencode value type, its mathematical model and its error type.
use vstd::prelude::*;

pub mod decoder;
pub mod encoder;
pub mod canonical;

verus! {

/// A decoded bencode value.
///
/// A dictionary is held as a vector of `(key, value)` entries. A well-formed
/// dictionary (see `wf_term`) keeps its keys unique and in strictly increasing
/// byte-lexicographic order, so that its storage order is the canonical order.
#[derive(Debug, PartialEq, Eq)]
pub enum BencodeValue {
    String(Vec<u8>),
    Integer(i64),
    List(Vec<BencodeValue>),
    Dict(Vec<(Vec<u8>, BencodeValue)>),
}

/// Errors of the bencode decoder.
#[derive(Debug, Clone, Copy, PartialEq, Eq, Structural)]
pub enum BencodeError {
    /// An integer literal is empty, has a leading zero, is `-0`, or does not fit in `i64`.
    InvalidInteger,
    /// A string length prefix is not a decimal number that fits in `usize`.
    InvalidStringLength,
    /// The input ended inside a value.
    UnexpectedEOI,
    /// A value starts with a byte that begins no bencode value.
    UnexpectedByte(u8),
    /// A dictionary key is not a byte string.
    DictKeyNotString,
}

pub type BencodeResult<T> = Result<T, BencodeError>;

/// The mathematical model of a bencode value.
pub enum Term {
    Bytes(Seq<u8>),
    Int(int),
    List(Seq<Term>),
    Dict(Seq<(Seq<u8>, Term)>),
}

impl BencodeValue {
    /// The model of this value.
    pub open spec fn view(self) -> Term
        decreases self,
    {
        match self {
            BencodeValue::String(s) => Term::Bytes(s@),
            BencodeValue::Integer(i) => Term::Int(i as int),
            BencodeValue::List(items) => Term::List(view_items(items@)),
            BencodeValue::Dict(entries) => Term::Dict(view_entries(entries@)),
        }
    }
}

/// The models of a sequence of values.
pub open spec fn view_items(s: Seq<BencodeValue>) -> Seq<Term>
    decreases s,
{
    if s.len() == 0 {
        Seq::empty()
    } else {
        view_items(s.drop_last()).push(s.last().view())
    }
}

/// The models of a sequence of dictionary entries.
pub open spec fn view_entries(s: Seq<(Vec<u8>, BencodeValue)>) -> Seq<(Seq<u8>, Term)>
    decreases s,
{
    if s.len() == 0 {
        Seq::empty()
    } else {
        view_entries(s.drop_last()).push((s.last().0@, s.last().1.view()))
    }
}

pub proof fn lemma_view_items(s: Seq<BencodeValue>)
    ensures
        view_items(s).len() == s.len(),
        forall|i: int| 0 <= i < s.len() ==> #[trigger] view_items(s)[i] == s[i].view(),
    decreases s.len(),
{
    if s.len() > 0 {
        lemma_view_items(s.drop_last());
    }
}

pub proof fn lemma_view_entries(s: Seq<(Vec<u8>, BencodeValue)>)
    ensures
        view_entries(s).len() == s.len(),
        forall|i: int|
            0 <= i < s.len() ==> #[trigger] view_entries(s)[i] == (s[i].0@, s[i].1.view()),
    decreases s.len(),
{
    if s.len() > 0 {
        lemma_view_entries(s.drop_last());
    }
}

/// Strict byte-lexicographic order: a proper prefix comes first.
pub open spec fn bytes_lt(a: Seq<u8>, b: Seq<u8>) -> bool
    decreases a.len(),
{
    if a.len() == 0 {
        b.len() > 0
    } else if b.len() == 0 {
        false
    } else if a[0] != b[0] {
        a[0] < b[0]
    } else {
        bytes_lt(a.drop_first(), b.drop_first())
    }
}

/// The keys of the entries are in strictly increasing order (hence unique).
pub open spec fn keys_sorted(d: Seq<(Seq<u8>, Term)>) -> bool {
    forall|i: int, j: int| 0 <= i < j < d.len() ==> bytes_lt(#[trigger] d[i].0, #[trigger] d[j].0)
}

/// The term is what the decoder can produce: every dictionary, at any depth, has sorted
/// unique keys, every byte string fits a `usize` length, every integer fits in `i64`.
pub open spec fn wf_term(t: Term) -> bool
    decreases t,
{
    match t {
        Term::Bytes(b) => b.len() <= usize::MAX,
        Term::Int(i) => i64::MIN <= i <= i64::MAX,
        Term::List(items) => forall|i: int| 0 <= i < items.len() ==> wf_term(#[trigger] items[i]),
        Term::Dict(entries) => keys_sorted(entries) && forall|i: int|
            0 <= i < entries.len() ==> (#[trigger] entries[i]).0.len() <= usize::MAX && wf_term(
                entries[i].1,
            ),
    }
}

} // verus!

verus! {

/// The value of the first entry whose key is `k`.
pub open spec fn lookup(d: Seq<(Seq<u8>, Term)>, k: Seq<u8>) -> Option<Term>
    decreases d.len(),
{
    if d.len() == 0 {
        None
    } else if d[0].0 == k {
        Some(d[0].1)
    } else {
        lookup(d.drop_first(), k)
    }
}

/// The dictionary after setting `k` to `v`: an existing entry for `k` is replaced in place,
/// otherwise the entry goes before the first greater key.
pub open spec fn dict_put(d: Seq<(Seq<u8>, Term)>, k: Seq<u8>, v: Term) -> Seq<(Seq<u8>, Term)>
    decreases d.len(),
{
    if d.len() == 0 {
        seq![(k, v)]
    } else if d[0].0 == k {
        seq![(k, v)] + d.drop_first()
    } else if bytes_lt(k, d[0].0) {
        seq![(k, v)] + d
    } else {
        seq![d[0]] + dict_put(d.drop_first(), k, v)
    }
}

/// Whether two byte strings are equal.
pub fn bytes_eq(a: &[u8], b: &[u8]) -> (r: bool)
    ensures
        r == (a@ == b@),
{
    if a.len() != b.len() {
        return false;
    }
    let mut i: usize = 0;
    while i < a.len()
        invariant
            a.len() == b.len(),
            i <= a.len(),
            a@.subrange(0, i as int) == b@.subrange(0, i as int),
        decreases a.len() - i,
    {
        if a[i] != b[i] {
            assert(a@[i as int] != b@[i as int]);
            return false;
        }
        i = i + 1;
        assert(a@.subrange(0, i as int) =~= a@.subrange(0, i - 1).push(a@[i - 1]));
        assert(b@.subrange(0, i as int) =~= b@.subrange(0, i - 1).push(b@[i - 1]));
    }
    assert(a@ =~= a@.subrange(0, i as int));
    assert(b@ =~= b@.subrange(0, i as int));
    true
}

/// Whether `a` comes strictly before `b` in byte-lexicographic order.
pub fn bytes_less(a: &[u8], b: &[u8]) -> (r: bool)
    ensures
        r == bytes_lt(a@, b@),
{
    let mut i: usize = 0;
    assert(a@.skip(0) =~= a@);
    assert(b@.skip(0) =~= b@);
    while i < a.len() && i < b.len()
        invariant
            i <= a.len(),
            i <= b.len(),
            bytes_lt(a@, b@) == bytes_lt(a@.skip(i as int), b@.skip(i as int)),
        decreases a.len() - i,
    {
        if a[i] != b[i] {
            return a[i] < b[i];
        }
        assert(a@.skip(i as int).drop_first() =~= a@.skip(i + 1));
        assert(b@.skip(i as int).drop_first() =~= b@.skip(i + 1));
        i = i + 1;
    }
    i < b.len()
}

/// Sets `key` to `value` in a dictionary: an entry with an equal key is replaced in place,
/// otherwise the new entry goes before the first greater key, so sorted keys stay sorted.
pub fn dict_insert(dict: &mut Vec<(Vec<u8>, BencodeValue)>, key: Vec<u8>, value: BencodeValue)
    ensures
        view_entries(final(dict)@) == dict_put(view_entries(old(dict)@), key@, value.view()),
{
    let ghost d = view_entries(dict@);
    let ghost k = key@;
    let ghost v = value.view();
    proof {
        lemma_view_entries(dict@);
        assert(d.subrange(0, 0) + d.subrange(0, d.len() as int) =~= d);
    }
    let mut i: usize = 0;
    while i < dict.len()
        invariant
            i <= dict.len(),
            k == key@,
            v == value.view(),
            d == view_entries(dict@),
            d.len() == dict@.len(),
            forall|j: int|
                0 <= j < dict@.len() ==> #[trigger] d[j] == (dict@[j].0@, dict@[j].1.view()),
            dict_put(d, k, v) == d.subrange(0, i as int) + dict_put(
                d.subrange(i as int, d.len() as int),
                k,
                v,
            ),
        ensures
            i <= dict.len(),
            d == view_entries(dict@),
            d.len() == dict@.len(),
            forall|j: int|
                0 <= j < dict@.len() ==> #[trigger] d[j] == (dict@[j].0@, dict@[j].1.view()),
            dict_put(d, k, v) == d.subrange(0, i as int) + dict_put(
                d.subrange(i as int, d.len() as int),
                k,
                v,
            ),
            i < dict.len() ==> (d[i as int].0 == k || bytes_lt(k, d[i as int].0)),
        decreases dict.len() - i,
    {
        let cur: &Vec<u8> = &dict[i].0;
        let found = bytes_eq(cur.as_slice(), key.as_slice());
        if found {
            break;
        }
        let after = bytes_less(key.as_slice(), dict[i].0.as_slice());
        if after {
            break;
        }
        assert(d[i as int] == (dict@[i as int].0@, dict@[i as int].1.view()));
        proof {
            let rest = d.subrange(i as int, d.len() as int);
            assert(rest[0] == d[i as int]);
            assert(rest.drop_first() =~= d.subrange(i + 1, d.len() as int));
            assert(d.subrange(0, i + 1) =~= d.subrange(0, i as int) + seq![d[i as int]]);
            assert(d[i as int].0 != k);
            assert(!bytes_lt(k, d[i as int].0));
            assert(dict_put(rest, k, v) == seq![rest[0]] + dict_put(rest.drop_first(), k, v));
            assert(d.subrange(0, i as int) + dict_put(rest, k, v) =~= d.subrange(0, i + 1)
                + dict_put(d.subrange(i + 1, d.len() as int), k, v));
        }
        i = i + 1;
    }
    let ghost before = dict@;
    if i < dict.len() && bytes_eq(dict[i].0.as_slice(), key.as_slice()) {
        dict.set(i, (key, value));
        proof {
            let rest = d.subrange(i as int, d.len() as int);
            assert(rest[0] == d[i as int]);
            assert(rest.drop_first() =~= d.subrange(i + 1, d.len() as int));
            lemma_view_entries(dict@);
            assert(view_entries(dict@) =~= dict_put(d, k, v));
        }
    } else {
        dict.insert(i, (key, value));
        proof {
            let rest = d.subrange(i as int, d.len() as int);
            if i < before.len() {
                assert(rest[0] == d[i as int]);
            } else {
                assert(rest.len() == 0);
            }
            lemma_view_entries(dict@);
            assert(view_entries(dict@) =~= dict_put(d, k, v));
        }
    }
}

} // verus!
