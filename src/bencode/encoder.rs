//! Canonical bencode encoder.
use vstd::prelude::*;
use crate::bencode::{
    BencodeValue, Term, bytes_eq, bytes_less, dict_put, view_items, view_entries, lemma_view_items,
    lemma_view_entries,
};

verus! {

/// The ASCII digit of `d`, for `0 <= d < 10`.
pub open spec fn digit_char(d: int) -> u8 {
    (48 + d) as u8
}

/// Decimal text of a natural number, with no leading zero.
pub open spec fn nat_text(n: nat) -> Seq<u8>
    decreases n,
{
    if n < 10 {
        seq![digit_char(n as int)]
    } else {
        nat_text(n / 10).push(digit_char((n % 10) as int))
    }
}

/// Decimal text of an integer: a `-` before the digits of a negative one.
pub open spec fn int_text(i: int) -> Seq<u8> {
    if i < 0 {
        seq![45u8] + nat_text((-i) as nat)
    } else {
        nat_text(i as nat)
    }
}

/// A byte string's encoding: `<length>:<bytes>`.
pub open spec fn encode_bytes(b: Seq<u8>) -> Seq<u8> {
    nat_text(b.len()) + seq![58u8] + b
}

/// The bencode encoding of a term; dictionary entries are emitted in stored order.
pub open spec fn encode_term(t: Term) -> Seq<u8>
    decreases t,
{
    match t {
        Term::Bytes(b) => encode_bytes(b),
        // `i<decimal>e`
        Term::Int(i) => seq![105u8] + int_text(i) + seq![101u8],
        // `l<items>e`
        Term::List(items) => seq![108u8] + encode_items(items) + seq![101u8],
        // `d<key><value>...e`
        Term::Dict(entries) => seq![100u8] + encode_entries(entries) + seq![101u8],
    }
}

/// Concatenated encodings of the items, in order.
pub open spec fn encode_items(s: Seq<Term>) -> Seq<u8>
    decreases s,
{
    if s.len() == 0 {
        Seq::empty()
    } else {
        encode_items(s.drop_last()) + encode_term(s.last())
    }
}

/// Concatenated encodings of the entries, in order: each key as a byte string, then its value.
pub open spec fn encode_entries(s: Seq<(Seq<u8>, Term)>) -> Seq<u8>
    decreases s,
{
    if s.len() == 0 {
        Seq::empty()
    } else {
        encode_entries(s.drop_last()) + encode_bytes(s.last().0) + encode_term(s.last().1)
    }
}

/// Appends the decimal digits of `n`.
fn push_decimal(writer: &mut Vec<u8>, n: u64)
    ensures
        final(writer)@ == old(writer)@ + nat_text(n as nat),
    decreases n,
{
    if n >= 10 {
        push_decimal(writer, n / 10);
    }
    writer.push(48u8 + (n % 10) as u8);
    proof {
        assert(old(writer)@ + nat_text(n as nat) =~= final(writer)@);
    }
}

/// Encodes a byte slice as a bencode string: `<length>:<bytes>`.
fn encode_string(writer: &mut Vec<u8>, s: &[u8])
    ensures
        final(writer)@ == old(writer)@ + encode_bytes(s@),
{
    push_decimal(writer, s.len() as u64);
    writer.push(58u8);
    let mut i: usize = 0;
    let ghost start = writer@;
    while i < s.len()
        invariant
            i <= s.len(),
            writer@ == start + s@.subrange(0, i as int),
        decreases s.len() - i,
    {
        writer.push(s[i]);
        i = i + 1;
        proof {
            assert(writer@ =~= start + s@.subrange(0, i as int));
        }
    }
    proof {
        assert(s@.subrange(0, s@.len() as int) =~= s@);
        assert(final(writer)@ =~= old(writer)@ + encode_bytes(s@));
    }
}

/// Appends the decimal text of `i`, with a `-` before a negative one.
pub(crate) fn push_int_text(writer: &mut Vec<u8>, i: i64)
    ensures
        final(writer)@ == old(writer)@ + int_text(i as int),
{
    if i < 0 {
        writer.push(45u8);
        let magnitude: u64 = if i == i64::MIN {
            9223372036854775808u64
        } else {
            (-i) as u64
        };
        push_decimal(writer, magnitude);
    } else {
        push_decimal(writer, i as u64);
    }
    proof {
        assert(final(writer)@ =~= old(writer)@ + int_text(i as int));
    }
}

/// Encodes an integer as `i<decimal>e`.
fn encode_integer(writer: &mut Vec<u8>, i: i64)
    ensures
        final(writer)@ == old(writer)@ + encode_term(Term::Int(i as int)),
{
    writer.push(105u8);
    push_int_text(writer, i);
    writer.push(101u8);
    proof {
        assert(final(writer)@ =~= old(writer)@ + encode_term(Term::Int(i as int)));
    }
}

/// The canonical form of a term: every dictionary, at any depth, has its entries set one by
/// one with `dict_put` in stored order, so its keys are sorted and unique, a repeated key
/// keeping its last value.
pub open spec fn canonical(t: Term) -> Term
    decreases t,
{
    match t {
        Term::Bytes(_) => t,
        Term::Int(_) => t,
        Term::List(items) => Term::List(canonical_items(items)),
        Term::Dict(entries) => Term::Dict(canonical_entries(entries)),
    }
}

pub open spec fn canonical_items(s: Seq<Term>) -> Seq<Term>
    decreases s,
{
    if s.len() == 0 {
        Seq::empty()
    } else {
        canonical_items(s.drop_last()).push(canonical(s.last()))
    }
}

pub open spec fn canonical_entries(s: Seq<(Seq<u8>, Term)>) -> Seq<(Seq<u8>, Term)>
    decreases s,
{
    if s.len() == 0 {
        Seq::empty()
    } else {
        dict_put(canonical_entries(s.drop_last()), s.last().0, canonical(s.last().1))
    }
}

/// The entries that `order` picks from `es`, each value in canonical form.
pub open spec fn order_view(order: Seq<usize>, es: Seq<(Seq<u8>, Term)>) -> Seq<(Seq<u8>, Term)> {
    Seq::new(order.len(), |j: int| (es[order[j] as int].0, canonical(es[order[j] as int].1)))
}

/// Encodes a list as `l<items>e`.
fn encode_list(writer: &mut Vec<u8>, list: &Vec<BencodeValue>)
    ensures
        final(writer)@ == old(writer)@ + encode_term(canonical(Term::List(view_items(list@)))),
    decreases list, 0int,
{
    writer.push(108u8);
    let ghost start = writer@;
    let ghost vs = view_items(list@);
    proof {
        lemma_view_items(list@);
        assert(vs.subrange(0, 0) =~= Seq::<Term>::empty());
    }
    let mut i: usize = 0;
    while i < list.len()
        invariant
            i <= list.len(),
            vs == view_items(list@),
            vs.len() == list@.len(),
            forall|k: int| 0 <= k < list@.len() ==> #[trigger] vs[k] == list@[k].view(),
            writer@ == start + encode_items(canonical_items(vs.subrange(0, i as int))),
        decreases list.len() - i,
    {
        encode_value(writer, &list[i]);
        proof {
            let s = vs.subrange(0, i + 1);
            assert(s.drop_last() =~= vs.subrange(0, i as int));
            assert(s.last() == vs[i as int]);
            let c = canonical_items(vs.subrange(0, i as int));
            assert(canonical_items(s) == c.push(canonical(vs[i as int])));
            assert(c.push(canonical(vs[i as int])).drop_last() =~= c);
            assert(encode_items(canonical_items(s)) == encode_items(c) + encode_term(
                canonical(vs[i as int]),
            ));
        }
        i = i + 1;
        proof {
            assert(writer@ =~= start + encode_items(canonical_items(vs.subrange(0, i as int))));
        }
    }
    writer.push(101u8);
    proof {
        assert(vs.subrange(0, i as int) =~= vs);
        assert(final(writer)@ =~= old(writer)@ + encode_term(canonical(Term::List(vs))));
    }
}

/// The positions of the entries of `dict` in canonical order: byte-lexicographic key order,
/// one position per key, the last entry with a key winning.
fn canonical_order(dict: &Vec<(Vec<u8>, BencodeValue)>) -> (order: Vec<usize>)
    ensures
        forall|j: int| 0 <= j < order@.len() ==> #[trigger] order@[j] < dict@.len(),
        order_view(order@, view_entries(dict@)) == canonical_entries(view_entries(dict@)),
{
    let ghost es = view_entries(dict@);
    proof {
        lemma_view_entries(dict@);
        assert(es.subrange(0, 0) =~= Seq::<(Seq<u8>, Term)>::empty());
    }
    let mut order: Vec<usize> = Vec::new();
    assert(order_view(order@, es) =~= Seq::<(Seq<u8>, Term)>::empty());
    let mut i: usize = 0;
    while i < dict.len()
        invariant
            i <= dict.len(),
            es == view_entries(dict@),
            es.len() == dict@.len(),
            forall|j: int| 0 <= j < dict@.len() ==> #[trigger] es[j] == (dict@[j].0@, dict@[j].1.view()),
            forall|j: int| 0 <= j < order@.len() ==> #[trigger] order@[j] < i,
            order_view(order@, es) == canonical_entries(es.subrange(0, i as int)),
        decreases dict.len() - i,
    {
        let ghost d = order_view(order@, es);
        let ghost k = es[i as int].0;
        let ghost v = canonical(es[i as int].1);
        proof {
            let s = es.subrange(0, i + 1);
            assert(s.drop_last() =~= es.subrange(0, i as int));
            assert(s.last() == es[i as int]);
            assert(d.subrange(0, 0) + d.subrange(0, d.len() as int) =~= d);
        }
        let key = &dict[i].0;
        let mut j: usize = 0;
        while j < order.len()
            invariant
                i < dict.len(),
                j <= order.len(),
                es == view_entries(dict@),
                es.len() == dict@.len(),
                forall|m: int| 0 <= m < dict@.len() ==> #[trigger] es[m] == (dict@[m].0@, dict@[m].1.view()),
                forall|m: int| 0 <= m < order@.len() ==> #[trigger] order@[m] < i,
                d == order_view(order@, es),
                k == es[i as int].0,
                key@ == k,
                dict_put(d, k, v) == d.subrange(0, j as int) + dict_put(
                    d.subrange(j as int, d.len() as int),
                    k,
                    v,
                ),
            ensures
                j <= order.len(),
                d == order_view(order@, es),
                forall|m: int| 0 <= m < order@.len() ==> #[trigger] order@[m] < i,
                dict_put(d, k, v) == d.subrange(0, j as int) + dict_put(
                    d.subrange(j as int, d.len() as int),
                    k,
                    v,
                ),
                j < order.len() ==> (d[j as int].0 == k || crate::bencode::bytes_lt(k, d[j as int].0)),
            decreases order.len() - j,
        {
            let other = &dict[order[j]].0;
            assert(d[j as int].0 == other@);
            if bytes_eq(other.as_slice(), key.as_slice()) {
                break;
            }
            if bytes_less(key.as_slice(), other.as_slice()) {
                break;
            }
            proof {
                let rest = d.subrange(j as int, d.len() as int);
                assert(rest[0] == d[j as int]);
                assert(rest.drop_first() =~= d.subrange(j + 1, d.len() as int));
                assert(dict_put(rest, k, v) == seq![rest[0]] + dict_put(rest.drop_first(), k, v));
                assert(d.subrange(0, j as int) + dict_put(rest, k, v) =~= d.subrange(0, j + 1)
                    + dict_put(d.subrange(j + 1, d.len() as int), k, v));
            }
            j = j + 1;
        }
        let ghost before = order@;
        if j < order.len() && bytes_eq(dict[order[j]].0.as_slice(), key.as_slice()) {
            order.set(j, i);
            proof {
                let rest = d.subrange(j as int, d.len() as int);
                assert(rest[0] == d[j as int]);
                assert(rest.drop_first() =~= d.subrange(j + 1, d.len() as int));
                assert(order_view(order@, es) =~= dict_put(d, k, v));
            }
        } else {
            order.insert(j, i);
            proof {
                let rest = d.subrange(j as int, d.len() as int);
                if j < before.len() {
                    assert(rest[0] == d[j as int]);
                } else {
                    assert(rest.len() == 0);
                }
                assert(order_view(order@, es) =~= dict_put(d, k, v));
            }
        }
        i = i + 1;
        proof {
            assert forall|m: int| 0 <= m < order@.len() implies #[trigger] order@[m] < i by {
                if m < j {
                    assert(order@[m] == before[m]);
                } else if m > j {
                    assert(order@[m] == before[m - 1] || order@[m] == before[m]);
                }
            }
        }
    }
    assert(es.subrange(0, i as int) =~= es);
    order
}

/// Encodes a dictionary as `d<entries>e`, its entries in canonical order: sorted by key in
/// byte-lexicographic order whatever order they are stored in, a repeated key keeping its
/// last value.
pub fn encode_dict(writer: &mut Vec<u8>, dict: &Vec<(Vec<u8>, BencodeValue)>)
    ensures
        final(writer)@ == old(writer)@ + encode_term(canonical(Term::Dict(view_entries(dict@)))),
    decreases dict, 0int,
{
    let order = canonical_order(dict);
    writer.push(100u8);
    let ghost start = writer@;
    let ghost es = view_entries(dict@);
    let ghost ov = order_view(order@, es);
    proof {
        lemma_view_entries(dict@);
    }
    let mut j: usize = 0;
    while j < order.len()
        invariant
            j <= order.len(),
            es == view_entries(dict@),
            es.len() == dict@.len(),
            forall|m: int| 0 <= m < dict@.len() ==> #[trigger] es[m] == (dict@[m].0@, dict@[m].1.view()),
            forall|m: int| 0 <= m < order@.len() ==> #[trigger] order@[m] < dict@.len(),
            ov == order_view(order@, es),
            ov == canonical_entries(es),
            writer@ == start + encode_entries(ov.subrange(0, j as int)),
        decreases order.len() - j,
    {
        let idx = order[j];
        let entry = &dict[idx];
        encode_string(writer, entry.0.as_slice());
        encode_value(writer, &entry.1);
        proof {
            let s = ov.subrange(0, j + 1);
            assert(s.drop_last() =~= ov.subrange(0, j as int));
            assert(s.last() == ov[j as int]);
            assert(ov[j as int] == (es[idx as int].0, canonical(es[idx as int].1)));
        }
        j = j + 1;
        proof {
            assert(writer@ =~= start + encode_entries(ov.subrange(0, j as int)));
        }
    }
    writer.push(101u8);
    proof {
        assert(ov.subrange(0, j as int) =~= ov);
        assert(final(writer)@ =~= old(writer)@ + encode_term(canonical(Term::Dict(es))));
    }
}

fn encode_value(writer: &mut Vec<u8>, value: &BencodeValue)
    ensures
        final(writer)@ == old(writer)@ + encode_term(canonical(value.view())),
    decreases value, 1int,
{
    match value {
        BencodeValue::String(s) => encode_string(writer, s.as_slice()),
        BencodeValue::Integer(i) => encode_integer(writer, *i),
        BencodeValue::List(list) => encode_list(writer, list),
        BencodeValue::Dict(dict) => encode_dict(writer, dict),
    }
}

/// Appends the canonical bencode encoding of `value` to `writer`: dictionaries at every depth
/// are emitted in byte-lexicographic key order, whatever order their entries are stored in.
pub fn encode(writer: &mut Vec<u8>, value: &BencodeValue)
    ensures
        final(writer)@ == old(writer)@ + encode_term(canonical(value.view())),
{
    encode_value(writer, value)
}

} // verus!
