//! Laws of the bencode model: byte-lexicographic order, dictionary insertion, the shape of
//! decoded values, and the round trip of the encoder through the decoder.
use vstd::prelude::*;
use crate::bencode::{Term, bytes_lt, dict_put, keys_sorted, lookup, wf_term};
use crate::bencode::BencodeError;
use crate::bencode::decoder::{
    all_digits, digits_value, find_byte, int_value, is_digit, lemma_parse_string_bounds,
    length_value, parse_dict_items, parse_int, parse_list_items, parse_string, parse_value,
};
use crate::bencode::encoder::{
    canonical, canonical_entries, canonical_items, digit_char, encode_bytes, encode_entries, encode_items, encode_term, int_text, nat_text,
};

verus! {

pub proof fn lemma_lt_irreflexive(a: Seq<u8>)
    ensures
        !bytes_lt(a, a),
    decreases a.len(),
{
    if a.len() > 0 {
        lemma_lt_irreflexive(a.drop_first());
    }
}

pub proof fn lemma_lt_asymmetric(a: Seq<u8>, b: Seq<u8>)
    ensures
        bytes_lt(a, b) ==> !bytes_lt(b, a),
    decreases a.len(),
{
    if a.len() > 0 && b.len() > 0 && a[0] == b[0] {
        lemma_lt_asymmetric(a.drop_first(), b.drop_first());
    }
}

pub proof fn lemma_lt_transitive(a: Seq<u8>, b: Seq<u8>, c: Seq<u8>)
    ensures
        bytes_lt(a, b) && bytes_lt(b, c) ==> bytes_lt(a, c),
    decreases a.len(),
{
    if a.len() > 0 && b.len() > 0 && c.len() > 0 {
        lemma_lt_transitive(a.drop_first(), b.drop_first(), c.drop_first());
    }
}

pub proof fn lemma_lt_total(a: Seq<u8>, b: Seq<u8>)
    ensures
        a != b ==> bytes_lt(a, b) || bytes_lt(b, a),
    decreases a.len(),
{
    if a.len() > 0 && b.len() > 0 && a[0] == b[0] {
        lemma_lt_total(a.drop_first(), b.drop_first());
        if a.drop_first() == b.drop_first() {
            assert(a =~= seq![a[0]] + a.drop_first());
            assert(b =~= seq![b[0]] + b.drop_first());
        }
    } else if a.len() == 0 && b.len() == 0 {
        assert(a =~= b);
    }
}

/// A property of every entry of `d` and of the new entry holds of every entry after
/// `dict_put`.
pub proof fn lemma_put_all(
    d: Seq<(Seq<u8>, Term)>,
    k: Seq<u8>,
    v: Term,
    p: spec_fn((Seq<u8>, Term)) -> bool,
)
    requires
        forall|i: int| 0 <= i < d.len() ==> p(#[trigger] d[i]),
        p((k, v)),
    ensures
        forall|i: int| 0 <= i < dict_put(d, k, v).len() ==> p(#[trigger] dict_put(d, k, v)[i]),
    decreases d.len(),
{
    if d.len() > 0 {
        let rest = d.drop_first();
        assert forall|i: int| 0 <= i < rest.len() implies p(#[trigger] rest[i]) by {
            assert(rest[i] == d[i + 1]);
        }
        lemma_put_all(rest, k, v, p);
        let r = dict_put(d, k, v);
        assert forall|i: int| 0 <= i < r.len() implies p(#[trigger] r[i]) by {
            if d[0].0 == k {
                if i > 0 {
                    assert(r[i] == rest[i - 1]);
                }
            } else if bytes_lt(k, d[0].0) {
                if i > 0 {
                    assert(r[i] == d[i - 1]);
                }
            } else {
                if i > 0 {
                    assert(r[i] == dict_put(rest, k, v)[i - 1]);
                }
            }
        }
    }
}

/// Canonical order: setting a key in a dictionary with sorted keys (the empty one included)
/// keeps the keys strictly increasing, so whatever order keys are inserted in, the encoder
/// emits them in byte-lexicographic order.
pub proof fn lemma_put_sorted(d: Seq<(Seq<u8>, Term)>, k: Seq<u8>, v: Term)
    requires
        keys_sorted(d),
    ensures
        keys_sorted(dict_put(d, k, v)),
    decreases d.len(),
{
    if d.len() > 0 {
        let rest = d.drop_first();
        let r = dict_put(d, k, v);
        assert(keys_sorted(rest)) by {
            assert forall|i: int, j: int| 0 <= i < j < rest.len() implies bytes_lt(
                #[trigger] rest[i].0,
                #[trigger] rest[j].0,
            ) by {
                assert(rest[i] == d[i + 1] && rest[j] == d[j + 1]);
            }
        }
        if d[0].0 == k {
            assert forall|i: int, j: int| 0 <= i < j < r.len() implies bytes_lt(
                #[trigger] r[i].0,
                #[trigger] r[j].0,
            ) by {
                assert(r[j] == d[j]);
                if i > 0 {
                    assert(r[i] == d[i]);
                }
            }
        } else if bytes_lt(k, d[0].0) {
            assert forall|i: int, j: int| 0 <= i < j < r.len() implies bytes_lt(
                #[trigger] r[i].0,
                #[trigger] r[j].0,
            ) by {
                assert(r[j] == d[j - 1]);
                if i > 0 {
                    assert(r[i] == d[i - 1]);
                } else if j - 1 > 0 {
                    lemma_lt_transitive(k, d[0].0, d[j - 1].0);
                }
            }
        } else {
            lemma_lt_total(k, d[0].0);
            lemma_put_sorted(rest, k, v);
            let lo = d[0].0;
            let above = |e: (Seq<u8>, Term)| bytes_lt(lo, e.0);
            assert forall|i: int| 0 <= i < rest.len() implies above(#[trigger] rest[i]) by {
                assert(rest[i] == d[i + 1]);
            }
            lemma_put_all(rest, k, v, above);
            let pr = dict_put(rest, k, v);
            assert forall|i: int, j: int| 0 <= i < j < r.len() implies bytes_lt(
                #[trigger] r[i].0,
                #[trigger] r[j].0,
            ) by {
                assert(r[j] == pr[j - 1]);
                if i > 0 {
                    assert(r[i] == pr[i - 1]);
                } else {
                    assert(above(pr[j - 1]));
                }
            }
        }
    }
}

pub open spec fn entry_ok(e: (Seq<u8>, Term)) -> bool {
    e.0.len() <= usize::MAX && wf_term(e.1)
}

proof fn lemma_list_items_wf(s: Seq<u8>, pos: int, acc: Seq<Term>)
    requires
        forall|i: int| 0 <= i < acc.len() ==> wf_term(#[trigger] acc[i]),
    ensures
        parse_list_items(s, pos, acc) matches Ok((items, _)) ==> forall|i: int|
            0 <= i < items.len() ==> wf_term(#[trigger] items[i]),
    decreases s.len() - pos, 1int,
{
    if 0 <= pos < s.len() && s[pos] != 101 {
        lemma_parse_value_wf(s, pos);
        if let Ok((t, e)) = parse_value(s, pos) {
            if pos < e <= s.len() {
                let next = acc.push(t);
                assert forall|i: int| 0 <= i < next.len() implies wf_term(#[trigger] next[i]) by {
                    if i < acc.len() {
                        assert(next[i] == acc[i]);
                    }
                }
                lemma_list_items_wf(s, e, next);
            }
        }
    }
}

proof fn lemma_dict_items_wf(s: Seq<u8>, pos: int, acc: Seq<(Seq<u8>, Term)>)
    requires
        keys_sorted(acc),
        forall|i: int| 0 <= i < acc.len() ==> entry_ok(#[trigger] acc[i]),
    ensures
        parse_dict_items(s, pos, acc) matches Ok((d, _)) ==> keys_sorted(d) && forall|i: int|
            0 <= i < d.len() ==> entry_ok(#[trigger] d[i]),
    decreases s.len() - pos, 1int,
{
    if 0 <= pos < s.len() && s[pos] != 101 && is_digit(s[pos]) {
        if let Ok((k, e1)) = parse_string(s, pos) {
            if pos < e1 <= s.len() {
                lemma_parse_string_bounds(s, pos);
                lemma_parse_value_wf(s, e1);
                if let Ok((t, e2)) = parse_value(s, e1) {
                    if e1 < e2 <= s.len() {
                        lemma_put_sorted(acc, k, t);
                        lemma_put_all(acc, k, t, |e: (Seq<u8>, Term)| entry_ok(e));
                        lemma_dict_items_wf(s, e2, dict_put(acc, k, t));
                    }
                }
            }
        }
    }
}

/// Every value the decoder produces is well formed: sorted unique dictionary keys, byte
/// strings of `usize` length, integers in `i64`.
pub proof fn lemma_parse_value_wf(s: Seq<u8>, pos: int)
    ensures
        parse_value(s, pos) matches Ok((t, _)) ==> wf_term(t),
    decreases s.len() - pos, 0int,
{
    if 0 <= pos < s.len() {
        if is_digit(s[pos]) {
            lemma_parse_string_bounds(s, pos);
        } else if s[pos] == 108 {
            lemma_list_items_wf(s, pos + 1, Seq::empty());
        } else if s[pos] == 100 {
            lemma_dict_items_wf(s, pos + 1, Seq::empty());
            if let Ok((d, _)) = parse_dict_items(s, pos + 1, Seq::empty()) {
                assert forall|i: int| 0 <= i < d.len() implies (#[trigger] d[i]).0.len()
                    <= usize::MAX && wf_term(d[i].1) by {
                    assert(entry_ok(d[i]));
                }
            }
        }
    }
}

/// A window of `s` that holds `enc` at `p` holds each piece of `enc` at the matching place.
proof fn lemma_window(s: Seq<u8>, p: int, enc: Seq<u8>, a: int, b: int)
    requires
        0 <= p,
        p + enc.len() <= s.len(),
        s.subrange(p, p + enc.len()) == enc,
        0 <= a <= b <= enc.len(),
    ensures
        s.subrange(p + a, p + b) == enc.subrange(a, b),
        forall|j: int| a <= j < b ==> #[trigger] s[p + j] == enc[j],
{
    assert forall|j: int| a <= j < b implies #[trigger] s[p + j] == enc[j] by {
        assert(s.subrange(p, p + enc.len())[j] == s[p + j]);
    }
    assert(s.subrange(p + a, p + b) =~= enc.subrange(a, b));
}

proof fn lemma_nat_text(n: nat)
    ensures
        nat_text(n).len() >= 1,
        all_digits(nat_text(n)),
        digits_value(nat_text(n)) == n,
        nat_text(n)[0] == 48 <==> n == 0,
        n == 0 ==> nat_text(n).len() == 1,
    decreases n,
{
    if n >= 10 {
        lemma_nat_text(n / 10);
        let t = nat_text(n);
        assert(t.drop_last() =~= nat_text(n / 10));
        assert(t[0] == nat_text(n / 10)[0]);
        assert(t.last() == digit_char((n % 10) as int));
        assert((t.last() - 48) as nat == n % 10);
        assert(digits_value(t) == digits_value(nat_text(n / 10)) * 10 + n % 10);
        assert((n / 10) * 10 + n % 10 == n) by (nonlinear_arith);
    } else {
        let t = nat_text(n);
        assert(t.drop_last() =~= Seq::<u8>::empty());
        assert(digits_value(t.drop_last()) == 0);
        assert(t.last() == digit_char(n as int));
        assert((t.last() - 48) as nat == n);
        assert(digits_value(t) == digits_value(t.drop_last()) * 10 + (t.last() - 48) as nat);
    }
}

proof fn lemma_find_byte_at(s: Seq<u8>, p: int, d: u8, k: int)
    requires
        0 <= p <= k < s.len(),
        s[k] == d,
        forall|j: int| p <= j < k ==> s[j] != d,
    ensures
        find_byte(s, p, d) == Some(k),
    decreases k - p,
{
    if p < k {
        lemma_find_byte_at(s, p + 1, d, k);
    }
}

/// The encoding of a byte string of `usize` length parses back as that byte string.
proof fn lemma_parse_bytes_encoded(b: Seq<u8>, s: Seq<u8>, p: int)
    requires
        b.len() <= usize::MAX,
        0 <= p,
        p + encode_bytes(b).len() <= s.len(),
        s.subrange(p, p + encode_bytes(b).len()) == encode_bytes(b),
    ensures
        parse_string(s, p) == Ok::<(Seq<u8>, int), BencodeError>((b, p + encode_bytes(b).len())),
{
    let l = nat_text(b.len());
    let enc = encode_bytes(b);
    lemma_nat_text(b.len());
    let k = p + l.len();
    lemma_window(s, p, enc, 0, enc.len() as int);
    assert forall|j: int| p <= j < k implies s[j] != 58 by {
        assert(s[p + (j - p)] == enc[j - p]);
        assert(enc[j - p] == l[j - p]);
        assert(is_digit(l[j - p]));
    }
    assert(s[p + l.len()] == enc[l.len() as int]);
    lemma_find_byte_at(s, p, 58, k);
    lemma_window(s, p, enc, 0, l.len() as int);
    assert(enc.subrange(0, l.len() as int) =~= l);
    assert(length_value(l) == Some(b.len()));
    lemma_window(s, p, enc, (l.len() + 1) as int, enc.len() as int);
    assert(enc.subrange((l.len() + 1) as int, enc.len() as int) =~= b);
}

proof fn lemma_int_text(i: int)
    requires
        i64::MIN <= i <= i64::MAX,
    ensures
        int_value(int_text(i)) == Some(i),
        forall|j: int| 0 <= j < int_text(i).len() ==> #[trigger] int_text(i)[j] != 101,
        int_text(i).len() >= 1,
{
    let t = int_text(i);
    if i < 0 {
        let m = nat_text((-i) as nat);
        lemma_nat_text((-i) as nat);
        assert(t.drop_first() =~= m);
        assert(t[0] == 45);
        assert(m != seq![48u8]) by {
            if m == seq![48u8] {
                assert(m[0] == 48);
            }
        }
        assert forall|j: int| 0 <= j < t.len() implies #[trigger] t[j] != 101 by {
            if j > 0 {
                assert(t[j] == m[j - 1]);
            }
        }
    } else {
        lemma_nat_text(i as nat);
        assert(is_digit(t[0]));
    }
}

/// `encode_items` unfolded at the front.
proof fn lemma_encode_items_front(items: Seq<Term>)
    requires
        items.len() > 0,
    ensures
        encode_items(items) == encode_term(items[0]) + encode_items(items.subrange(1, items.len() as int)),
    decreases items.len(),
{
    if items.len() == 1 {
        assert(items.drop_last() =~= Seq::<Term>::empty());
        assert(items.subrange(1, 1) =~= Seq::<Term>::empty());
        assert(items.last() == items[0]);
        assert(encode_items(Seq::<Term>::empty()) == Seq::<u8>::empty());
        assert(encode_items(items) =~= encode_term(items[0]));
    } else {
        let init = items.drop_last();
        lemma_encode_items_front(init);
        assert(init.subrange(1, init.len() as int) =~= items.subrange(1, items.len() as int).drop_last());
        assert(items.subrange(1, items.len() as int).last() == items.last());
        assert(encode_items(items) =~= encode_term(items[0]) + encode_items(items.subrange(1, items.len() as int)));
    }
}

/// `encode_entries` unfolded at the front.
proof fn lemma_encode_entries_front(entries: Seq<(Seq<u8>, Term)>)
    requires
        entries.len() > 0,
    ensures
        encode_entries(entries) == encode_bytes(entries[0].0) + encode_term(entries[0].1)
            + encode_entries(entries.subrange(1, entries.len() as int)),
    decreases entries.len(),
{
    let rest = entries.subrange(1, entries.len() as int);
    if entries.len() == 1 {
        assert(entries.drop_last() =~= Seq::<(Seq<u8>, Term)>::empty());
        assert(rest =~= Seq::<(Seq<u8>, Term)>::empty());
        assert(entries.last() == entries[0]);
        assert(encode_entries(Seq::<(Seq<u8>, Term)>::empty()) == Seq::<u8>::empty());
        assert(encode_entries(entries) =~= encode_bytes(entries[0].0) + encode_term(entries[0].1)
            + encode_entries(rest));
    } else {
        let init = entries.drop_last();
        lemma_encode_entries_front(init);
        assert(init.subrange(1, init.len() as int) =~= rest.drop_last());
        assert(rest.last() == entries.last());
        assert(encode_entries(entries) =~= encode_bytes(entries[0].0) + encode_term(entries[0].1)
            + encode_entries(rest));
    }
}

/// An encoding is never empty, and its first byte is a digit, `i`, `l` or `d`.
proof fn lemma_encoding_start(t: Term)
    ensures
        encode_term(t).len() >= 1,
        is_digit(encode_term(t)[0]) || encode_term(t)[0] == 105 || encode_term(t)[0] == 108
            || encode_term(t)[0] == 100,
{
    if let Term::Bytes(b) = t {
        lemma_nat_text(b.len());
    }
}

/// Setting a key greater than every key of a sorted dictionary appends it.
proof fn lemma_put_greater(d: Seq<(Seq<u8>, Term)>, k: Seq<u8>, v: Term)
    requires
        forall|i: int| 0 <= i < d.len() ==> bytes_lt(#[trigger] d[i].0, k),
    ensures
        dict_put(d, k, v) == d.push((k, v)),
    decreases d.len(),
{
    if d.len() > 0 {
        let rest = d.drop_first();
        assert(bytes_lt(d[0].0, k));
        lemma_lt_irreflexive(k);
        lemma_lt_asymmetric(d[0].0, k);
        assert forall|i: int| 0 <= i < rest.len() implies bytes_lt(#[trigger] rest[i].0, k) by {
            assert(rest[i] == d[i + 1]);
        }
        lemma_put_greater(rest, k, v);
        assert(seq![d[0]] + rest.push((k, v)) =~= d.push((k, v)));
    }
}

proof fn lemma_parse_items_encoded(items: Seq<Term>, s: Seq<u8>, q: int, acc: Seq<Term>)
    requires
        forall|i: int| 0 <= i < items.len() ==> wf_term(#[trigger] items[i]),
        0 <= q,
        q + encode_items(items).len() + 1 <= s.len(),
        s.subrange(q, q + encode_items(items).len()) == encode_items(items),
        s[q + encode_items(items).len()] == 101,
    ensures
        parse_list_items(s, q, acc) == Ok::<(Seq<Term>, int), BencodeError>(
            (acc + items, q + encode_items(items).len() + 1),
        ),
    decreases items,
{
    if items.len() == 0 {
        assert(acc + items =~= acc);
    } else {
        let rest = items.subrange(1, items.len() as int);
        let first = encode_term(items[0]);
        lemma_encode_items_front(items);
        lemma_encoding_start(items[0]);
        let whole = encode_items(items);
        lemma_window(s, q, whole, 0, first.len() as int);
        assert(whole.subrange(0, first.len() as int) =~= first);
        assert(s[q + 0] == whole[0]);
        lemma_parse_encoded(items[0], s, q);
        let q2 = q + first.len();
        lemma_window(s, q, whole, first.len() as int, whole.len() as int);
        assert(whole.subrange(first.len() as int, whole.len() as int) =~= encode_items(rest));
        assert forall|i: int| 0 <= i < rest.len() implies wf_term(#[trigger] rest[i]) by {
            assert(rest[i] == items[i + 1]);
        }
        lemma_parse_items_encoded(rest, s, q2, acc.push(items[0]));
        assert(acc.push(items[0]) + rest =~= acc + items);
    }
}

proof fn lemma_parse_entries_encoded(
    entries: Seq<(Seq<u8>, Term)>,
    s: Seq<u8>,
    q: int,
    acc: Seq<(Seq<u8>, Term)>,
)
    requires
        keys_sorted(acc + entries),
        forall|i: int| 0 <= i < entries.len() ==> entry_ok(#[trigger] entries[i]),
        0 <= q,
        q + encode_entries(entries).len() + 1 <= s.len(),
        s.subrange(q, q + encode_entries(entries).len()) == encode_entries(entries),
        s[q + encode_entries(entries).len()] == 101,
    ensures
        parse_dict_items(s, q, acc) == Ok::<(Seq<(Seq<u8>, Term)>, int), BencodeError>(
            (acc + entries, q + encode_entries(entries).len() + 1),
        ),
    decreases entries,
{
    if entries.len() == 0 {
        assert(acc + entries =~= acc);
    } else {
        let rest = entries.subrange(1, entries.len() as int);
        let (k, v) = entries[0];
        let kb = encode_bytes(k);
        let vb = encode_term(v);
        assert(entry_ok(entries[0]));
        lemma_encode_entries_front(entries);
        lemma_nat_text(k.len());
        let whole = encode_entries(entries);
        lemma_window(s, q, whole, 0, kb.len() as int);
        assert(whole.subrange(0, kb.len() as int) =~= kb);
        assert(s[q + 0] == whole[0]);
        assert(whole[0] == kb[0]);
        lemma_parse_bytes_encoded(k, s, q);
        let e1 = q + kb.len();
        lemma_window(s, q, whole, kb.len() as int, (kb.len() + vb.len()) as int);
        assert(whole.subrange(kb.len() as int, (kb.len() + vb.len()) as int) =~= vb);
        lemma_encoding_start(v);
        lemma_parse_encoded(v, s, e1);
        let e2 = e1 + vb.len();
        let all = acc + entries;
        assert forall|i: int| 0 <= i < acc.len() implies bytes_lt(#[trigger] acc[i].0, k) by {
            assert(all[i] == acc[i]);
            assert(all[acc.len() as int] == entries[0]);
        }
        lemma_put_greater(acc, k, v);
        lemma_window(s, q, whole, (kb.len() + vb.len()) as int, whole.len() as int);
        assert(whole.subrange((kb.len() + vb.len()) as int, whole.len() as int) =~= encode_entries(
            rest,
        ));
        assert forall|i: int| 0 <= i < rest.len() implies entry_ok(#[trigger] rest[i]) by {
            assert(rest[i] == entries[i + 1]);
        }
        assert(acc.push((k, v)) + rest =~= acc + entries);
        lemma_parse_entries_encoded(rest, s, e2, acc.push((k, v)));
    }
}

/// The encoding of a well-formed term, found at `p` in `s`, parses back as that term and
/// ends where the encoding ends.
pub proof fn lemma_parse_encoded(t: Term, s: Seq<u8>, p: int)
    requires
        wf_term(t),
        0 <= p,
        p + encode_term(t).len() <= s.len(),
        s.subrange(p, p + encode_term(t).len()) == encode_term(t),
    ensures
        parse_value(s, p) == Ok::<(Term, int), BencodeError>((t, p + encode_term(t).len())),
    decreases t,
{
    let enc = encode_term(t);
    lemma_encoding_start(t);
    lemma_window(s, p, enc, 0, enc.len() as int);
    assert(s[p + 0] == enc[0]);
    match t {
        Term::Bytes(b) => {
            lemma_nat_text(b.len());
            assert(enc[0] == nat_text(b.len())[0]);
            assert(is_digit(s[p]));
            lemma_parse_bytes_encoded(b, s, p);
        },
        Term::Int(i) => {
            let it = int_text(i);
            lemma_int_text(i);
            let k = p + 1 + it.len();
            assert forall|j: int| p + 1 <= j < k implies s[j] != 101 by {
                assert(s[p + (j - p)] == enc[j - p]);
                assert(enc[j - p] == it[j - p - 1]);
            }
            assert(s[p + (it.len() + 1)] == enc[(it.len() + 1) as int]);
            lemma_find_byte_at(s, p + 1, 101, k);
            lemma_window(s, p, enc, 1, (1 + it.len()) as int);
            assert(enc.subrange(1, (1 + it.len()) as int) =~= it);
            assert(parse_int(s, p) == Ok::<(int, int), BencodeError>((i, k + 1)));
        },
        Term::List(items) => {
            let body = encode_items(items);
            lemma_window(s, p, enc, 1, (1 + body.len()) as int);
            assert(enc.subrange(1, (1 + body.len()) as int) =~= body);
            assert(s[p + (1 + body.len())] == enc[(1 + body.len()) as int]);
            lemma_parse_items_encoded(items, s, p + 1, Seq::empty());
            assert(Seq::<Term>::empty() + items =~= items);
        },
        Term::Dict(entries) => {
            let body = encode_entries(entries);
            lemma_window(s, p, enc, 1, (1 + body.len()) as int);
            assert(enc.subrange(1, (1 + body.len()) as int) =~= body);
            assert(s[p + (1 + body.len())] == enc[(1 + body.len()) as int]);
            assert(Seq::<(Seq<u8>, Term)>::empty() + entries =~= entries);
            assert forall|i: int| 0 <= i < entries.len() implies entry_ok(#[trigger] entries[i]) by {
            }
            lemma_parse_entries_encoded(entries, s, p + 1, Seq::empty());
        },
    }
}

/// Round trip: decoding the encoding of a well-formed term gives back the term and consumes
/// exactly the encoding.
pub proof fn lemma_decode_encode(t: Term)
    requires
        wf_term(t),
    ensures
        parse_value(encode_term(t), 0) == Ok::<(Term, int), BencodeError>(
            (t, encode_term(t).len() as int),
        ),
{
    let enc = encode_term(t);
    assert(enc.subrange(0, enc.len() as int) =~= enc);
    lemma_parse_encoded(t, enc, 0);
}

/// Insertion order does not matter: setting two different keys gives the same sorted
/// dictionary, and so the same encoding, in either order.
pub proof fn lemma_insertion_order(
    d: Seq<(Seq<u8>, Term)>,
    k1: Seq<u8>,
    v1: Term,
    k2: Seq<u8>,
    v2: Term,
)
    requires
        keys_sorted(d),
        k1 != k2,
    ensures
        dict_put(dict_put(d, k1, v1), k2, v2) == dict_put(dict_put(d, k2, v2), k1, v1),
        encode_term(Term::Dict(dict_put(dict_put(d, k1, v1), k2, v2))) == encode_term(
            Term::Dict(dict_put(dict_put(d, k2, v2), k1, v1)),
        ),
    decreases d.len(),
{
    lemma_lt_total(k1, k2);
    lemma_lt_asymmetric(k1, k2);
    lemma_lt_asymmetric(k2, k1);
    lemma_lt_irreflexive(k1);
    lemma_lt_irreflexive(k2);
    if d.len() == 0 {
        let e = Seq::<(Seq<u8>, Term)>::empty();
        assert(d =~= e);
        let one1 = seq![(k1, v1)];
        let one2 = seq![(k2, v2)];
        assert(dict_put(e, k1, v1) == one1);
        assert(dict_put(e, k2, v2) == one2);
        assert(one1.drop_first() =~= e);
        assert(one2.drop_first() =~= e);
        assert(one1[0].0 == k1);
        assert(one2[0].0 == k2);
        if bytes_lt(k1, k2) {
            assert(dict_put(one1, k2, v2) == seq![one1[0]] + dict_put(e, k2, v2));
            assert(dict_put(one2, k1, v1) == seq![(k1, v1)] + one2);
            assert(dict_put(one1, k2, v2) =~= dict_put(one2, k1, v1));
        } else {
            assert(dict_put(one1, k2, v2) == seq![(k2, v2)] + one1);
            assert(dict_put(one2, k1, v1) == seq![one2[0]] + dict_put(e, k1, v1));
            assert(dict_put(one1, k2, v2) =~= dict_put(one2, k1, v1));
        }
    } else {
        let x = d[0].0;
        let rest = d.drop_first();
        lemma_lt_total(k1, x);
        lemma_lt_total(k2, x);
        lemma_lt_asymmetric(k1, x);
        lemma_lt_asymmetric(x, k1);
        lemma_lt_asymmetric(k2, x);
        lemma_lt_asymmetric(x, k2);
        lemma_lt_transitive(k1, k2, x);
        lemma_lt_transitive(k2, k1, x);
        lemma_lt_transitive(x, k1, k2);
        lemma_lt_transitive(x, k2, k1);
        lemma_lt_irreflexive(x);
        assert(keys_sorted(rest)) by {
            assert forall|i: int, j: int| 0 <= i < j < rest.len() implies bytes_lt(
                #[trigger] rest[i].0,
                #[trigger] rest[j].0,
            ) by {
                assert(rest[i] == d[i + 1] && rest[j] == d[j + 1]);
            }
        }
        lemma_insertion_order(rest, k1, v1, k2, v2);
        let a = dict_put(d, k1, v1);
        let b = dict_put(d, k2, v2);
        assert((seq![(k1, v1)] + rest).drop_first() =~= rest);
        assert((seq![(k2, v2)] + rest).drop_first() =~= rest);
        assert((seq![(k1, v1)] + d).drop_first() =~= d);
        assert((seq![(k2, v2)] + d).drop_first() =~= d);
        assert((seq![d[0]] + dict_put(rest, k1, v1)).drop_first() =~= dict_put(rest, k1, v1));
        assert((seq![d[0]] + dict_put(rest, k2, v2)).drop_first() =~= dict_put(rest, k2, v2));
        assert((seq![(k1, v1)] + (seq![(k2, v2)] + d)).drop_first() =~= seq![(k2, v2)] + d);
        assert((seq![(k2, v2)] + (seq![(k1, v1)] + d)).drop_first() =~= seq![(k1, v1)] + d);
        assert(dict_put(a, k2, v2) =~= dict_put(b, k1, v1));
    }
}

/// Different well-formed terms have different encodings.
pub proof fn lemma_encoding_injective(t1: Term, t2: Term)
    requires
        wf_term(t1),
        wf_term(t2),
        t1 != t2,
    ensures
        encode_term(t1) != encode_term(t2),
{
    lemma_decode_encode(t1);
    lemma_decode_encode(t2);
}

proof fn lemma_canonical_items_wf(s: Seq<Term>)
    requires
        forall|i: int| 0 <= i < s.len() ==> wf_term(#[trigger] s[i]),
    ensures
        canonical_items(s) == s,
    decreases s,
{
    if s.len() > 0 {
        let init = s.drop_last();
        assert forall|i: int| 0 <= i < init.len() implies wf_term(#[trigger] init[i]) by {
            assert(init[i] == s[i]);
        }
        lemma_canonical_items_wf(init);
        assert(wf_term(s[s.len() - 1]));
        lemma_canonical_wf(s[s.len() - 1]);
        assert(init.push(s.last()) =~= s);
    }
}

proof fn lemma_canonical_entries_wf(s: Seq<(Seq<u8>, Term)>)
    requires
        keys_sorted(s),
        forall|i: int| 0 <= i < s.len() ==> wf_term(#[trigger] s[i].1),
    ensures
        canonical_entries(s) == s,
    decreases s,
{
    if s.len() > 0 {
        let init = s.drop_last();
        let last = s[s.len() - 1];
        assert forall|i: int| 0 <= i < init.len() implies wf_term(#[trigger] init[i].1) by {
            assert(init[i] == s[i]);
        }
        assert forall|i: int, j: int| 0 <= i < j < init.len() implies bytes_lt(
            #[trigger] init[i].0,
            #[trigger] init[j].0,
        ) by {
            assert(init[i] == s[i] && init[j] == s[j]);
        }
        lemma_canonical_entries_wf(init);
        assert(wf_term(last.1));
        lemma_canonical_wf(last.1);
        assert forall|i: int| 0 <= i < init.len() implies bytes_lt(#[trigger] init[i].0, last.0) by {
            assert(init[i] == s[i]);
        }
        lemma_put_greater(init, last.0, last.1);
        assert(init.push(last) =~= s);
    }
}

/// A well-formed term, such as any value the decoder produces, is already in canonical form.
pub proof fn lemma_canonical_wf(t: Term)
    requires
        wf_term(t),
    ensures
        canonical(t) == t,
    decreases t,
{
    match t {
        Term::List(items) => lemma_canonical_items_wf(items),
        Term::Dict(entries) => {
            assert forall|i: int| 0 <= i < entries.len() implies wf_term(#[trigger] entries[i].1) by {
                assert(entries[i].0.len() <= usize::MAX && wf_term(entries[i].1));
            }
            lemma_canonical_entries_wf(entries);
        },
        _ => {},
    }
}

/// Canonical order: whatever order a dictionary's entries are stored in, its canonical form,
/// which the encoder emits, has strictly increasing keys.
pub proof fn lemma_canonical_sorted(s: Seq<(Seq<u8>, Term)>)
    ensures
        keys_sorted(canonical_entries(s)),
    decreases s.len(),
{
    if s.len() > 0 {
        lemma_canonical_sorted(s.drop_last());
        lemma_put_sorted(canonical_entries(s.drop_last()), s.last().0, canonical(s.last().1));
    }
}

/// Round trip through the encoder: decoding the encoding of any decoded value gives it back
/// and consumes exactly the encoding.
pub proof fn lemma_round_trip(s: Seq<u8>, pos: int)
    ensures
        parse_value(s, pos) matches Ok((t, _)) ==> parse_value(encode_term(canonical(t)), 0)
            == Ok::<(Term, int), BencodeError>((t, encode_term(canonical(t)).len() as int)),
{
    lemma_parse_value_wf(s, pos);
    if let Ok((t, _)) = parse_value(s, pos) {
        lemma_canonical_wf(t);
        lemma_decode_encode(t);
    }
}

/// The value that the last entry with key `k` gives, in canonical form.
pub open spec fn last_value(s: Seq<(Seq<u8>, Term)>, k: Seq<u8>) -> Option<Term>
    decreases s.len(),
{
    if s.len() == 0 {
        None
    } else if s.last().0 == k {
        Some(canonical(s.last().1))
    } else {
        last_value(s.drop_last(), k)
    }
}

/// Looking a key up after `dict_put` finds the value just set for that key, and what was
/// there before for any other key.
pub proof fn lemma_lookup_put(d: Seq<(Seq<u8>, Term)>, k: Seq<u8>, v: Term, q: Seq<u8>)
    ensures
        lookup(dict_put(d, k, v), q) == if q == k {
            Some(v)
        } else {
            lookup(d, q)
        },
    decreases d.len(),
{
    let r = dict_put(d, k, v);
    if d.len() == 0 {
        assert(r[0] == (k, v));
        assert(r.drop_first() =~= Seq::<(Seq<u8>, Term)>::empty());
        assert(lookup(Seq::<(Seq<u8>, Term)>::empty(), q) is None);
    } else if d[0].0 == k {
        assert(r[0] == (k, v));
        assert(r.drop_first() =~= d.drop_first());
    } else if bytes_lt(k, d[0].0) {
        assert(r[0] == (k, v));
        assert(r.drop_first() =~= d);
    } else {
        lemma_lookup_put(d.drop_first(), k, v, q);
        assert(r[0] == d[0]);
        assert(r.drop_first() =~= dict_put(d.drop_first(), k, v));
        assert(r.len() > 0);
        if d[0].0 == q {
            assert(lookup(r, q) == Some(d[0].1));
            assert(lookup(d, q) == Some(d[0].1));
        } else {
            assert(lookup(r, q) == lookup(dict_put(d.drop_first(), k, v), q));
            assert(lookup(d, q) == lookup(d.drop_first(), q));
        }
    }
}

/// The canonical dictionary holds exactly, for each key, the value of the last entry with
/// that key.
pub proof fn lemma_canonical_lookup(s: Seq<(Seq<u8>, Term)>, k: Seq<u8>)
    ensures
        lookup(canonical_entries(s), k) == last_value(s, k),
    decreases s.len(),
{
    if s.len() > 0 {
        lemma_canonical_lookup(s.drop_last(), k);
        lemma_lookup_put(canonical_entries(s.drop_last()), s.last().0, canonical(s.last().1), k);
    }
}

/// A key that `lookup` finds stands at some position of the dictionary.
proof fn lemma_lookup_index(d: Seq<(Seq<u8>, Term)>, k: Seq<u8>) -> (i: int)
    requires
        lookup(d, k) is Some,
    ensures
        0 <= i < d.len(),
        d[i].0 == k,
        lookup(d, k) == Some(d[i].1),
    decreases d.len(),
{
    if d[0].0 == k {
        0
    } else {
        let j = lemma_lookup_index(d.drop_first(), k);
        j + 1
    }
}

/// A key at some position is found by `lookup`.
proof fn lemma_lookup_present(d: Seq<(Seq<u8>, Term)>, i: int)
    requires
        0 <= i < d.len(),
    ensures
        lookup(d, d[i].0) is Some,
    decreases d.len(),
{
    if i > 0 && d[0].0 != d[i].0 {
        lemma_lookup_present(d.drop_first(), i - 1);
    }
}

proof fn lemma_sorted_rest(d: Seq<(Seq<u8>, Term)>)
    requires
        keys_sorted(d),
        d.len() > 0,
    ensures
        keys_sorted(d.drop_first()),
        forall|i: int| 0 <= i < d.drop_first().len() ==> bytes_lt(d[0].0, #[trigger] d.drop_first()[i].0),
{
    let r = d.drop_first();
    assert forall|i: int, j: int| 0 <= i < j < r.len() implies bytes_lt(
        #[trigger] r[i].0,
        #[trigger] r[j].0,
    ) by {
        assert(r[i] == d[i + 1] && r[j] == d[j + 1]);
    }
    assert forall|i: int| 0 <= i < r.len() implies bytes_lt(d[0].0, #[trigger] r[i].0) by {
        assert(r[i] == d[i + 1]);
    }
}

/// A key smaller than every key of the dictionary is not found.
proof fn lemma_lookup_below(d: Seq<(Seq<u8>, Term)>, k: Seq<u8>)
    requires
        forall|i: int| 0 <= i < d.len() ==> bytes_lt(k, #[trigger] d[i].0),
    ensures
        lookup(d, k) is None,
{
    if lookup(d, k) is Some {
        let i = lemma_lookup_index(d, k);
        lemma_lt_irreflexive(k);
    }
}

/// Two dictionaries with sorted keys that map every key alike are equal.
pub proof fn lemma_sorted_extensional(a: Seq<(Seq<u8>, Term)>, b: Seq<(Seq<u8>, Term)>)
    requires
        keys_sorted(a),
        keys_sorted(b),
        forall|k: Seq<u8>| lookup(a, k) == lookup(b, k),
    ensures
        a == b,
    decreases a.len() + b.len(),
{
    if a.len() == 0 && b.len() == 0 {
        assert(a =~= b);
    } else if a.len() == 0 {
        lemma_lookup_present(b, 0);
        assert(lookup(a, b[0].0) is None);
    } else if b.len() == 0 {
        lemma_lookup_present(a, 0);
        assert(lookup(b, a[0].0) is None);
    } else {
        let x = a[0].0;
        let y = b[0].0;
        lemma_lookup_present(a, 0);
        lemma_lookup_present(b, 0);
        let i = lemma_lookup_index(a, y);
        let j = lemma_lookup_index(b, x);
        lemma_lt_asymmetric(x, y);
        lemma_lt_irreflexive(x);
        assert(x == y) by {
            if x != y {
                assert(i > 0 && j > 0);
                assert(bytes_lt(x, a[i].0));
                assert(bytes_lt(y, b[j].0));
            }
        }
        assert(a[0].1 == b[0].1);
        let ra = a.drop_first();
        let rb = b.drop_first();
        lemma_sorted_rest(a);
        lemma_sorted_rest(b);
        assert forall|k: Seq<u8>| lookup(ra, k) == lookup(rb, k) by {
            if k == x {
                lemma_lookup_below(ra, k);
                lemma_lookup_below(rb, k);
            } else {
                assert(lookup(a, k) == lookup(ra, k));
                assert(lookup(b, k) == lookup(rb, k));
            }
        }
        lemma_sorted_extensional(ra, rb);
        assert(a =~= seq![a[0]] + ra);
        assert(b =~= seq![b[0]] + rb);
    }
}

/// Canonical ordering, in general: the encoding of a dictionary depends only on which value
/// each key ends up with, never on the order in which its entries were inserted or stored.
pub proof fn lemma_encoding_depends_on_mapping(s1: Seq<(Seq<u8>, Term)>, s2: Seq<(Seq<u8>, Term)>)
    requires
        forall|k: Seq<u8>| last_value(s1, k) == last_value(s2, k),
    ensures
        canonical(Term::Dict(s1)) == canonical(Term::Dict(s2)),
        encode_term(canonical(Term::Dict(s1))) == encode_term(canonical(Term::Dict(s2))),
{
    lemma_canonical_sorted(s1);
    lemma_canonical_sorted(s2);
    assert forall|k: Seq<u8>| lookup(canonical_entries(s1), k) == lookup(canonical_entries(s2), k) by {
        lemma_canonical_lookup(s1, k);
        lemma_canonical_lookup(s2, k);
    }
    lemma_sorted_extensional(canonical_entries(s1), canonical_entries(s2));
}

} // verus!
