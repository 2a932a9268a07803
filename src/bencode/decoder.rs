//! Strict recursive-descent bencode decoder over a byte slice.
//!
//! Each function decodes one item that starts at a given position and returns it with the
//! position just after it, so that callers can decode a sequence of values.
use vstd::prelude::*;
use crate::bencode::{
    BencodeError, BencodeResult, BencodeValue, Term, dict_insert, dict_put, view_entries,
    view_items,
};

verus! {

pub open spec fn is_digit(b: u8) -> bool {
    48 <= b <= 57
}

pub open spec fn all_digits(t: Seq<u8>) -> bool {
    forall|i: int| 0 <= i < t.len() ==> is_digit(#[trigger] t[i])
}

/// The number that a string of decimal digits spells.
pub open spec fn digits_value(t: Seq<u8>) -> nat
    decreases t.len(),
{
    if t.len() == 0 {
        0
    } else {
        digits_value(t.drop_last()) * 10 + (t.last() - 48) as nat
    }
}

/// The first position at or after `pos` that holds `d`.
pub open spec fn find_byte(s: Seq<u8>, pos: int, d: u8) -> Option<int>
    decreases s.len() - pos,
{
    if pos < 0 || pos >= s.len() {
        None
    } else if s[pos] == d {
        Some(pos)
    } else {
        find_byte(s, pos + 1, d)
    }
}

/// Decimal digits after an optional `+` sign, as an unsigned number is read.
pub open spec fn unsigned_digits(t: Seq<u8>) -> Seq<u8> {
    if t.len() > 0 && t[0] == 43 {
        t.drop_first()
    } else {
        t
    }
}

/// A string length prefix: an optional `+`, then one or more decimal digits whose value fits
/// in `usize`.
pub open spec fn length_value(t: Seq<u8>) -> Option<nat> {
    let d = unsigned_digits(t);
    if d.len() > 0 && all_digits(d) && digits_value(d) <= usize::MAX {
        Some(digits_value(d))
    } else {
        None
    }
}

/// The text between `i` and `e`: no empty text, no leading zero, no `-0`, an optional `-` or
/// `+` followed by decimal digits, and a value in the range of `i64`.
pub open spec fn int_value(t: Seq<u8>) -> Option<int> {
    if t.len() == 0 || (t.len() > 1 && t[0] == 48) {
        None
    } else if t[0] == 45 {
        let m = t.drop_first();
        if m.len() > 0 && all_digits(m) && m != seq![48u8] && digits_value(m)
            <= 0x8000_0000_0000_0000 {
            Some(-digits_value(m))
        } else {
            None
        }
    } else if t[0] == 43 {
        let m = t.drop_first();
        if m.len() > 0 && all_digits(m) && digits_value(m) <= 0x7fff_ffff_ffff_ffff {
            Some(digits_value(m) as int)
        } else {
            None
        }
    } else if all_digits(t) && digits_value(t) <= 0x7fff_ffff_ffff_ffff {
        Some(digits_value(t) as int)
    } else {
        None
    }
}

/// A byte string at `pos`: `<length>:<bytes>`.
pub open spec fn parse_string(s: Seq<u8>, pos: int) -> Result<(Seq<u8>, int), BencodeError> {
    match find_byte(s, pos, 58) {
        None => Err(BencodeError::UnexpectedEOI),
        Some(k) => match length_value(s.subrange(pos, k)) {
            None => Err(BencodeError::InvalidStringLength),
            Some(n) => if k + 1 + n <= s.len() {
                Ok((s.subrange(k + 1, k + 1 + n), k + 1 + n))
            } else {
                Err(BencodeError::UnexpectedEOI)
            },
        },
    }
}

/// An integer at `pos`: `i<decimal>e`.
pub open spec fn parse_int(s: Seq<u8>, pos: int) -> Result<(int, int), BencodeError> {
    if pos < 0 || pos >= s.len() {
        Err(BencodeError::UnexpectedEOI)
    } else if s[pos] != 105 {
        Err(BencodeError::UnexpectedByte(s[pos]))
    } else {
        match find_byte(s, pos + 1, 101) {
            None => Err(BencodeError::UnexpectedEOI),
            Some(k) => match int_value(s.subrange(pos + 1, k)) {
                None => Err(BencodeError::InvalidInteger),
                Some(i) => Ok((i, k + 1)),
            },
        }
    }
}

/// The value that starts at `pos`, chosen by its first byte, and the position after it.
pub open spec fn parse_value(s: Seq<u8>, pos: int) -> Result<(Term, int), BencodeError>
    decreases s.len() - pos, 0int,
{
    if pos < 0 || pos >= s.len() {
        Err(BencodeError::UnexpectedEOI)
    } else if is_digit(s[pos]) {
        match parse_string(s, pos) {
            Ok((b, e)) => Ok((Term::Bytes(b), e)),
            Err(x) => Err(x),
        }
    } else if s[pos] == 105 {
        match parse_int(s, pos) {
            Ok((i, e)) => Ok((Term::Int(i), e)),
            Err(x) => Err(x),
        }
    } else if s[pos] == 108 {
        match parse_list_items(s, pos + 1, Seq::empty()) {
            Ok((items, e)) => Ok((Term::List(items), e)),
            Err(x) => Err(x),
        }
    } else if s[pos] == 100 {
        match parse_dict_items(s, pos + 1, Seq::empty()) {
            Ok((entries, e)) => Ok((Term::Dict(entries), e)),
            Err(x) => Err(x),
        }
    } else {
        Err(BencodeError::UnexpectedByte(s[pos]))
    }
}

/// The rest of a list from `pos`: values up to the closing `e`, appended to `acc`.
pub open spec fn parse_list_items(s: Seq<u8>, pos: int, acc: Seq<Term>) -> Result<
    (Seq<Term>, int),
    BencodeError,
>
    decreases s.len() - pos, 1int,
{
    if pos < 0 || pos >= s.len() {
        Err(BencodeError::UnexpectedEOI)
    } else if s[pos] == 101 {
        Ok((acc, pos + 1))
    } else {
        match parse_value(s, pos) {
            Err(x) => Err(x),
            Ok((t, e)) => if pos < e <= s.len() {
                parse_list_items(s, e, acc.push(t))
            } else {
                Err(BencodeError::UnexpectedEOI)
            },
        }
    }
}

/// The rest of a dictionary from `pos`: key and value pairs up to the closing `e`, each set
/// in `acc` by `dict_put` (a repeated key keeps its last value).
pub open spec fn parse_dict_items(s: Seq<u8>, pos: int, acc: Seq<(Seq<u8>, Term)>) -> Result<
    (Seq<(Seq<u8>, Term)>, int),
    BencodeError,
>
    decreases s.len() - pos, 1int,
{
    if pos < 0 || pos >= s.len() {
        Err(BencodeError::UnexpectedEOI)
    } else if s[pos] == 101 {
        Ok((acc, pos + 1))
    } else if !is_digit(s[pos]) {
        Err(BencodeError::DictKeyNotString)
    } else {
        match parse_string(s, pos) {
            Err(x) => Err(x),
            Ok((k, e1)) => if pos < e1 <= s.len() {
                match parse_value(s, e1) {
                    Err(x) => Err(x),
                    Ok((t, e2)) => if e1 < e2 <= s.len() {
                        parse_dict_items(s, e2, dict_put(acc, k, t))
                    } else {
                        Err(BencodeError::UnexpectedEOI)
                    },
                }
            } else {
                Err(BencodeError::UnexpectedEOI)
            },
        }
    }
}

pub proof fn lemma_find_byte(s: Seq<u8>, pos: int, d: u8)
    ensures
        find_byte(s, pos, d) matches Some(k) ==> pos <= k < s.len() && s[k] == d && forall|
            j: int,
        |
            pos <= j < k ==> s[j] != d,
    decreases s.len() - pos,
{
    if 0 <= pos < s.len() && s[pos] != d {
        lemma_find_byte(s, pos + 1, d);
    }
}

pub proof fn lemma_parse_string_bounds(s: Seq<u8>, pos: int)
    ensures
        parse_string(s, pos) matches Ok((b, e)) ==> pos < e <= s.len() && b == s.subrange(
            e - b.len(),
            e,
        ) && b.len() <= usize::MAX,
{
    lemma_find_byte(s, pos, 58);
}

pub proof fn lemma_list_items_bounds(s: Seq<u8>, pos: int, acc: Seq<Term>)
    ensures
        parse_list_items(s, pos, acc) matches Ok((_, e)) ==> pos < e <= s.len(),
    decreases s.len() - pos,
{
    if 0 <= pos < s.len() && s[pos] != 101 {
        if let Ok((t, e)) = parse_value(s, pos) {
            if pos < e <= s.len() {
                lemma_list_items_bounds(s, e, acc.push(t));
            }
        }
    }
}

pub proof fn lemma_dict_items_bounds(s: Seq<u8>, pos: int, acc: Seq<(Seq<u8>, Term)>)
    ensures
        parse_dict_items(s, pos, acc) matches Ok((_, e)) ==> pos < e <= s.len(),
    decreases s.len() - pos,
{
    if 0 <= pos < s.len() && s[pos] != 101 && is_digit(s[pos]) {
        if let Ok((k, e1)) = parse_string(s, pos) {
            if pos < e1 <= s.len() {
                if let Ok((t, e2)) = parse_value(s, e1) {
                    if e1 < e2 <= s.len() {
                        lemma_dict_items_bounds(s, e2, dict_put(acc, k, t));
                    }
                }
            }
        }
    }
}

/// A decoded value is followed by a position past its first byte and within the input.
pub proof fn lemma_parse_value_bounds(s: Seq<u8>, pos: int)
    ensures
        parse_value(s, pos) matches Ok((_, e)) ==> pos < e <= s.len(),
{
    lemma_parse_string_bounds(s, pos);
    lemma_find_byte(s, pos + 1, 101);
    lemma_list_items_bounds(s, pos + 1, Seq::empty());
    lemma_dict_items_bounds(s, pos + 1, Seq::empty());
}

/// A longer digit string is worth at least as much as its prefix.
proof fn lemma_digits_value_prefix(t: Seq<u8>, i: int)
    requires
        0 <= i <= t.len(),
        all_digits(t),
    ensures
        digits_value(t.subrange(0, i)) <= digits_value(t),
    decreases t.len(),
{
    if i < t.len() {
        let u = t.drop_last();
        assert(all_digits(u));
        assert(u.subrange(0, i) =~= t.subrange(0, i));
        lemma_digits_value_prefix(u, i);
    } else {
        assert(t.subrange(0, i) =~= t);
    }
}

/// The value of a non-empty string of decimal digits that is at most `limit`, else `None`.
fn parse_digits(t: &[u8], limit: u64) -> (r: Option<u64>)
    requires
        limit >= 9,
    ensures
        r == (if t@.len() > 0 && all_digits(t@) && digits_value(t@) <= limit {
            Some(digits_value(t@) as u64)
        } else {
            None::<u64>
        }),
{
    if t.len() == 0 {
        return None;
    }
    let mut value: u64 = 0;
    let mut i: usize = 0;
    assert(t@.subrange(0, 0) =~= Seq::<u8>::empty());
    while i < t.len()
        invariant
            limit >= 9,
            i <= t.len(),
            all_digits(t@.subrange(0, i as int)),
            value == digits_value(t@.subrange(0, i as int)),
            value <= limit,
        decreases t.len() - i,
    {
        let b = t[i];
        if b < 48 || b > 57 {
            assert(!is_digit(t@[i as int]));
            return None;
        }
        let d: u64 = (b - 48) as u64;
        let ghost next = t@.subrange(0, i + 1);
        assert(next.drop_last() =~= t@.subrange(0, i as int));
        if value > (limit - d) / 10 {
            proof {
                assert(value * 10 + d > limit) by (nonlinear_arith)
                    requires
                        value > (limit - d) / 10,
                        d <= 9,
                        limit >= 9,
                ;
                if all_digits(t@) {
                    lemma_digits_value_prefix(t@, i + 1);
                }
            }
            return None;
        }
        proof {
            assert(value * 10 + d <= limit) by (nonlinear_arith)
                requires
                    value <= (limit - d) / 10,
                    d <= 9,
                    limit >= 9,
            ;
        }
        value = value * 10 + d;
        i = i + 1;
        assert(all_digits(t@.subrange(0, i as int)));
    }
    assert(t@.subrange(0, i as int) =~= t@);
    Some(value)
}

/// Reads bytes from `pos` up to the first `delimiter`; returns them, without the delimiter,
/// with the position just after it.
pub fn read_until(input: &[u8], pos: usize, delimiter: u8) -> (r: BencodeResult<(Vec<u8>, usize)>)
    ensures
        match find_byte(input@, pos as int, delimiter) {
            None => r == Err::<(Vec<u8>, usize), BencodeError>(BencodeError::UnexpectedEOI),
            Some(k) => r matches Ok((b, e)) && b@ == input@.subrange(pos as int, k) && e == k
                + 1,
        },
{
    if pos >= input.len() {
        return Err(BencodeError::UnexpectedEOI);
    }
    let mut buffer: Vec<u8> = Vec::new();
    let mut i: usize = pos;
    assert(buffer@ =~= input@.subrange(pos as int, i as int));
    while i < input.len()
        invariant
            pos <= i <= input.len(),
            find_byte(input@, pos as int, delimiter) == find_byte(input@, i as int, delimiter),
            buffer@ == input@.subrange(pos as int, i as int),
        decreases input.len() - i,
    {
        if input[i] == delimiter {
            return Ok((buffer, i + 1));
        }
        buffer.push(input[i]);
        i = i + 1;
        assert(buffer@ =~= input@.subrange(pos as int, i as int));
    }
    Err(BencodeError::UnexpectedEOI)
}

/// Copies `input[from..to]`.
pub(crate) fn copy_range(input: &[u8], from: usize, to: usize) -> (r: Vec<u8>)
    requires
        from <= to <= input.len(),
    ensures
        r@ == input@.subrange(from as int, to as int),
{
    let mut out: Vec<u8> = Vec::new();
    let mut i: usize = from;
    while i < to
        invariant
            from <= i <= to,
            to <= input.len(),
            out@ == input@.subrange(from as int, i as int),
        decreases to - i,
    {
        out.push(input[i]);
        i = i + 1;
        assert(out@ =~= input@.subrange(from as int, i as int));
    }
    out
}

/// Decodes a byte string `<length>:<bytes>` that starts at `pos`.
pub fn decode_string(input: &[u8], pos: usize) -> (r: BencodeResult<(Vec<u8>, usize)>)
    ensures
        match parse_string(input@, pos as int) {
            Ok((b, e)) => r matches Ok((v, e2)) && v@ == b && e2 == e,
            Err(x) => r == Err::<(Vec<u8>, usize), BencodeError>(x),
        },
{
    proof {
        lemma_find_byte(input@, pos as int, 58);
    }
    let (length_text, start) = match read_until(input, pos, 58u8) {
        Ok(found) => found,
        Err(e) => return Err(e),
    };
    let digits = if length_text.len() > 0 && length_text[0] == 43u8 {
        copy_range(length_text.as_slice(), 1, length_text.len())
    } else {
        length_text
    };
    let length = match parse_digits(digits.as_slice(), usize::MAX as u64) {
        Some(n) => n as usize,
        None => return Err(BencodeError::InvalidStringLength),
    };
    if length > input.len() - start {
        return Err(BencodeError::UnexpectedEOI);
    }
    let bytes = copy_range(input, start, start + length);
    Ok((bytes, start + length))
}

/// Decodes an integer `i<decimal>e` that starts at `pos`.
pub fn decode_integer(input: &[u8], pos: usize) -> (r: BencodeResult<(i64, usize)>)
    ensures
        match parse_int(input@, pos as int) {
            Ok((i, e)) => r == Ok::<(i64, usize), BencodeError>((i as i64, e as usize)),
            Err(x) => r == Err::<(i64, usize), BencodeError>(x),
        },
{
    if pos >= input.len() {
        return Err(BencodeError::UnexpectedEOI);
    }
    if input[pos] != 105u8 {
        return Err(BencodeError::UnexpectedByte(input[pos]));
    }
    proof {
        lemma_find_byte(input@, pos + 1, 101);
    }
    let (text, end) = match read_until(input, pos + 1, 101u8) {
        Ok(found) => found,
        Err(e) => return Err(e),
    };
    let ghost t = text@;
    let n = text.len();
    if n == 0 || (n > 1 && text[0] == 48u8) {
        return Err(BencodeError::InvalidInteger);
    }
    if text[0] == 45u8 {
        let magnitude = copy_range(text.as_slice(), 1, n);
        assert(magnitude@ =~= t.drop_first());
        if n == 2 && text[1] == 48u8 {
            assert(magnitude@ =~= seq![48u8]);
            return Err(BencodeError::InvalidInteger);
        }
        assert(magnitude@ != seq![48u8]) by {
            if magnitude@ == seq![48u8] {
                assert(magnitude@.len() == 1);
                assert(t[1] == magnitude@[0]);
            }
        }
        match parse_digits(magnitude.as_slice(), 0x8000_0000_0000_0000u64) {
            Some(m) => {
                let value: i64 = if m == 0x8000_0000_0000_0000u64 {
                    i64::MIN
                } else {
                    -(m as i64)
                };
                Ok((value, end))
            },
            None => Err(BencodeError::InvalidInteger),
        }
    } else if text[0] == 43u8 {
        let magnitude = copy_range(text.as_slice(), 1, n);
        assert(magnitude@ =~= t.drop_first());
        match parse_digits(magnitude.as_slice(), 0x7fff_ffff_ffff_ffffu64) {
            Some(m) => Ok((m as i64, end)),
            None => Err(BencodeError::InvalidInteger),
        }
    } else {
        match parse_digits(text.as_slice(), 0x7fff_ffff_ffff_ffffu64) {
            Some(m) => Ok((m as i64, end)),
            None => Err(BencodeError::InvalidInteger),
        }
    }
}

/// Decodes the list that starts at `pos`, which holds `l`.
fn decode_list(input: &[u8], pos: usize) -> (r: BencodeResult<(Vec<BencodeValue>, usize)>)
    requires
        pos < input.len(),
        input@[pos as int] == 108,
    ensures
        match parse_list_items(input@, pos + 1, Seq::empty()) {
            Ok((items, e)) => r matches Ok((v, e2)) && view_items(v@) == items && e2 == e,
            Err(x) => r matches Err(y) && y == x,
        },
    decreases input.len() - pos, 0int,
{
    let ghost s = input@;
    let mut list: Vec<BencodeValue> = Vec::new();
    let mut cur: usize = pos + 1;
    while cur < input.len()
        invariant
            s == input@,
            pos < cur <= input.len(),
            parse_list_items(s, pos + 1, Seq::empty()) == parse_list_items(
                s,
                cur as int,
                view_items(list@),
            ),
        decreases input.len() - cur,
    {
        if input[cur] == 101u8 {
            return Ok((list, cur + 1));
        }
        proof {
            lemma_parse_value_bounds(s, cur as int);
        }
        match decode_next(input, cur) {
            Ok((item, end)) => {
                let ghost before = list@;
                list.push(item);
                proof {
                    assert(list@.drop_last() =~= before);
                }
                cur = end;
            },
            Err(e) => return Err(e),
        }
    }
    Err(BencodeError::UnexpectedEOI)
}

/// Decodes the dictionary that starts at `pos`, which holds `d`.
fn decode_dict(input: &[u8], pos: usize) -> (r: BencodeResult<(Vec<(Vec<u8>, BencodeValue)>, usize)>)
    requires
        pos < input.len(),
        input@[pos as int] == 100,
    ensures
        match parse_dict_items(input@, pos + 1, Seq::empty()) {
            Ok((entries, e)) => r matches Ok((v, e2)) && view_entries(v@) == entries && e2 == e,
            Err(x) => r matches Err(y) && y == x,
        },
    decreases input.len() - pos, 0int,
{
    let ghost s = input@;
    let mut dict: Vec<(Vec<u8>, BencodeValue)> = Vec::new();
    let mut cur: usize = pos + 1;
    while cur < input.len()
        invariant
            s == input@,
            pos < cur <= input.len(),
            parse_dict_items(s, pos + 1, Seq::empty()) == parse_dict_items(
                s,
                cur as int,
                view_entries(dict@),
            ),
        decreases input.len() - cur,
    {
        let b = input[cur];
        if b == 101u8 {
            return Ok((dict, cur + 1));
        }
        if b < 48u8 || b > 57u8 {
            return Err(BencodeError::DictKeyNotString);
        }
        proof {
            lemma_parse_string_bounds(s, cur as int);
        }
        let (key, after_key) = match decode_string(input, cur) {
            Ok(found) => found,
            Err(e) => return Err(e),
        };
        proof {
            lemma_parse_value_bounds(s, after_key as int);
        }
        let (value, end) = match decode_next(input, after_key) {
            Ok(found) => found,
            Err(e) => return Err(e),
        };
        dict_insert(&mut dict, key, value);
        cur = end;
    }
    Err(BencodeError::UnexpectedEOI)
}

/// Decodes the value that starts at `pos`, chosen by its first byte, and returns it with the
/// position just after it.
pub fn decode_next(input: &[u8], pos: usize) -> (r: BencodeResult<(BencodeValue, usize)>)
    ensures
        match parse_value(input@, pos as int) {
            Ok((t, e)) => r matches Ok((v, e2)) && v.view() == t && e2 == e,
            Err(x) => r matches Err(y) && y == x,
        },
    decreases input.len() - pos, 1int,
{
    if pos >= input.len() {
        return Err(BencodeError::UnexpectedEOI);
    }
    proof {
        lemma_parse_value_bounds(input@, pos as int);
    }
    let b = input[pos];
    if 48u8 <= b && b <= 57u8 {
        match decode_string(input, pos) {
            Ok((bytes, end)) => Ok((BencodeValue::String(bytes), end)),
            Err(e) => Err(e),
        }
    } else if b == 105u8 {
        match decode_integer(input, pos) {
            Ok((i, end)) => {
                proof {
                    let t = parse_int(input@, pos as int)->Ok_0.0;
                    assert(i64::MIN <= t <= i64::MAX);
                }
                Ok((BencodeValue::Integer(i), end))
            },
            Err(e) => Err(e),
        }
    } else if b == 108u8 {
        match decode_list(input, pos) {
            Ok((items, end)) => Ok((BencodeValue::List(items), end)),
            Err(e) => Err(e),
        }
    } else if b == 100u8 {
        match decode_dict(input, pos) {
            Ok((entries, end)) => Ok((BencodeValue::Dict(entries), end)),
            Err(e) => Err(e),
        }
    } else {
        Err(BencodeError::UnexpectedByte(b))
    }
}

/// Decodes the value at the start of `input`; bytes after it are not read.
pub fn decode(input: &[u8]) -> (r: BencodeResult<BencodeValue>)
    ensures
        match parse_value(input@, 0) {
            Ok((t, _)) => r matches Ok(v) && v.view() == t,
            Err(x) => r matches Err(y) && y == x,
        },
{
    match decode_next(input, 0) {
        Ok((value, _)) => Ok(value),
        Err(e) => Err(e),
    }
}

} // verus!
