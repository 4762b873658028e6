//! The bencode decoder: a recursive-descent parser that reads one value off the
//! front of its input and hands back what is left.

use crate::bencode::{
    bytes_encoding, bytes_lt, decimal, dict_insert, encoding, entries_encoding,
    lemma_dictionary_wf, lemma_insert_sorted, lemma_list_wf, lemma_lower_bound,
    lemma_lower_bound_is, list_encoding, lower_bound, signed_decimal, values_view, Bencode,
    BencodeValue, Dictionary,
};
use vstd::prelude::*;
use vstd::slice::{slice_subrange, slice_to_vec};

verus! {

/// The input is not the encoded form of a value.
#[derive(Clone, Copy, Debug, PartialEq, Eq, Structural)]
pub struct MalformedEncoding;

/// An ASCII decimal digit.
pub open spec fn is_digit(b: u8) -> bool {
    48 <= b <= 57
}

/// Index of the first `b` in `s` at or after `from`, or the length of `s` where
/// there is none.
pub open spec fn find_byte(s: Seq<u8>, b: u8, from: nat) -> nat
    decreases s.len() - from,
{
    if from >= s.len() {
        s.len()
    } else if s[from as int] == b {
        from
    } else {
        find_byte(s, b, from + 1)
    }
}

/// The number that a run of decimal digits stands for; nothing for the empty run
/// and for a run that holds anything but digits. Leading zeros are read over.
pub open spec fn digits_value(s: Seq<u8>) -> Option<nat>
    decreases s.len(),
{
    if s.len() == 0 || !is_digit(s.last()) {
        None
    } else if s.len() == 1 {
        Some((s.last() - 48) as nat)
    } else {
        match digits_value(s.drop_last()) {
            Some(v) => Some((v * 10 + (s.last() - 48)) as nat),
            None => None,
        }
    }
}

/// The integer that the text between `i` and `e` stands for: an optional sign,
/// then digits, within the range of a signed 64-bit integer.
pub open spec fn integer_value(s: Seq<u8>) -> Option<i64> {
    let negative = s.len() > 0 && s[0] == 45;
    let signed = s.len() > 0 && (s[0] == 45 || s[0] == 43);
    let digits = if signed {
        s.skip(1)
    } else {
        s
    };
    match digits_value(digits) {
        None => None,
        Some(n) => {
            let v = if negative {
                -(n as int)
            } else {
                n as int
            };
            if i64::MIN <= v <= i64::MAX {
                Some(v as i64)
            } else {
                None
            }
        },
    }
}

/// The value at the front of `s` and the number of bytes it takes up, or nothing
/// where `s` does not start with the encoded form of a value: an integer without its
/// closing `e` or with text that is no number, a byte string without its colon or
/// with a length beyond the input, a list or dictionary that is not closed, a
/// dictionary key that is not a byte string, or any other first byte.
pub open spec fn parse(s: Seq<u8>) -> Option<(Bencode, nat)>
    decreases s.len(), 0nat,
{
    if s.len() == 0 {
        None
    } else if s[0] == 105 {
        let end = find_byte(s, 101, 1);
        if end >= s.len() {
            None
        } else {
            match integer_value(s.subrange(1, end as int)) {
                Some(i) => Some((Bencode::Integer(i), end + 1)),
                None => None,
            }
        }
    } else if s[0] == 108 {
        match parse_items(s.skip(1)) {
            Some((items, n)) => Some((Bencode::List(items), n + 1)),
            None => None,
        }
    } else if s[0] == 100 {
        match parse_entries(s.skip(1), Seq::empty()) {
            Some((entries, n)) => Some((Bencode::Dictionary(entries), n + 1)),
            None => None,
        }
    } else if is_digit(s[0]) {
        let colon = find_byte(s, 58, 0);
        if colon >= s.len() {
            None
        } else {
            match digits_value(s.subrange(0, colon as int)) {
                Some(len) => if colon + 1 + len <= s.len() {
                    Some(
                        (
                            Bencode::ByteString(
                                s.subrange(colon as int + 1, colon as int + 1 + len as int),
                            ),
                            colon + 1 + len,
                        ),
                    )
                } else {
                    None
                },
                None => None,
            }
        }
    } else {
        None
    }
}

/// The items of a list up to and with its closing `e`, and the number of bytes
/// they take up.
pub open spec fn parse_items(s: Seq<u8>) -> Option<(Seq<Bencode>, nat)>
    decreases s.len(), 1nat,
{
    if s.len() == 0 {
        None
    } else if s[0] == 101 {
        Some((Seq::empty(), 1))
    } else {
        match parse(s) {
            Some((v, n)) => if 0 < n <= s.len() {
                match parse_items(s.skip(n as int)) {
                    Some((rest, m)) => Some((seq![v] + rest, n + m)),
                    None => None,
                }
            } else {
                None
            },
            None => None,
        }
    }
}

/// The entries of a dictionary up to and with its closing `e`, put one by one into
/// `acc`, and the number of bytes they take up. A key that comes again replaces the
/// value it had.
pub open spec fn parse_entries(s: Seq<u8>, acc: Seq<(Seq<u8>, Bencode)>) -> Option<
    (Seq<(Seq<u8>, Bencode)>, nat),
>
    decreases s.len(), 1nat,
{
    if s.len() == 0 {
        None
    } else if s[0] == 101 {
        Some((acc, 1))
    } else {
        match parse(s) {
            Some((Bencode::ByteString(key), n)) => if 0 < n <= s.len() {
                match parse(s.skip(n as int)) {
                    Some((value, m)) => if n + m <= s.len() {
                        match parse_entries(
                            s.skip(n as int + m as int),
                            dict_insert(acc, key, value),
                        ) {
                            Some((entries, r)) => Some((entries, n + m + r)),
                            None => None,
                        }
                    } else {
                        None
                    },
                    None => None,
                }
            } else {
                None
            },
            _ => None,
        }
    }
}

/// The value that `s` starts with, whatever follows it.
pub open spec fn decoded(s: Seq<u8>) -> Option<Bencode> {
    match parse(s) {
        Some((v, _)) => Some(v),
        None => None,
    }
}

/// The entries are sorted by key and every value among them is well formed.
pub open spec fn entries_wf(entries: Seq<(Seq<u8>, Bencode)>) -> bool {
    Bencode::Dictionary(entries).wf()
}

/// A parsed value takes up at least one byte and no more than there are, and is
/// well formed.
pub proof fn lemma_parse_consumes(s: Seq<u8>)
    ensures
        parse(s) matches Some((v, n)) ==> 0 < n <= s.len() && v.wf(),
    decreases s.len(), 0nat,
{
    if s.len() > 0 {
        if s[0] == 108 {
            lemma_parse_items_consumes(s.skip(1));
        } else if s[0] == 100 {
            lemma_parse_entries_consumes(s.skip(1), Seq::empty());
        }
    }
}

pub proof fn lemma_parse_items_consumes(s: Seq<u8>)
    ensures
        parse_items(s) matches Some((items, n)) ==> 0 < n <= s.len() && Bencode::List(items).wf(),
    decreases s.len(), 1nat,
{
    if s.len() > 0 && s[0] != 101 {
        lemma_parse_consumes(s);
        if let Some((v, n)) = parse(s) {
            if 0 < n <= s.len() {
                lemma_parse_items_consumes(s.skip(n as int));
                if let Some((rest, m)) = parse_items(s.skip(n as int)) {
                    let items = seq![v] + rest;
                    lemma_list_wf(rest);
                    lemma_list_wf(items);
                    assert forall|i: int| 0 <= i < items.len() implies (#[trigger] items[i]).wf() by {
                        if i > 0 {
                            assert(items[i] == rest[i - 1]);
                        }
                    }
                }
            }
        }
    }
}

pub proof fn lemma_parse_entries_consumes(s: Seq<u8>, acc: Seq<(Seq<u8>, Bencode)>)
    requires
        entries_wf(acc),
    ensures
        parse_entries(s, acc) matches Some((entries, n)) ==> 0 < n <= s.len() && entries_wf(
            entries,
        ),
    decreases s.len(), 1nat,
{
    if s.len() > 0 && s[0] != 101 {
        lemma_parse_consumes(s);
        if let Some((Bencode::ByteString(key), n)) = parse(s) {
            if 0 < n <= s.len() {
                lemma_parse_consumes(s.skip(n as int));
                if let Some((value, m)) = parse(s.skip(n as int)) {
                    if n + m <= s.len() {
                        lemma_insert_wf(acc, key, value);
                        lemma_parse_entries_consumes(
                            s.skip(n as int + m as int),
                            dict_insert(acc, key, value),
                        );
                    }
                }
            }
        }
    }
}

/// Inserting a well-formed value keeps a dictionary well formed.
pub proof fn lemma_insert_wf(acc: Seq<(Seq<u8>, Bencode)>, key: Seq<u8>, value: Bencode)
    requires
        entries_wf(acc),
        value.wf(),
    ensures
        entries_wf(dict_insert(acc, key, value)),
{
    lemma_insert_sorted(acc, key, value);
    let r = dict_insert(acc, key, value);
    lemma_dictionary_wf(acc);
    lemma_dictionary_wf(r);
    let p = lower_bound(acc, key) as int;
    lemma_lower_bound(acc, key);
    assert forall|i: int| 0 <= i < r.len() implies (#[trigger] r[i]).1.wf() by {
        if i < p {
            assert(r[i] == acc[i]);
        } else if i > p {
            if r.len() == acc.len() {
                assert(r[i] == acc[i]);
            } else {
                assert(r[i] == acc[i - 1]);
            }
        }
    }
}

/// A run of digits that stands for a number has digits only in every part of its
/// front, and those stand for no larger a number.
proof fn lemma_digits_prefix(s: Seq<u8>, i: int)
    requires
        0 < i <= s.len(),
    ensures
        digits_value(s) matches Some(v) ==> digits_value(s.take(i)) matches Some(p) && p <= v,
    decreases s.len(),
{
    if i == s.len() {
        assert(s.take(i) =~= s);
    } else {
        assert(s.drop_last().take(i) =~= s.take(i));
        lemma_digits_prefix(s.drop_last(), i);
    }
}

/// Index of the first `b` in `s`, or the length of `s` where there is none.
fn find(s: &[u8], b: u8, from: usize) -> (i: usize)
    requires
        from <= s.len(),
    ensures
        i == find_byte(s@, b, from as nat),
        from <= i <= s.len(),
{
    let mut i: usize = from;
    while i < s.len() && s[i] != b
        invariant
            from <= i <= s.len(),
            find_byte(s@, b, from as nat) == find_byte(s@, b, i as nat),
        decreases s.len() - i,
    {
        i = i + 1;
    }
    i
}

/// The number that the digits `s` stand for, if it is at most `limit`.
fn digits_to_number(s: &[u8], limit: u64) -> (r: Option<u64>)
    ensures
        match digits_value(s@) {
            Some(v) => if v <= limit {
                r == Some(v as u64)
            } else {
                r is None
            },
            None => r is None,
        },
{
    if s.len() == 0 {
        return None;
    }
    let mut acc: u64 = 0;
    let mut i: usize = 0;
    while i < s.len()
        invariant
            i <= s.len(),
            acc <= limit,
            i == 0 ==> acc == 0,
            i > 0 ==> digits_value(s@.take(i as int)) == Some(acc as nat),
        decreases s.len() - i,
    {
        let b: u8 = s[i];
        proof {
            lemma_digits_prefix(s@, i + 1);
            assert(s@.take(i + 1).drop_last() =~= s@.take(i as int));
        }
        if b < 48 || b > 57 {
            return None;
        }
        let next: u128 = acc as u128 * 10 + (b - 48) as u128;
        if next > limit as u128 {
            return None;
        }
        acc = next as u64;
        i = i + 1;
    }
    assert(s@.take(s.len() as int) =~= s@);
    Some(acc)
}

/// The integer that the text `s` stands for.
fn text_to_integer(s: &[u8]) -> (r: Option<i64>)
    ensures
        r == integer_value(s@),
{
    if s.len() == 0 {
        return None;
    }
    let negative: bool = s[0] == 45;
    let signed: bool = negative || s[0] == 43;
    let digits: &[u8] = if signed {
        slice_subrange(s, 1, s.len())
    } else {
        s
    };
    assert(digits@ =~= if signed {
        s@.skip(1)
    } else {
        s@
    });
    let limit: u64 = if negative {
        9223372036854775808
    } else {
        9223372036854775807
    };
    match digits_to_number(digits, limit) {
        None => None,
        Some(m) => if negative {
            if m == 9223372036854775808 {
                Some(i64::MIN)
            } else {
                Some(-(m as i64))
            }
        } else {
            Some(m as i64)
        },
    }
}

/// Reads the items of a list, up to and with the `e` that closes it.
fn parse_list(s: &[u8]) -> (r: Result<(Vec<BencodeValue>, usize), MalformedEncoding>)
    ensures
        match parse_items(s@) {
            Some((items, n)) => r matches Ok((values, used)) && values_view(values@) == items
                && used == n && 0 < n <= s.len(),
            None => r is Err,
        },
    decreases s.len(), 1nat,
{
    let mut items: Vec<BencodeValue> = Vec::new();
    let mut cur: usize = 0;
    assert(s@.skip(0) =~= s@);
    assert forall|rest: Seq<Bencode>| values_view(items@) + rest == rest by {
        assert(values_view(items@) + rest =~= rest);
    }
    loop
        invariant
            cur <= s.len(),
            parse_items(s@) == match parse_items(s@.skip(cur as int)) {
                Some((rest, m)) => Some((values_view(items@) + rest, (cur + m) as nat)),
                None => None,
            },
        decreases s.len() - cur,
    {
        if cur >= s.len() {
            return Err(MalformedEncoding);
        }
        if s[cur] == 101 {
            assert(values_view(items@) + Seq::<Bencode>::empty() =~= values_view(items@));
            return Ok((items, cur + 1));
        }
        let sub: &[u8] = slice_subrange(s, cur, s.len());
        assert(sub@ =~= s@.skip(cur as int));
        match parse_slice(sub) {
            Ok((value, used)) => {
                proof {
                    assert(s@.skip(cur as int).skip(used as int) =~= s@.skip(cur + used));
                    let before = values_view(items@);
                    assert(values_view(items@.push(value)) =~= before.push(value@));
                    assert forall|rest: Seq<Bencode>|
                        before.push(value@) + rest == before + (seq![value@] + rest) by {
                        assert(before.push(value@) + rest =~= before + (seq![value@] + rest));
                    }
                }
                items.push(value);
                cur = cur + used;
            },
            Err(e) => {
                return Err(e);
            },
        }
    }
}

/// Reads the entries of a dictionary, up to and with the `e` that closes it.
fn parse_dictionary(s: &[u8]) -> (r: Result<(Dictionary, usize), MalformedEncoding>)
    ensures
        match parse_entries(s@, Seq::empty()) {
            Some((entries, n)) => r matches Ok((dict, used)) && dict@ == entries && used == n && 0
                < n <= s.len(),
            None => r is Err,
        },
    decreases s.len(), 1nat,
{
    let mut dict: Dictionary = Dictionary::new();
    let mut cur: usize = 0;
    assert(s@.skip(0) =~= s@);
    loop
        invariant
            cur <= s.len(),
            parse_entries(s@, Seq::empty()) == match parse_entries(s@.skip(cur as int), dict@) {
                Some((entries, r)) => Some((entries, (cur + r) as nat)),
                None => None,
            },
        decreases s.len() - cur,
    {
        if cur >= s.len() {
            return Err(MalformedEncoding);
        }
        if s[cur] == 101 {
            return Ok((dict, cur + 1));
        }
        let sub: &[u8] = slice_subrange(s, cur, s.len());
        assert(sub@ =~= s@.skip(cur as int));
        match parse_slice(sub) {
            Ok((BencodeValue::ByteString(key), n)) => {
                let after_key: &[u8] = slice_subrange(s, cur + n, s.len());
                assert(after_key@ =~= s@.skip(cur as int).skip(n as int));
                match parse_slice(after_key) {
                    Ok((value, m)) => {
                        assert(s@.skip(cur as int).skip(n as int + m as int) =~= s@.skip(
                            cur + n + m,
                        ));
                        dict.insert(key, value);
                        cur = cur + n + m;
                    },
                    Err(e) => {
                        return Err(e);
                    },
                }
            },
            _ => {
                return Err(MalformedEncoding);
            },
        }
    }
}

/// Reads the value at the front of `s`.
fn parse_slice(s: &[u8]) -> (r: Result<(BencodeValue, usize), MalformedEncoding>)
    ensures
        match parse(s@) {
            Some((v, n)) => r matches Ok((value, used)) && value@ == v && used == n && 0 < n
                <= s.len() && v.wf(),
            None => r is Err,
        },
    decreases s.len(), 0nat,
{
    proof {
        lemma_parse_consumes(s@);
    }
    if s.len() == 0 {
        return Err(MalformedEncoding);
    }
    let first: u8 = s[0];
    if first == 105 {
        let end: usize = find(s, 101, 1);
        if end >= s.len() {
            return Err(MalformedEncoding);
        }
        match text_to_integer(slice_subrange(s, 1, end)) {
            Some(i) => Ok((BencodeValue::Integer(i), end + 1)),
            None => Err(MalformedEncoding),
        }
    } else if first == 108 {
        let body: &[u8] = slice_subrange(s, 1, s.len());
        assert(body@ =~= s@.skip(1));
        match parse_list(body) {
            Ok((items, used)) => Ok((BencodeValue::List(items), used + 1)),
            Err(e) => Err(e),
        }
    } else if first == 100 {
        let body: &[u8] = slice_subrange(s, 1, s.len());
        assert(body@ =~= s@.skip(1));
        match parse_dictionary(body) {
            Ok((dict, used)) => Ok((BencodeValue::Dictionary(dict), used + 1)),
            Err(e) => Err(e),
        }
    } else if first >= 48 && first <= 57 {
        let colon: usize = find(s, 58, 0);
        if colon >= s.len() {
            return Err(MalformedEncoding);
        }
        let limit: u64 = (s.len() - colon - 1) as u64;
        match digits_to_number(slice_subrange(s, 0, colon), limit) {
            Some(len) => {
                let start: usize = colon + 1;
                let end: usize = start + len as usize;
                let bytes: Vec<u8> = slice_to_vec(slice_subrange(s, start, end));
                Ok((BencodeValue::ByteString(bytes), end))
            },
            None => Err(MalformedEncoding),
        }
    } else {
        Err(MalformedEncoding)
    }
}

/// Reads one value off the front of `input` and hands it back with the rest of the
/// input. Fails exactly where `input` does not start with the encoded form of a value.
pub fn parse_value<'a>(input: &'a [u8]) -> (r: Result<(BencodeValue, &'a [u8]), MalformedEncoding>)
    ensures
        match parse(input@) {
            Some((v, n)) => r matches Ok((value, rest)) && value@ == v && rest@ == input@.skip(
                n as int,
            ) && v.wf(),
            None => r is Err,
        },
{
    match parse_slice(input) {
        Ok((value, used)) => {
            let rest: &[u8] = slice_subrange(input, used, input.len());
            assert(rest@ =~= input@.skip(used as int));
            Ok((value, rest))
        },
        Err(e) => Err(e),
    }
}

/// Decodes the value that `encoded` starts with; what follows the value is not
/// looked at.
pub fn decode_bencoded_value(encoded: &[u8]) -> (r: Result<BencodeValue, MalformedEncoding>)
    ensures
        match decoded(encoded@) {
            Some(v) => r matches Ok(value) && value@ == v && v.wf(),
            None => r is Err,
        },
{
    match parse_slice(encoded) {
        Ok((value, _)) => Ok(value),
        Err(e) => Err(e),
    }
}

/// The decimal form of a number is one or more digits that stand for the number.
pub proof fn lemma_decimal_value(n: nat)
    ensures
        decimal(n).len() >= 1,
        forall|i: int| 0 <= i < decimal(n).len() ==> is_digit(#[trigger] decimal(n)[i]),
        digits_value(decimal(n)) == Some(n),
    decreases n,
{
    if n >= 10 {
        lemma_decimal_value(n / 10);
        let front = decimal(n / 10);
        let all = decimal(n);
        assert(all.drop_last() =~= front);
        assert forall|i: int| 0 <= i < all.len() implies is_digit(#[trigger] all[i]) by {
            if i < front.len() {
                assert(all[i] == front[i]);
            }
        }
    }
}

/// The decimal form of a signed 64-bit integer holds no `e` and stands for the
/// integer.
pub proof fn lemma_signed_decimal_value(i: i64)
    ensures
        signed_decimal(i as int).len() >= 1,
        forall|j: int|
            0 <= j < signed_decimal(i as int).len() ==> #[trigger] signed_decimal(i as int)[j]
                != 101,
        integer_value(signed_decimal(i as int)) == Some(i),
{
    let text = signed_decimal(i as int);
    if i < 0 {
        let digits = decimal((-i) as nat);
        lemma_decimal_value((-i) as nat);
        assert(text.skip(1) =~= digits);
        assert forall|j: int| 0 <= j < text.len() implies #[trigger] text[j] != 101 by {
            if j > 0 {
                assert(text[j] == digits[j - 1]);
            }
        }
    } else {
        lemma_decimal_value(i as nat);
        assert(is_digit(text[0]));
    }
}

/// Where no `b` stands between `from` and `k`, and one stands at `k`, the first
/// from `from` on is the one at `k`.
pub proof fn lemma_find_byte_at(s: Seq<u8>, b: u8, from: nat, k: nat)
    requires
        from <= k < s.len(),
        s[k as int] == b,
        forall|j: int| from <= j < k ==> s[j] != b,
    ensures
        find_byte(s, b, from) == k,
    decreases k - from,
{
    if from < k {
        lemma_find_byte_at(s, b, from + 1, k);
    }
}

/// An encoded value is not empty, and its first byte tells its kind; it is never
/// the `e` that closes a list or a dictionary.
pub proof fn lemma_encoding_first_byte(v: Bencode)
    ensures
        encoding(v).len() > 0,
        encoding(v)[0] != 101,
        v is Integer ==> encoding(v)[0] == 105,
        v is List ==> encoding(v)[0] == 108,
        v is Dictionary ==> encoding(v)[0] == 100,
        v is ByteString ==> is_digit(encoding(v)[0]),
{
    if let Bencode::ByteString(b) = v {
        lemma_decimal_value(b.len());
        assert(encoding(v)[0] == decimal(b.len())[0]);
    }
}

/// Reading an encoded byte string gives the byte string back, whatever follows it.
pub proof fn lemma_parse_byte_string(b: Seq<u8>, tail: Seq<u8>)
    ensures
        parse(bytes_encoding(b) + tail) == Some(
            (Bencode::ByteString(b), bytes_encoding(b).len()),
        ),
{
    let digits = decimal(b.len());
    let s = bytes_encoding(b) + tail;
    lemma_decimal_value(b.len());
    assert(s[0] == digits[0]);
    assert forall|j: int| 0 <= j < digits.len() implies s[j] != 58 by {
        assert(s[j] == digits[j]);
    }
    assert(s[digits.len() as int] == 58);
    lemma_find_byte_at(s, 58, 0, digits.len());
    assert(s.subrange(0, digits.len() as int) =~= digits);
    assert(s.subrange(digits.len() as int + 1, digits.len() as int + 1 + b.len() as int) =~= b);
}

/// Reading an encoded value gives the value back, whatever follows it.
pub proof fn lemma_parse_encoding(v: Bencode, tail: Seq<u8>)
    requires
        v.wf(),
    ensures
        parse(encoding(v) + tail) == Some((v, encoding(v).len())),
    decreases v, 0nat,
{
    let s = encoding(v) + tail;
    match v {
        Bencode::Integer(i) => {
            let text = signed_decimal(i as int);
            lemma_signed_decimal_value(i);
            assert(s[0] == 105);
            assert forall|j: int| 1 <= j < 1 + text.len() implies s[j] != 101 by {
                assert(s[j] == text[j - 1]);
            }
            assert(s[1 + text.len() as int] == 101);
            lemma_find_byte_at(s, 101, 1, 1 + text.len());
            assert(s.subrange(1, 1 + text.len() as int) =~= text);
        },
        Bencode::ByteString(b) => {
            lemma_parse_byte_string(b, tail);
        },
        Bencode::List(items) => {
            assert(v->List_0 == items);
            assert(s[0] == 108);
            assert(s.skip(1) =~= list_encoding(items, 0) + seq![101u8] + tail);
            lemma_parse_items_encoding(items, 0, tail);
            assert(items.skip(0) =~= items);
        },
        Bencode::Dictionary(entries) => {
            assert(v->Dictionary_0 == entries);
            assert(s[0] == 100);
            assert(s.skip(1) =~= entries_encoding(entries, 0) + seq![101u8] + tail);
            assert(entries.take(0) =~= Seq::empty());
            lemma_parse_entries_encoding(entries, 0, tail);
        },
    }
}

/// Reading the encoded items of a list from item `from` on, and the `e` that closes
/// the list, gives those items back.
pub proof fn lemma_parse_items_encoding(items: Seq<Bencode>, from: nat, tail: Seq<u8>)
    requires
        Bencode::List(items).wf(),
        from <= items.len(),
    ensures
        parse_items(list_encoding(items, from) + seq![101u8] + tail) == Some(
            (items.skip(from as int), list_encoding(items, from).len() + 1),
        ),
    decreases items, items.len() - from,
{
    let s = list_encoding(items, from) + seq![101u8] + tail;
    if from >= items.len() {
        assert(s[0] == 101);
        assert(items.skip(from as int) =~= Seq::empty());
    } else {
        let x = items[from as int];
        let ex = encoding(x);
        let after = list_encoding(items, from + 1) + seq![101u8] + tail;
        lemma_list_wf(items);
        lemma_encoding_first_byte(x);
        assert(s =~= ex + after);
        assert(s[0] == ex[0]);
        lemma_parse_encoding(x, after);
        assert(s.skip(ex.len() as int) =~= after);
        lemma_parse_items_encoding(items, from + 1, tail);
        assert(seq![x] + items.skip(from as int + 1) =~= items.skip(from as int));
    }
}

/// Reading the encoded entries of a dictionary from entry `from` on, and the `e`
/// that closes the dictionary, into the entries before them gives the dictionary
/// back.
pub proof fn lemma_parse_entries_encoding(
    entries: Seq<(Seq<u8>, Bencode)>,
    from: nat,
    tail: Seq<u8>,
)
    requires
        Bencode::Dictionary(entries).wf(),
        from <= entries.len(),
    ensures
        parse_entries(
            entries_encoding(entries, from) + seq![101u8] + tail,
            entries.take(from as int),
        ) == Some((entries, entries_encoding(entries, from).len() + 1)),
    decreases entries, entries.len() - from,
{
    let s = entries_encoding(entries, from) + seq![101u8] + tail;
    let acc = entries.take(from as int);
    if from >= entries.len() {
        assert(s[0] == 101);
        assert(acc =~= entries);
    } else {
        let key = entries[from as int].0;
        let x = entries[from as int].1;
        let ek = bytes_encoding(key);
        let ex = encoding(x);
        let after = entries_encoding(entries, from + 1) + seq![101u8] + tail;
        lemma_dictionary_wf(entries);
        lemma_encoding_first_byte(Bencode::ByteString(key));
        assert(s =~= ek + (ex + after));
        assert(s[0] == ek[0]);
        lemma_parse_byte_string(key, ex + after);
        assert(s.skip(ek.len() as int) =~= ex + after);
        lemma_parse_encoding(x, after);
        assert(s.skip(ek.len() as int + ex.len() as int) =~= after);
        // the key comes after every key before it, so it goes in at the end
        assert forall|i: int| 0 <= i < from implies bytes_lt(
            (#[trigger] acc[i]).0,
            key,
        ) by {
            assert(acc[i] == entries[i]);
            assert(bytes_lt(entries[i].0, entries[from as int].0));
        }
        lemma_lower_bound_is(acc, key, from as int);
        assert(dict_insert(acc, key, x) =~= entries.take(from as int + 1));
        lemma_parse_entries_encoding(entries, from + 1, tail);
    }
}

/// Round trip: decoding the encoded form of a value gives the value back, for every
/// value whose dictionaries are in key order, which is every value that can be
/// built.
pub proof fn lemma_decode_encode(v: Bencode)
    requires
        v.wf(),
    ensures
        parse(encoding(v)) == Some((v, encoding(v).len())),
        decoded(encoding(v)) == Some(v),
{
    lemma_parse_encoding(v, Seq::empty());
    assert(encoding(v) + Seq::<u8>::empty() =~= encoding(v));
}

} // verus!
