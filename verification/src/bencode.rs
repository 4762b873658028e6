//! The bencode value tree, its mathematical model, and the canonical encoder.
//!
//! Bencode has four kinds of value: integers `i<decimal>e`, byte strings
//! `<length>:<bytes>`, lists `l<items>e` and dictionaries `d<key value ...>e`. The
//! encoded form of a value is hashed by its users, so it has to be the same bytes
//! for the same value every time: integers are written in minimal decimal, and a
//! dictionary's entries in ascending byte order of their keys.

use vstd::prelude::*;

verus! {

/// The mathematical value that a bencoded byte string stands for.
///
/// A dictionary is the sequence of its entries in ascending key order, so two
/// dictionaries that hold the same entries are the same value.
pub enum Bencode {
    Integer(i64),
    ByteString(Seq<u8>),
    List(Seq<Bencode>),
    Dictionary(Seq<(Seq<u8>, Bencode)>),
}

/// A bencode value.
#[derive(Debug, PartialEq, Eq)]
pub enum BencodeValue {
    Integer(i64),
    ByteString(Vec<u8>),
    List(Vec<BencodeValue>),
    Dictionary(Dictionary),
}

/// A bencode dictionary: byte-string keys, each at most once, in ascending order.
#[derive(Debug, PartialEq, Eq)]
pub struct Dictionary {
    entries: Vec<(Vec<u8>, BencodeValue)>,
}

/// The model of a value.
pub open spec fn value_view(v: BencodeValue) -> Bencode
    decreases v,
{
    match v {
        BencodeValue::Integer(i) => Bencode::Integer(i),
        BencodeValue::ByteString(b) => Bencode::ByteString(b@),
        BencodeValue::List(items) => Bencode::List(values_view(items@)),
        BencodeValue::Dictionary(d) => Bencode::Dictionary(d.view()),
    }
}

/// The models of a sequence of values, in order.
pub open spec fn values_view(items: Seq<BencodeValue>) -> Seq<Bencode>
    decreases items,
{
    Seq::new(
        items.len(),
        |i: int|
            if 0 <= i < items.len() {
                value_view(items[i])
            } else {
                Bencode::Integer(0)
            },
    )
}

impl View for BencodeValue {
    type V = Bencode;

    open spec fn view(&self) -> Bencode {
        value_view(*self)
    }
}

impl View for Dictionary {
    type V = Seq<(Seq<u8>, Bencode)>;

    closed spec fn view(&self) -> Seq<(Seq<u8>, Bencode)>
        decreases self,
    {
        entries_view(self.entries@)
    }
}

/// The models of a sequence of entries, in order.
pub open spec fn entries_view(entries: Seq<(Vec<u8>, BencodeValue)>) -> Seq<(Seq<u8>, Bencode)>
    decreases entries,
{
    Seq::new(
        entries.len(),
        |i: int|
            if 0 <= i < entries.len() {
                (entries[i].0@, value_view(entries[i].1))
            } else {
                (Seq::<u8>::empty(), Bencode::Integer(0))
            },
    )
}

/// Byte order on keys: the first byte that differs decides, and a proper prefix
/// comes before its extensions.
pub open spec fn bytes_lt(a: Seq<u8>, b: Seq<u8>) -> bool
    decreases a.len(),
{
    if b.len() == 0 {
        false
    } else if a.len() == 0 {
        true
    } else if a[0] != b[0] {
        a[0] < b[0]
    } else {
        bytes_lt(a.drop_first(), b.drop_first())
    }
}

/// The keys of `entries` ascend strictly, so no key occurs twice.
pub open spec fn entries_sorted(entries: Seq<(Seq<u8>, Bencode)>) -> bool {
    forall|i: int, j: int|
        #![trigger entries[i], entries[j]]
        0 <= i < j < entries.len() ==> bytes_lt(entries[i].0, entries[j].0)
}

/// Number of entries at the front of `entries` whose keys come before `key`. In a
/// sorted dictionary this is the place of `key` in the order.
pub open spec fn lower_bound(entries: Seq<(Seq<u8>, Bencode)>, key: Seq<u8>) -> nat
    decreases entries.len(),
{
    if entries.len() == 0 || !bytes_lt(entries[0].0, key) {
        0
    } else {
        1 + lower_bound(entries.drop_first(), key)
    }
}

/// The value under `key`, if `entries` holds one at the key's place in the order.
pub open spec fn dict_get(entries: Seq<(Seq<u8>, Bencode)>, key: Seq<u8>) -> Option<Bencode> {
    let p = lower_bound(entries, key) as int;
    if p < entries.len() && entries[p].0 == key {
        Some(entries[p].1)
    } else {
        None
    }
}

/// `entries` with `value` under `key`: in place of the entry that had the key, or
/// else put in at the key's place in the order.
pub open spec fn dict_insert(
    entries: Seq<(Seq<u8>, Bencode)>,
    key: Seq<u8>,
    value: Bencode,
) -> Seq<(Seq<u8>, Bencode)> {
    let p = lower_bound(entries, key) as int;
    if p < entries.len() && entries[p].0 == key {
        entries.update(p, (key, value))
    } else {
        entries.insert(p, (key, value))
    }
}

impl Bencode {
    /// Every dictionary in the tree has its keys in strictly ascending order.
    pub open spec fn wf(self) -> bool
        decreases self,
    {
        match self {
            Bencode::Integer(_) => true,
            Bencode::ByteString(_) => true,
            Bencode::List(items) => forall|i: int|
                0 <= i < items.len() ==> (#[trigger] items[i]).wf(),
            Bencode::Dictionary(entries) => entries_sorted(entries) && forall|i: int|
                0 <= i < entries.len() ==> (#[trigger] entries[i]).1.wf(),
        }
    }
}

/// A list is well formed exactly when each of its items is.
pub proof fn lemma_list_wf(items: Seq<Bencode>)
    ensures
        Bencode::List(items).wf() == (forall|i: int|
            0 <= i < items.len() ==> (#[trigger] items[i]).wf()),
{
    assert(Bencode::List(items)->List_0 == items);
}

/// A dictionary is well formed exactly when its keys ascend and each of its values
/// is well formed.
pub proof fn lemma_dictionary_wf(entries: Seq<(Seq<u8>, Bencode)>)
    ensures
        Bencode::Dictionary(entries).wf() == (entries_sorted(entries) && forall|i: int|
            0 <= i < entries.len() ==> (#[trigger] entries[i]).1.wf()),
{
    assert(Bencode::Dictionary(entries)->Dictionary_0 == entries);
}

pub proof fn lemma_bytes_lt_irreflexive(a: Seq<u8>)
    ensures
        !bytes_lt(a, a),
    decreases a.len(),
{
    if a.len() > 0 {
        lemma_bytes_lt_irreflexive(a.drop_first());
    }
}

pub proof fn lemma_bytes_lt_transitive(a: Seq<u8>, b: Seq<u8>, c: Seq<u8>)
    requires
        bytes_lt(a, b),
        bytes_lt(b, c),
    ensures
        bytes_lt(a, c),
    decreases a.len(),
{
    if a.len() > 0 && a[0] == b[0] && b[0] == c[0] {
        lemma_bytes_lt_transitive(a.drop_first(), b.drop_first(), c.drop_first());
    }
}

pub proof fn lemma_bytes_lt_asymmetric(a: Seq<u8>, b: Seq<u8>)
    requires
        bytes_lt(a, b),
    ensures
        !bytes_lt(b, a),
        a != b,
{
    lemma_bytes_lt_irreflexive(a);
    if bytes_lt(b, a) {
        lemma_bytes_lt_transitive(a, b, a);
    }
}

/// Of two keys one comes first, or they are the same key.
pub proof fn lemma_bytes_lt_total(a: Seq<u8>, b: Seq<u8>)
    ensures
        bytes_lt(a, b) || a == b || bytes_lt(b, a),
    decreases a.len(),
{
    if a.len() == 0 || b.len() == 0 {
        if a.len() == 0 && b.len() == 0 {
            assert(a =~= b);
        }
    } else if a[0] == b[0] {
        lemma_bytes_lt_total(a.drop_first(), b.drop_first());
        if a.drop_first() == b.drop_first() {
            assert(a =~= seq![a[0]] + a.drop_first());
            assert(b =~= seq![b[0]] + b.drop_first());
        }
    }
}

/// What `lower_bound` finds: every entry before it has a smaller key, and the entry
/// at it, if there is one, has not.
pub proof fn lemma_lower_bound(entries: Seq<(Seq<u8>, Bencode)>, key: Seq<u8>)
    ensures
        lower_bound(entries, key) <= entries.len(),
        forall|i: int|
            0 <= i < lower_bound(entries, key) ==> bytes_lt((#[trigger] entries[i]).0, key),
        lower_bound(entries, key) < entries.len() ==> !bytes_lt(
            entries[lower_bound(entries, key) as int].0,
            key,
        ),
    decreases entries.len(),
{
    if entries.len() > 0 && bytes_lt(entries[0].0, key) {
        let tail = entries.drop_first();
        lemma_lower_bound(tail, key);
        assert forall|i: int| 0 <= i < lower_bound(entries, key) implies bytes_lt(
            (#[trigger] entries[i]).0,
            key,
        ) by {
            if i > 0 {
                assert(entries[i] == tail[i - 1]);
            }
        }
        if lower_bound(entries, key) < entries.len() {
            assert(entries[lower_bound(entries, key) as int] == tail[lower_bound(tail, key) as int]);
        }
    }
}

/// The place that `lower_bound` finds is the only one of its kind.
pub proof fn lemma_lower_bound_is(entries: Seq<(Seq<u8>, Bencode)>, key: Seq<u8>, p: int)
    requires
        0 <= p <= entries.len(),
        forall|i: int| 0 <= i < p ==> bytes_lt((#[trigger] entries[i]).0, key),
        p < entries.len() ==> !bytes_lt(entries[p].0, key),
    ensures
        lower_bound(entries, key) == p,
    decreases entries.len(),
{
    if entries.len() > 0 && p > 0 {
        let tail = entries.drop_first();
        assert(bytes_lt(entries[0].0, key));
        assert forall|i: int| 0 <= i < p - 1 implies bytes_lt((#[trigger] tail[i]).0, key) by {
            assert(tail[i] == entries[i + 1]);
        }
        if p - 1 < tail.len() {
            assert(tail[p - 1] == entries[p]);
        }
        lemma_lower_bound_is(tail, key, p - 1);
    }
}

/// In a sorted dictionary the place of a key that it holds is where the key is.
pub proof fn lemma_lower_bound_of_member(entries: Seq<(Seq<u8>, Bencode)>, i: int)
    requires
        entries_sorted(entries),
        0 <= i < entries.len(),
    ensures
        lower_bound(entries, entries[i].0) == i,
        dict_get(entries, entries[i].0) == Some(entries[i].1),
{
    lemma_bytes_lt_irreflexive(entries[i].0);
    assert forall|j: int| 0 <= j < i implies bytes_lt((#[trigger] entries[j]).0, entries[i].0) by {
        assert(bytes_lt(entries[j].0, entries[i].0));
    }
    lemma_lower_bound_is(entries, entries[i].0, i);
}

/// Inserting keeps a dictionary sorted.
pub proof fn lemma_insert_sorted(entries: Seq<(Seq<u8>, Bencode)>, key: Seq<u8>, value: Bencode)
    requires
        entries_sorted(entries),
    ensures
        entries_sorted(dict_insert(entries, key, value)),
{
    let p = lower_bound(entries, key) as int;
    let r = dict_insert(entries, key, value);
    lemma_lower_bound(entries, key);
    if p < entries.len() && entries[p].0 == key {
        assert forall|i: int, j: int| 0 <= i < j < r.len() implies bytes_lt(r[i].0, r[j].0) by {
            assert(bytes_lt(entries[i].0, entries[j].0));
        }
    } else {
        assert forall|i: int, j: int| 0 <= i < j < r.len() implies bytes_lt(r[i].0, r[j].0) by {
            if j < p {
                assert(bytes_lt(entries[i].0, entries[j].0));
            } else if j == p {
                assert(bytes_lt(entries[i].0, key));
            } else {
                // an entry that was at or after the key's place: its key is larger
                lemma_bytes_lt_total(key, entries[p].0);
                assert(bytes_lt(key, entries[p].0));
                if j - 1 > p {
                    assert(bytes_lt(entries[p].0, entries[j - 1].0));
                    lemma_bytes_lt_transitive(key, entries[p].0, entries[j - 1].0);
                }
                assert(bytes_lt(key, entries[j - 1].0));
                if i < p {
                    assert(bytes_lt(entries[i].0, key));
                    lemma_bytes_lt_transitive(entries[i].0, key, entries[j - 1].0);
                } else if i > p {
                    assert(bytes_lt(entries[i - 1].0, entries[j - 1].0));
                }
            }
        }
    }
}

/// After an insertion the dictionary holds the new value under the key, and under
/// every other key what it held before.
pub proof fn lemma_get_insert(
    entries: Seq<(Seq<u8>, Bencode)>,
    key: Seq<u8>,
    value: Bencode,
    other: Seq<u8>,
)
    requires
        entries_sorted(entries),
    ensures
        dict_get(dict_insert(entries, key, value), other) == if other == key {
            Some(value)
        } else {
            dict_get(entries, other)
        },
{
    let p = lower_bound(entries, key) as int;
    let q = lower_bound(entries, other) as int;
    let r = dict_insert(entries, key, value);
    let replaced = p < entries.len() && entries[p].0 == key;
    lemma_lower_bound(entries, key);
    lemma_lower_bound(entries, other);
    lemma_insert_sorted(entries, key, value);
    assert(r[p] == (key, value));
    if other == key {
        lemma_lower_bound_of_member(r, p);
    } else {
        lemma_bytes_lt_total(key, other);
        if bytes_lt(other, key) {
            // the place of `other` is at or before that of `key`
            lemma_bytes_lt_asymmetric(other, key);
            if q > p {
                assert(bytes_lt(entries[p].0, other));
                lemma_bytes_lt_total(entries[p].0, key);
                if entries[p].0 != key {
                    lemma_bytes_lt_transitive(other, key, entries[p].0);
                    lemma_bytes_lt_asymmetric(other, entries[p].0);
                } else {
                    lemma_bytes_lt_asymmetric(entries[p].0, other);
                }
                assert(false);
            }
            assert forall|i: int| 0 <= i < q implies bytes_lt((#[trigger] r[i]).0, other) by {
                assert(r[i] == entries[i]);
            }
            if q < p {
                assert(r[q] == entries[q]);
            }
            lemma_lower_bound_is(r, other, q);
            if q == p && q < entries.len() && entries[q].0 == other {
                lemma_bytes_lt_total(entries[p].0, key);
                assert(false);
            }
        } else {
            // the place of `other` is after that of `key`
            lemma_bytes_lt_asymmetric(key, other);
            if q < p {
                assert(bytes_lt(entries[q].0, key));
                lemma_bytes_lt_transitive(entries[q].0, key, other);
                assert(false);
            }
            if replaced {
                if q == p {
                    assert(false);
                }
                assert forall|i: int| 0 <= i < q implies bytes_lt((#[trigger] r[i]).0, other) by {
                    if i != p {
                        assert(r[i] == entries[i]);
                    }
                }
                if q < r.len() {
                    assert(r[q] == entries[q]);
                }
                lemma_lower_bound_is(r, other, q);
            } else {
                assert forall|i: int| 0 <= i < q + 1 implies bytes_lt(
                    (#[trigger] r[i]).0,
                    other,
                ) by {
                    if i < p {
                        assert(r[i] == entries[i]);
                    } else if i > p {
                        assert(r[i] == entries[i - 1]);
                    }
                }
                if q + 1 < r.len() {
                    assert(r[q + 1] == entries[q]);
                }
                lemma_lower_bound_is(r, other, q + 1);
            }
        }
    }
}

/// Two entries with different keys can be inserted in either order.
pub proof fn lemma_insert_commutes(
    entries: Seq<(Seq<u8>, Bencode)>,
    key1: Seq<u8>,
    value1: Bencode,
    key2: Seq<u8>,
    value2: Bencode,
)
    requires
        entries_sorted(entries),
        key1 != key2,
    ensures
        dict_insert(dict_insert(entries, key1, value1), key2, value2) == dict_insert(
            dict_insert(entries, key2, value2),
            key1,
            value1,
        ),
{
    let a = dict_insert(dict_insert(entries, key1, value1), key2, value2);
    let b = dict_insert(dict_insert(entries, key2, value2), key1, value1);
    lemma_insert_sorted(entries, key1, value1);
    lemma_insert_sorted(entries, key2, value2);
    lemma_insert_sorted(dict_insert(entries, key1, value1), key2, value2);
    lemma_insert_sorted(dict_insert(entries, key2, value2), key1, value1);
    assert forall|k: Seq<u8>| dict_get(a, k) == dict_get(b, k) by {
        lemma_get_insert(dict_insert(entries, key1, value1), key2, value2, k);
        lemma_get_insert(entries, key1, value1, k);
        lemma_get_insert(dict_insert(entries, key2, value2), key1, value1, k);
        lemma_get_insert(entries, key2, value2, k);
    }
    lemma_dictionary_canonical(a, b);
}

/// A sorted dictionary holds, up to `n`, what another holds that agrees with it
/// under every key.
proof fn lemma_canonical_prefix(a: Seq<(Seq<u8>, Bencode)>, b: Seq<(Seq<u8>, Bencode)>, n: int)
    requires
        entries_sorted(a),
        entries_sorted(b),
        forall|k: Seq<u8>| dict_get(a, k) == dict_get(b, k),
        0 <= n <= a.len(),
    ensures
        n <= b.len(),
        forall|i: int| 0 <= i < n ==> a[i] == b[i],
    decreases n,
{
    if n > 0 {
        let i = n - 1;
        lemma_canonical_prefix(a, b, i);
        let ka = a[i].0;
        lemma_lower_bound_of_member(a, i);
        let q = lower_bound(b, ka) as int;
        lemma_lower_bound(b, ka);
        assert(dict_get(b, ka) == Some(a[i].1));
        assert(q < b.len() && b[q].0 == ka && b[q].1 == a[i].1);
        if q < i {
            // b[q] == a[q], whose key comes before that of a[i]
            assert(a[q] == b[q]);
            assert(bytes_lt(a[q].0, a[i].0));
            lemma_bytes_lt_irreflexive(ka);
            assert(false);
        }
        if q > i {
            let kb = b[i].0;
            assert(bytes_lt(b[i].0, b[q].0));
            lemma_lower_bound_of_member(b, i);
            let t = lower_bound(a, kb) as int;
            lemma_lower_bound(a, kb);
            assert(dict_get(a, kb) == Some(b[i].1));
            assert(t < a.len() && a[t].0 == kb);
            lemma_bytes_lt_asymmetric(kb, ka);
            if t < i {
                assert(a[t] == b[t]);
                assert(bytes_lt(b[t].0, b[i].0));
                lemma_bytes_lt_irreflexive(kb);
            } else if t > i {
                assert(bytes_lt(a[i].0, a[t].0));
            }
            assert(false);
        }
        assert(a[i] =~= b[i]);
    }
}

/// Canonical form: a sorted dictionary is determined by what it holds under each
/// key. However two dictionaries were built, and in whatever order their keys went
/// in, if they agree under every key they are the same sequence of entries and have
/// the same encoded form.
pub proof fn lemma_dictionary_canonical(a: Seq<(Seq<u8>, Bencode)>, b: Seq<(Seq<u8>, Bencode)>)
    requires
        entries_sorted(a),
        entries_sorted(b),
        forall|k: Seq<u8>| dict_get(a, k) == dict_get(b, k),
    ensures
        a == b,
        encoding(Bencode::Dictionary(a)) == encoding(Bencode::Dictionary(b)),
{
    lemma_canonical_prefix(a, b, a.len() as int);
    lemma_canonical_prefix(b, a, b.len() as int);
    assert(a =~= b);
}

/// The decimal digits of `n`, most significant first, without leading zeros.
pub open spec fn decimal(n: nat) -> Seq<u8>
    decreases n,
{
    if n < 10 {
        seq![(48 + n) as u8]
    } else {
        decimal(n / 10).push((48 + n % 10) as u8)
    }
}

/// Minimal decimal form of an integer: a `-` only before a negative number.
pub open spec fn signed_decimal(i: int) -> Seq<u8> {
    if i < 0 {
        seq![45u8] + decimal((-i) as nat)
    } else {
        decimal(i as nat)
    }
}

/// A byte string in its encoded form: its length, a colon, its bytes.
pub open spec fn bytes_encoding(b: Seq<u8>) -> Seq<u8> {
    decimal(b.len()) + seq![58u8] + b
}

/// The encoded form of a value.
pub open spec fn encoding(v: Bencode) -> Seq<u8>
    decreases v, 0nat,
{
    match v {
        Bencode::Integer(i) => seq![105u8] + signed_decimal(i as int) + seq![101u8],
        Bencode::ByteString(b) => bytes_encoding(b),
        Bencode::List(items) => seq![108u8] + list_encoding(items, 0) + seq![101u8],
        Bencode::Dictionary(entries) => seq![100u8] + entries_encoding(entries, 0) + seq![101u8],
    }
}

/// The encoded forms of the items from index `from` on, one after the other.
pub open spec fn list_encoding(items: Seq<Bencode>, from: nat) -> Seq<u8>
    decreases items, items.len() - from,
{
    if from >= items.len() {
        Seq::<u8>::empty()
    } else {
        encoding(items[from as int]) + list_encoding(items, from + 1)
    }
}

/// The encoded forms of the entries from index `from` on: each key as a byte
/// string, followed by its value.
pub open spec fn entries_encoding(entries: Seq<(Seq<u8>, Bencode)>, from: nat) -> Seq<u8>
    decreases entries, entries.len() - from,
{
    if from >= entries.len() {
        Seq::<u8>::empty()
    } else {
        bytes_encoding(entries[from as int].0) + encoding(entries[from as int].1)
            + entries_encoding(entries, from + 1)
    }
}

impl Dictionary {
    #[verifier::type_invariant]
    spec fn sorted(&self) -> bool {
        entries_sorted(self@)
    }

    /// The dictionary without entries.
    pub fn new() -> (d: Dictionary)
        ensures
            d@ == Seq::<(Seq<u8>, Bencode)>::empty(),
    {
        let d = Dictionary { entries: Vec::new() };
        assert(d@ =~= Seq::<(Seq<u8>, Bencode)>::empty());
        d
    }

    /// Number of entries.
    pub fn len(&self) -> (n: usize)
        ensures
            n == self@.len(),
            entries_sorted(self@),
    {
        proof {
            use_type_invariant(self);
        }
        self.entries.len()
    }

    /// Key of the entry at place `i` in ascending key order.
    pub fn key(&self, i: usize) -> (k: &Vec<u8>)
        requires
            i < self@.len(),
        ensures
            k@ == self@[i as int].0,
    {
        &self.entries[i].0
    }

    /// Value of the entry at place `i` in ascending key order.
    pub fn value(&self, i: usize) -> (v: &BencodeValue)
        requires
            i < self@.len(),
        ensures
            v@ == self@[i as int].1,
    {
        &self.entries[i].1
    }

    /// Place of `key` in the order: the number of entries with a smaller key.
    fn place(&self, key: &[u8]) -> (p: usize)
        ensures
            p == lower_bound(self@, key@),
            p <= self@.len(),
    {
        let mut p: usize = 0;
        while p < self.entries.len() && bytes_less(self.entries[p].0.as_slice(), key)
            invariant
                p <= self.entries.len(),
                self@.len() == self.entries.len(),
                forall|i: int| 0 <= i < p ==> bytes_lt((#[trigger] self@[i]).0, key@),
            decreases self.entries.len() - p,
        {
            p = p + 1;
        }
        proof {
            lemma_lower_bound_is(self@, key@, p as int);
        }
        p
    }

    /// The value under `key`, if there is one.
    pub fn get(&self, key: &[u8]) -> (r: Option<&BencodeValue>)
        ensures
            match r {
                Some(v) => dict_get(self@, key@) == Some(v@),
                None => dict_get(self@, key@) is None,
            },
            entries_sorted(self@),
    {
        proof {
            use_type_invariant(self);
        }
        let p: usize = self.place(key);
        if p < self.entries.len() && !bytes_less(key, self.entries[p].0.as_slice()) {
            proof {
                lemma_lower_bound(self@, key@);
                lemma_bytes_lt_total(key@, self@[p as int].0);
            }
            Some(&self.entries[p].1)
        } else {
            proof {
                if p < self.entries.len() {
                    lemma_bytes_lt_asymmetric(key@, self@[p as int].0);
                }
            }
            None
        }
    }

    /// Puts `value` under `key`, in place of the value that the key had, if any.
    /// In whatever order keys are inserted, the entries stay in ascending key order.
    pub fn insert(&mut self, key: Vec<u8>, value: BencodeValue)
        ensures
            final(self)@ == dict_insert(old(self)@, key@, value@),
            entries_sorted(final(self)@),
    {
        proof {
            use_type_invariant(&*self);
            lemma_insert_sorted(self@, key@, value@);
        }
        let p: usize = self.place(key.as_slice());
        let ghost before = self@;
        if p < self.entries.len() && !bytes_less(key.as_slice(), self.entries[p].0.as_slice()) {
            proof {
                lemma_lower_bound(before, key@);
                lemma_bytes_lt_total(key@, before[p as int].0);
            }
            let mut entries: Vec<(Vec<u8>, BencodeValue)> = Vec::new();
            core::mem::swap(&mut self.entries, &mut entries);
            entries.set(p, (key, value));
            assert(entries_view(entries@) =~= before.update(p as int, (key@, value@)));
            self.entries = entries;
        } else {
            proof {
                if p < self.entries.len() {
                    lemma_bytes_lt_asymmetric(key@, before[p as int].0);
                }
            }
            let mut entries: Vec<(Vec<u8>, BencodeValue)> = Vec::new();
            core::mem::swap(&mut self.entries, &mut entries);
            entries.insert(p, (key, value));
            assert(entries_view(entries@) =~= before.insert(p as int, (key@, value@)));
            self.entries = entries;
        }
    }
}

/// A copy of `value`.
fn copy_value(value: &BencodeValue) -> (copy: BencodeValue)
    ensures
        copy@ == value@,
    decreases value,
{
    match value {
        BencodeValue::Integer(i) => BencodeValue::Integer(*i),
        BencodeValue::ByteString(b) => BencodeValue::ByteString(b.clone()),
        BencodeValue::List(items) => {
            let mut copies: Vec<BencodeValue> = Vec::new();
            let mut i: usize = 0;
            while i < items.len()
                invariant
                    i <= items.len(),
                    *value == BencodeValue::List(*items),
                    copies@.len() == i,
                    forall|k: int| 0 <= k < i ==> (#[trigger] copies@[k])@ == items@[k]@,
                decreases items.len() - i,
            {
                assert(decreases_to!(*value => value->List_0));
                copies.push(copy_value(&items[i]));
                i = i + 1;
            }
            assert(values_view(copies@) =~= values_view(items@));
            BencodeValue::List(copies)
        },
        BencodeValue::Dictionary(d) => {
            proof {
                use_type_invariant(d);
            }
            let mut entries: Vec<(Vec<u8>, BencodeValue)> = Vec::new();
            let mut i: usize = 0;
            while i < d.entries.len()
                invariant
                    i <= d.entries.len(),
                    *value == BencodeValue::Dictionary(*d),
                    entries@.len() == i,
                    forall|k: int|
                        0 <= k < i ==> (#[trigger] entries@[k]).0@ == d.entries@[k].0@
                            && entries@[k].1@ == d.entries@[k].1@,
                decreases d.entries.len() - i,
            {
                assert(decreases_to!(*value => value->Dictionary_0));
                entries.push((d.entries[i].0.clone(), copy_value(&d.entries[i].1)));
                i = i + 1;
            }
            assert(entries_view(entries@) =~= d@);
            BencodeValue::Dictionary(Dictionary { entries })
        },
    }
}

impl Clone for BencodeValue {
    fn clone(&self) -> (copy: BencodeValue)
        ensures
            copy@ == self@,
    {
        copy_value(self)
    }
}

impl Clone for Dictionary {
    fn clone(&self) -> (copy: Dictionary)
        ensures
            copy@ == self@,
    {
        proof {
            use_type_invariant(self);
        }
        let mut entries: Vec<(Vec<u8>, BencodeValue)> = Vec::new();
        let mut i: usize = 0;
        while i < self.entries.len()
            invariant
                i <= self.entries.len(),
                entries@.len() == i,
                forall|k: int|
                    0 <= k < i ==> (#[trigger] entries@[k]).0@ == self.entries@[k].0@
                        && entries@[k].1@ == self.entries@[k].1@,
            decreases self.entries.len() - i,
        {
            entries.push((self.entries[i].0.clone(), copy_value(&self.entries[i].1)));
            i = i + 1;
        }
        assert(entries_view(entries@) =~= self@);
        Dictionary { entries }
    }
}

/// Whether `a` comes before `b` in byte order.
pub fn bytes_less(a: &[u8], b: &[u8]) -> (less: bool)
    ensures
        less == bytes_lt(a@, b@),
{
    let mut i: usize = 0;
    assert(a@.skip(0) =~= a@ && b@.skip(0) =~= b@);
    while i < a.len() && i < b.len()
        invariant
            i <= a.len(),
            i <= b.len(),
            bytes_lt(a@, b@) == bytes_lt(a@.skip(i as int), b@.skip(i as int)),
        decreases a.len() - i,
    {
        assert(a@.skip(i as int).drop_first() =~= a@.skip(i + 1));
        assert(b@.skip(i as int).drop_first() =~= b@.skip(i + 1));
        if a[i] != b[i] {
            return a[i] < b[i];
        }
        i = i + 1;
    }
    i < b.len()
}

/// Appends the decimal digits of `n`.
fn push_decimal(n: u64, out: &mut Vec<u8>)
    ensures
        final(out)@ == old(out)@ + decimal(n as nat),
    decreases n,
{
    if n >= 10 {
        push_decimal(n / 10, out);
    }
    let digit: u8 = (n % 10) as u8;
    out.push(48 + digit);
    assert(out@ =~= old(out)@ + decimal(n as nat));
}

/// Appends a byte string in its encoded form.
fn push_byte_string(b: &[u8], out: &mut Vec<u8>)
    ensures
        final(out)@ == old(out)@ + bytes_encoding(b@),
{
    push_decimal(b.len() as u64, out);
    out.push(58);
    out.extend_from_slice(b);
    assert(out@ =~= old(out)@ + bytes_encoding(b@));
}

/// Appends the encoded form of `value`.
fn encode_into(value: &BencodeValue, out: &mut Vec<u8>)
    ensures
        final(out)@ == old(out)@ + encoding(value@),
        value@.wf(),
    decreases value,
{
    match value {
        BencodeValue::Integer(i) => {
            out.push(105);
            if *i < 0 {
                out.push(45);
                let magnitude: u64 = if *i == i64::MIN {
                    9223372036854775808
                } else {
                    (-*i) as u64
                };
                push_decimal(magnitude, out);
            } else {
                push_decimal(*i as u64, out);
            }
            out.push(101);
            assert(out@ =~= old(out)@ + encoding(value@));
        },
        BencodeValue::ByteString(b) => {
            push_byte_string(b.as_slice(), out);
        },
        BencodeValue::List(items) => {
            out.push(108);
            let ghost model = values_view(items@);
            let mut i: usize = 0;
            while i < items.len()
                invariant
                    i <= items.len(),
                    *value == BencodeValue::List(*items),
                    model == values_view(items@),
                    out@ + list_encoding(model, i as nat) == old(out)@ + seq![108u8]
                        + list_encoding(model, 0),
                    forall|j: int| 0 <= j < i ==> (#[trigger] model[j]).wf(),
                decreases items.len() - i,
            {
                let ghost before = out@;
                assert(decreases_to!(*value => value->List_0));
                encode_into(&items[i], out);
                assert(out@ + list_encoding(model, (i + 1) as nat) =~= before + list_encoding(
                    model,
                    i as nat,
                ));
                i = i + 1;
            }
            out.push(101);
            assert(out@ =~= old(out)@ + encoding(value@));
        },
        BencodeValue::Dictionary(d) => {
            proof {
                use_type_invariant(d);
            }
            out.push(100);
            let ghost model = d@;
            let mut i: usize = 0;
            while i < d.entries.len()
                invariant
                    i <= d.entries.len(),
                    *value == BencodeValue::Dictionary(*d),
                    model == d@,
                    model.len() == d.entries.len(),
                    out@ + entries_encoding(model, i as nat) == old(out)@ + seq![100u8]
                        + entries_encoding(model, 0),
                    forall|j: int| 0 <= j < i ==> (#[trigger] model[j]).1.wf(),
                decreases d.entries.len() - i,
            {
                let ghost before = out@;
                push_byte_string(d.entries[i].0.as_slice(), out);
                assert(decreases_to!(*value => value->Dictionary_0));
                encode_into(&d.entries[i].1, out);
                assert(out@ + entries_encoding(model, (i + 1) as nat) =~= before
                    + entries_encoding(model, i as nat));
                i = i + 1;
            }
            out.push(101);
            assert(out@ =~= old(out)@ + encoding(value@));
        },
    }
}

/// Encodes a value. Every value has an encoding; integers come out in minimal
/// decimal and the entries of each dictionary in ascending key order.
pub fn encode(value: &BencodeValue) -> (bytes: Vec<u8>)
    ensures
        bytes@ == encoding(value@),
        value@.wf(),
{
    let mut out: Vec<u8> = Vec::new();
    encode_into(value, &mut out);
    assert(out@ =~= encoding(value@));
    out
}

} // verus!
