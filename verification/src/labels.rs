//! Label sets that identify a metric time series.
//!
//! Labels are string-valued and kept canonically ordered (by the bytes of
//! their keys), so a series has exactly one identity, and one stable
//! [`SeriesId`], regardless of the order its labels were supplied in.

use vstd::prelude::*;
use vstd::utf8::{encode_utf8, encode_utf8_decode_utf8};
use crate::fnv;

verus! {

// ---------------------------------------------------------------------------
// Byte-lexicographic order (the order of `str`).
// ---------------------------------------------------------------------------

/// `a` sorts strictly before `b`, comparing bytes lexicographically.
pub open spec fn bytes_lt(a: Seq<u8>, b: Seq<u8>) -> bool
    decreases a.len(),
{
    if a.len() == 0 {
        b.len() > 0
    } else if b.len() == 0 {
        false
    } else if a[0] < b[0] {
        true
    } else if a[0] > b[0] {
        false
    } else {
        bytes_lt(a.drop_first(), b.drop_first())
    }
}

pub proof fn lemma_bytes_lt_irreflexive(a: Seq<u8>)
    ensures
        !bytes_lt(a, a),
    decreases a.len(),
{
    if a.len() > 0 {
        lemma_bytes_lt_irreflexive(a.drop_first());
    }
}

pub proof fn lemma_bytes_lt_transitive(a: Seq<u8>, b: Seq<u8>, c: Seq<u8>)
    requires
        bytes_lt(a, b),
        bytes_lt(b, c),
    ensures
        bytes_lt(a, c),
    decreases a.len(),
{
    if a.len() > 0 && b.len() > 0 && c.len() > 0 && a[0] == b[0] && b[0] == c[0] {
        lemma_bytes_lt_transitive(a.drop_first(), b.drop_first(), c.drop_first());
    }
}

pub proof fn lemma_bytes_lt_total(a: Seq<u8>, b: Seq<u8>)
    ensures
        a == b || bytes_lt(a, b) || bytes_lt(b, a),
    decreases a.len(),
{
    if a.len() > 0 && b.len() > 0 && a[0] == b[0] {
        lemma_bytes_lt_total(a.drop_first(), b.drop_first());
        if a.drop_first() == b.drop_first() {
            assert(a =~= seq![a[0]] + a.drop_first());
            assert(b =~= seq![b[0]] + b.drop_first());
        }
    } else if a.len() == 0 && b.len() == 0 {
        assert(a =~= b);
    }
}

/// Comparing two byte strings whose first `i` bytes agree comes down to
/// comparing what follows.
proof fn lemma_bytes_lt_skip(a: Seq<u8>, b: Seq<u8>, i: int)
    requires
        0 <= i <= a.len(),
        i <= b.len(),
        a.take(i) == b.take(i),
    ensures
        bytes_lt(a, b) == bytes_lt(a.skip(i), b.skip(i)),
    decreases i,
{
    if i > 0 {
        assert(a[0] == a.take(i)[0]);
        assert(b[0] == b.take(i)[0]);
        assert(a.drop_first().take(i - 1) =~= a.take(i).drop_first());
        assert(b.drop_first().take(i - 1) =~= b.take(i).drop_first());
        lemma_bytes_lt_skip(a.drop_first(), b.drop_first(), i - 1);
        assert(a.drop_first().skip(i - 1) =~= a.skip(i));
        assert(b.drop_first().skip(i - 1) =~= b.skip(i));
    } else {
        assert(a.skip(0) =~= a);
        assert(b.skip(0) =~= b);
    }
}

/// The order of label keys: the byte order of their UTF-8 encodings.
pub open spec fn key_lt(a: Seq<char>, b: Seq<char>) -> bool {
    bytes_lt(encode_utf8(a), encode_utf8(b))
}

pub proof fn lemma_key_order(a: Seq<char>, b: Seq<char>, c: Seq<char>)
    ensures
        !key_lt(a, a),
        key_lt(a, b) && key_lt(b, c) ==> key_lt(a, c),
        a == b || key_lt(a, b) || key_lt(b, a),
        key_lt(a, b) ==> a != b && !key_lt(b, a),
{
    lemma_bytes_lt_irreflexive(encode_utf8(a));
    if key_lt(a, b) && key_lt(b, c) {
        lemma_bytes_lt_transitive(encode_utf8(a), encode_utf8(b), encode_utf8(c));
    }
    lemma_bytes_lt_total(encode_utf8(a), encode_utf8(b));
    if encode_utf8(a) == encode_utf8(b) {
        encode_utf8_decode_utf8(a);
        encode_utf8_decode_utf8(b);
    }
    if key_lt(a, b) && key_lt(b, a) {
        lemma_bytes_lt_transitive(encode_utf8(a), encode_utf8(b), encode_utf8(a));
    }
}

// ---------------------------------------------------------------------------
// Sorted entry sequences.
// ---------------------------------------------------------------------------

/// A label entry, as characters: `(key, value)`.
pub type Entry = (Seq<char>, Seq<char>);

/// Keys strictly increase from each entry to the next.
pub open spec fn sorted<V>(s: Seq<(Seq<char>, V)>) -> bool
    decreases s.len(),
{
    s.len() <= 1 || (key_lt(s[0].0, s[1].0) && sorted(s.drop_first()))
}

/// The map an entry sequence denotes.
pub open spec fn map_of<V>(s: Seq<(Seq<char>, V)>) -> Map<Seq<char>, V>
    decreases s.len(),
{
    if s.len() == 0 {
        Map::empty()
    } else {
        map_of(s.drop_first()).insert(s[0].0, s[0].1)
    }
}

/// Insert or replace an entry, keeping keys sorted.
pub open spec fn insert_sorted<V>(s: Seq<(Seq<char>, V)>, k: Seq<char>, v: V) -> Seq<(Seq<char>, V)>
    decreases s.len(),
{
    if s.len() == 0 {
        seq![(k, v)]
    } else if s[0].0 == k {
        seq![(k, v)] + s.drop_first()
    } else if key_lt(k, s[0].0) {
        seq![(k, v)] + s
    } else {
        seq![s[0]] + insert_sorted(s.drop_first(), k, v)
    }
}

/// In a sorted sequence, every later key is greater than every earlier one.
pub proof fn lemma_sorted_global<V>(s: Seq<(Seq<char>, V)>, i: int, j: int)
    requires
        sorted(s),
        0 <= i < j < s.len(),
    ensures
        key_lt(s[i].0, s[j].0),
    decreases s.len(), j - i,
{
    if i == 0 {
        if j > 1 {
            lemma_sorted_global(s, 1, j);
            lemma_key_order(s[0].0, s[1].0, s[j].0);
        }
    } else {
        lemma_sorted_global(s.drop_first(), i - 1, j - 1);
    }
}

/// The keys of the map of a sorted sequence are its keys, and the map has as
/// many keys as the sequence has entries.
pub proof fn lemma_map_of_dom<V>(s: Seq<(Seq<char>, V)>)
    ensures
        map_of(s).dom().finite(),
        forall|k: Seq<char>| #[trigger]
            map_of(s).contains_key(k) <==> exists|i: int| 0 <= i < s.len() && s[i].0 == k,
        sorted(s) ==> map_of(s).dom().len() == s.len(),
    decreases s.len(),
{
    if s.len() > 0 {
        let r = s.drop_first();
        lemma_map_of_dom(r);
        assert forall|k: Seq<char>| #[trigger]
            map_of(s).contains_key(k) <==> exists|i: int| 0 <= i < s.len() && s[i].0 == k by {
            if map_of(s).contains_key(k) && k != s[0].0 {
                let i = choose|i: int| 0 <= i < r.len() && r[i].0 == k;
                assert(s[i + 1].0 == k);
            }
            if exists|i: int| 0 <= i < s.len() && s[i].0 == k {
                let i = choose|i: int| 0 <= i < s.len() && s[i].0 == k;
                if i > 0 {
                    assert(r[i - 1].0 == k);
                }
            }
        }
        if sorted(s) {
            if map_of(r).contains_key(s[0].0) {
                let i = choose|i: int| 0 <= i < r.len() && r[i].0 == s[0].0;
                lemma_sorted_global(s, 0, i + 1);
                lemma_key_order(s[0].0, s[0].0, s[0].0);
            }
        }
    }
}

/// A value is found in the map at its key.
pub proof fn lemma_map_of_get<V>(s: Seq<(Seq<char>, V)>, i: int)
    requires
        sorted(s),
        0 <= i < s.len(),
    ensures
        map_of(s).contains_key(s[i].0),
        map_of(s)[s[i].0] == s[i].1,
    decreases s.len(),
{
    lemma_map_of_dom(s);
    if i > 0 {
        lemma_map_of_get(s.drop_first(), i - 1);
        lemma_sorted_global(s, 0, i);
        lemma_key_order(s[0].0, s[i].0, s[i].0);
    }
}

pub proof fn lemma_insert_sorted<V>(s: Seq<(Seq<char>, V)>, k: Seq<char>, v: V)
    requires
        sorted(s),
    ensures
        sorted(insert_sorted(s, k, v)),
        map_of(insert_sorted(s, k, v)) == map_of(s).insert(k, v),
        insert_sorted(s, k, v).len() > 0,
        insert_sorted(s, k, v)[0].0 == k || (s.len() > 0 && insert_sorted(s, k, v)[0] == s[0]),
    decreases s.len(),
{
    let r = insert_sorted(s, k, v);
    if s.len() == 0 {
        assert(r.drop_first() =~= Seq::<(Seq<char>, V)>::empty());
        assert(map_of(r.drop_first()) == Map::<Seq<char>, V>::empty());
        assert(r[0] == (k, v));
        assert(map_of(r) =~= map_of(s).insert(k, v));
    } else if s[0].0 == k {
        assert(r.drop_first() =~= s.drop_first());
        assert(r[0] == (k, v));
        assert(map_of(r) =~= map_of(s).insert(k, v));
        if s.len() > 1 {
            assert(r[1] == s[1]);
        }
    } else if key_lt(k, s[0].0) {
        assert(r.drop_first() =~= s);
        assert(map_of(r) =~= map_of(s).insert(k, v));
    } else {
        let rest = insert_sorted(s.drop_first(), k, v);
        lemma_insert_sorted(s.drop_first(), k, v);
        assert(r.drop_first() =~= rest);
        lemma_key_order(k, s[0].0, k);
        if s.len() > 1 {
            assert(s.drop_first()[0] == s[1]);
        }
        assert(map_of(r) =~= map_of(s).insert(k, v));
    }
}

/// Two sorted sequences that denote the same map are the same sequence:
/// the representation is canonical.
pub proof fn lemma_sorted_canonical<V>(a: Seq<(Seq<char>, V)>, b: Seq<(Seq<char>, V)>)
    requires
        sorted(a),
        sorted(b),
        map_of(a) == map_of(b),
    ensures
        a == b,
    decreases a.len(),
{
    lemma_map_of_dom(a);
    lemma_map_of_dom(b);
    if a.len() == 0 {
        if b.len() > 0 {
            assert(map_of(b).contains_key(b[0].0));
        }
        assert(a =~= b);
    } else {
        assert(map_of(a).contains_key(a[0].0));
        assert(b.len() > 0);
        assert(map_of(b).contains_key(b[0].0));
        let j = choose|j: int| 0 <= j < b.len() && b[j].0 == a[0].0;
        let i = choose|i: int| 0 <= i < a.len() && a[i].0 == b[0].0;
        if i > 0 {
            lemma_sorted_global(a, 0, i);
        }
        if j > 0 {
            lemma_sorted_global(b, 0, j);
        }
        lemma_key_order(a[0].0, b[0].0, a[0].0);
        lemma_key_order(b[0].0, a[0].0, b[0].0);
        assert(a[0].0 == b[0].0);
        lemma_map_of_get(a, 0);
        lemma_map_of_get(b, 0);
        assert(a[0] == b[0]);
        let ar = a.drop_first();
        let br = b.drop_first();
        lemma_map_of_dom(ar);
        lemma_map_of_dom(br);
        assert(!map_of(ar).contains_key(a[0].0)) by {
            if map_of(ar).contains_key(a[0].0) {
                let x = choose|x: int| 0 <= x < ar.len() && ar[x].0 == a[0].0;
                lemma_sorted_global(a, 0, x + 1);
                lemma_key_order(a[0].0, a[0].0, a[0].0);
            }
        }
        assert(!map_of(br).contains_key(b[0].0)) by {
            if map_of(br).contains_key(b[0].0) {
                let x = choose|x: int| 0 <= x < br.len() && br[x].0 == b[0].0;
                lemma_sorted_global(b, 0, x + 1);
                lemma_key_order(b[0].0, b[0].0, b[0].0);
            }
        }
        assert(map_of(ar) =~= map_of(a).remove(a[0].0));
        assert(map_of(br) =~= map_of(b).remove(b[0].0));
        lemma_sorted_canonical(ar, br);
        assert(a =~= seq![a[0]] + ar);
        assert(b =~= seq![b[0]] + br);
    }
}

pub proof fn lemma_insert_sorted_after<V>(s: Seq<(Seq<char>, V)>, k: Seq<char>, v: V, i: int)
    requires
        0 <= i <= s.len(),
        forall|j: int| 0 <= j < i ==> key_lt(#[trigger] s[j].0, k),
    ensures
        insert_sorted(s, k, v) == s.take(i) + insert_sorted(s.skip(i), k, v),
    decreases i,
{
    if i == 0 {
        assert(s.skip(0) =~= s);
        assert(s.take(0) + insert_sorted(s, k, v) =~= insert_sorted(s, k, v));
    } else {
        let r = s.drop_first();
        assert forall|j: int| 0 <= j < i - 1 implies key_lt(#[trigger] r[j].0, k) by {
            assert(r[j] == s[j + 1]);
        }
        lemma_insert_sorted_after(r, k, v, i - 1);
        lemma_key_order(s[0].0, k, k);
        assert(r.skip(i - 1) =~= s.skip(i));
        assert(s.take(i) =~= seq![s[0]] + r.take(i - 1));
        assert(insert_sorted(s, k, v) == seq![s[0]] + insert_sorted(r, k, v));
        assert(seq![s[0]] + (r.take(i - 1) + insert_sorted(s.skip(i), k, v)) =~= s.take(i)
            + insert_sorted(s.skip(i), k, v));
    }
}

// ---------------------------------------------------------------------------
// Series identity.
// ---------------------------------------------------------------------------

/// The bytes one label contributes to the series hash: `key=value\0`.
pub open spec fn entry_bytes(e: Entry) -> Seq<u8> {
    encode_utf8(e.0) + seq![61u8] + encode_utf8(e.1) + seq![0u8]
}

/// The bytes all labels contribute, in order.
pub open spec fn entries_bytes(s: Seq<Entry>) -> Seq<u8>
    decreases s.len(),
{
    if s.len() == 0 {
        Seq::empty()
    } else {
        entries_bytes(s.drop_last()) + entry_bytes(s.last())
    }
}

/// The stable identity of a metric name paired with an entry sequence: the
/// FNV-1a hash of the name, a `0xff` delimiter, and each `key=value\0`.
pub open spec fn spec_series_id(metric_name: Seq<char>, s: Seq<Entry>) -> u64 {
    fnv::fnv(fnv::OFFSET_BASIS, encode_utf8(metric_name) + seq![0xffu8] + entries_bytes(s))
}

proof fn lemma_entries_bytes_step(s: Seq<Entry>, i: int, head: Seq<u8>)
    requires
        0 <= i < s.len(),
    ensures
        head + entries_bytes(s.take(i + 1)) == head + entries_bytes(s.take(i)) + entry_bytes(s[i]),
{
    assert(s.take(i + 1).drop_last() =~= s.take(i));
    assert(head + entries_bytes(s.take(i + 1)) =~= head + entries_bytes(s.take(i)) + entry_bytes(
        s[i],
    ));
}

/// Fold one label's `key=value\0` into the hash.
fn hash_entry(hash: &mut u64, key: &str, value: &str)
    ensures
        *final(hash) == fnv::fnv(*old(hash), entry_bytes((key@, value@))),
{
    let ghost h0 = *hash;
    fnv::write(hash, key.as_bytes());
    fnv::write_byte(hash, 61u8);
    fnv::write(hash, value.as_bytes());
    fnv::write_byte(hash, 0u8);
    proof {
        let k = encode_utf8(key@);
        let v = encode_utf8(value@);
        fnv::lemma_fnv_single(fnv::fnv(h0, k), 61u8);
        fnv::lemma_fnv_append(h0, k, seq![61u8]);
        fnv::lemma_fnv_append(h0, k + seq![61u8], v);
        fnv::lemma_fnv_single(fnv::fnv(h0, k + seq![61u8] + v), 0u8);
        fnv::lemma_fnv_append(h0, k + seq![61u8] + v, seq![0u8]);
    }
}

/// A stable, content-derived identifier for a metric time series.
#[derive(Debug, Clone, Copy, PartialEq, Eq, Hash, PartialOrd, Ord)]
pub struct SeriesId(pub u64);

impl SeriesId {
    /// The raw 64-bit value.
    pub fn get(self) -> (v: u64)
        ensures
            v == self.0,
    {
        self.0
    }
}

/// How two label keys compare.
pub enum KeyOrder {
    Less,
    Equal,
    Greater,
}

/// Compare two byte strings lexicographically.
pub fn compare_key_bytes(a: &[u8], b: &[u8]) -> (r: KeyOrder)
    ensures
        r is Less <==> bytes_lt(a@, b@),
        r is Equal <==> a@ == b@,
        r is Greater <==> bytes_lt(b@, a@),
{
    let mut i: usize = 0;
    proof {
        lemma_bytes_lt_irreflexive(a@);
        lemma_bytes_lt_total(a@, b@);
        if bytes_lt(a@, b@) && bytes_lt(b@, a@) {
            lemma_bytes_lt_transitive(a@, b@, a@);
        }
    }
    while i < a.len() && i < b.len()
        invariant
            i <= a@.len(),
            i <= b@.len(),
            a@.take(i as int) == b@.take(i as int),
        decreases a@.len() - i,
    {
        if a[i] < b[i] {
            proof {
                lemma_bytes_lt_skip(a@, b@, i as int);
                lemma_bytes_lt_skip(b@, a@, i as int);
            }
            return KeyOrder::Less;
        }
        if a[i] > b[i] {
            proof {
                lemma_bytes_lt_skip(a@, b@, i as int);
                lemma_bytes_lt_skip(b@, a@, i as int);
            }
            return KeyOrder::Greater;
        }
        assert(a@.take(i + 1) =~= a@.take(i as int).push(a@[i as int]));
        assert(b@.take(i + 1) =~= b@.take(i as int).push(b@[i as int]));
        i = i + 1;
    }
    proof {
        lemma_bytes_lt_skip(a@, b@, i as int);
        lemma_bytes_lt_skip(b@, a@, i as int);
        if a@.len() == b@.len() {
            assert(a@ =~= a@.take(i as int));
            assert(b@ =~= b@.take(i as int));
        }
    }
    if a.len() < b.len() {
        KeyOrder::Less
    } else if a.len() > b.len() {
        KeyOrder::Greater
    } else {
        KeyOrder::Equal
    }
}

/// Whether two strings are equal (compared by their UTF-8 bytes).
pub fn same_str(a: &str, b: &str) -> (r: bool)
    ensures
        r == (a@ == b@),
{
    let c = compare_key_bytes(a.as_bytes(), b.as_bytes());
    proof {
        encode_utf8_decode_utf8(a@);
        encode_utf8_decode_utf8(b@);
    }
    match c {
        KeyOrder::Equal => true,
        _ => false,
    }
}

// ---------------------------------------------------------------------------
// The label set.
// ---------------------------------------------------------------------------

/// A canonically-ordered set of string labels.
#[derive(Debug, PartialEq, Eq)]
pub struct Labels {
    entries: Vec<(String, String)>,
}

/// The characters of a stored entry.
pub open spec fn entry_view(p: (String, String)) -> Entry {
    (p.0@, p.1@)
}

/// The characters of stored entries.
pub open spec fn entries_view(v: Seq<(String, String)>) -> Seq<Entry> {
    v.map_values(|p: (String, String)| entry_view(p))
}

impl View for Labels {
    type V = Map<Seq<char>, Seq<char>>;

    /// The labels as a map from key to value.
    open spec fn view(&self) -> Map<Seq<char>, Seq<char>> {
        map_of(self.entries())
    }
}

impl Labels {
    /// The labels in key order.
    pub closed spec fn entries(&self) -> Seq<Entry> {
        entries_view(self.entries@)
    }

    /// Keys are kept sorted and distinct.
    #[verifier::type_invariant]
    closed spec fn inv(self) -> bool {
        sorted(self.entries())
    }

    /// A label set's entries are sorted (its type invariant, made available
    /// to proofs about a value the caller holds).
    pub fn entries_sorted(&self)
        ensures
            sorted(self.entries()),
    {
        proof {
            use_type_invariant(self);
        }
    }

    /// An empty label set.
    pub fn new() -> (l: Labels)
        ensures
            l.entries() == Seq::<Entry>::empty(),
            l@ == Map::<Seq<char>, Seq<char>>::empty(),
    {
        let l = Labels { entries: Vec::new() };
        assert(l.entries() =~= Seq::<Entry>::empty());
        l
    }

    /// Insert or replace a label, returning `self` for chaining.
    pub fn with(self, key: &str, value: &str) -> (l: Labels)
        ensures
            l.entries() == insert_sorted(self.entries(), key@, value@),
            l@ == self@.insert(key@, value@),
    {
        let mut l = self;
        l.insert(key, value);
        l
    }

    /// Insert or replace a label.
    #[verifier::loop_isolation(false)]
    pub fn insert(&mut self, key: &str, value: &str)
        ensures
            final(self).entries() == insert_sorted(old(self).entries(), key@, value@),
            final(self)@ == old(self)@.insert(key@, value@),
    {
        proof {
            use_type_invariant(&*self);
            lemma_insert_sorted(self.entries(), key@, value@);
        }
        let ghost s = self.entries();
        let mut entries: Vec<(String, String)> = Vec::new();
        std::mem::swap(&mut entries, &mut self.entries);
        assert(entries_view(entries@) == s);
        let kb = key.as_bytes();
        let n = entries.len();
        let mut i: usize = 0;
        while i < n
            invariant
                n == entries@.len(),
                entries_view(entries@) == s,
                kb@ == encode_utf8(key@),
                i <= n,
                forall|j: int| 0 <= j < i ==> key_lt(#[trigger] s[j].0, key@),
            decreases n - i,
        {
            let c = compare_key_bytes(entries[i].0.as_str().as_bytes(), kb);
            match c {
                KeyOrder::Less => {
                    assert(s[i as int] == entry_view(entries@[i as int]));
                    i = i + 1;
                },
                KeyOrder::Equal => {
                    proof {
                        assert(s[i as int] == entry_view(entries@[i as int]));
                        encode_utf8_decode_utf8(s[i as int].0);
                        encode_utf8_decode_utf8(key@);
                        assert(s[i as int].0 == key@);
                        lemma_insert_sorted_after(s, key@, value@, i as int);
                        assert(s.skip(i as int)[0] == s[i as int]);
                        assert(s.skip(i as int).drop_first() =~= s.skip(i + 1));
                    }
                    entries.set(i, (key.to_owned(), value.to_owned()));
                    proof {
                        assert(entries_view(entries@) =~= s.take(
                            i as int,
                        ) + (seq![(key@, value@)] + s.skip(i + 1)));
                    }
                    self.entries = entries;
                    return;
                },
                KeyOrder::Greater => {
                    proof {
                        assert(s[i as int] == entry_view(entries@[i as int]));
                        assert(key_lt(key@, s[i as int].0));
                        lemma_insert_sorted_after(s, key@, value@, i as int);
                        assert(s.skip(i as int)[0] == s[i as int]);
                    }
                    entries.insert(i, (key.to_owned(), value.to_owned()));
                    proof {
                        assert(entries_view(entries@) =~= s.take(
                            i as int,
                        ) + (seq![(key@, value@)] + s.skip(i as int)));
                    }
                    self.entries = entries;
                    return;
                },
            }
        }
        proof {
            lemma_insert_sorted_after(s, key@, value@, i as int);
            assert(s.skip(i as int) =~= Seq::<Entry>::empty());
            assert(s.take(i as int) =~= s);
        }
        entries.push((key.to_owned(), value.to_owned()));
        assert(entries_view(entries@) =~= s + seq![(key@, value@)]);
        self.entries = entries;
    }

    /// Look up a label value by key.
    pub fn get(&self, key: &str) -> (r: Option<&str>)
        ensures
            r matches Some(v) ==> self@.contains_key(key@) && v@ == self@[key@],
            r is None ==> !self@.contains_key(key@),
    {
        proof {
            use_type_invariant(self);
            lemma_map_of_dom(self.entries());
        }
        let ghost s = self.entries();
        let kb = key.as_bytes();
        let mut i: usize = 0;
        while i < self.entries.len()
            invariant
                s == self.entries(),
                sorted(s),
                kb@ == encode_utf8(key@),
                i <= self.entries@.len(),
                forall|j: int| 0 <= j < i ==> #[trigger] s[j].0 != key@,
            decreases self.entries@.len() - i,
        {
            assert(s[i as int] == entry_view(self.entries@[i as int]));
            match compare_key_bytes(self.entries[i].0.as_str().as_bytes(), kb) {
                KeyOrder::Equal => {
                    proof {
                        encode_utf8_decode_utf8(s[i as int].0);
                        encode_utf8_decode_utf8(key@);
                        lemma_map_of_get(s, i as int);
                    }
                    return Some(self.entries[i].1.as_str());
                },
                _ => {
                    proof {
                        lemma_key_order(s[i as int].0, key@, key@);
                    }
                },
            }
            i = i + 1;
        }
        None
    }

    /// The labels in key order.
    pub fn iter(&self) -> (r: &[(String, String)])
        ensures
            entries_view(r@) == self.entries(),
    {
        self.entries.as_slice()
    }

    /// The number of labels.
    pub fn len(&self) -> (n: usize)
        ensures
            n == self.entries().len(),
            n == self@.dom().len(),
    {
        proof {
            use_type_invariant(self);
            lemma_map_of_dom(self.entries());
        }
        self.entries.len()
    }

    /// Whether there are no labels.
    pub fn is_empty(&self) -> (b: bool)
        ensures
            b == (self@.dom().len() == 0),
    {
        proof {
            use_type_invariant(self);
            lemma_map_of_dom(self.entries());
        }
        self.entries.len() == 0
    }

    /// A stable 64-bit identity for `metric_name` paired with this label set:
    /// FNV-1a over the canonical (key-ordered) encoding.
    pub fn series_id(&self, metric_name: &str) -> (id: SeriesId)
        ensures
            id.0 == spec_series_id(metric_name@, self.entries()),
    {
        let ghost s = self.entries();
        let ghost head = encode_utf8(metric_name@) + seq![0xffu8];
        let mut hash = fnv::OFFSET_BASIS;
        fnv::write(&mut hash, metric_name.as_bytes());
        // A delimiter that cannot appear inside a UTF-8 string, so the metric
        // name and the first label can never run together ambiguously.
        fnv::write_byte(&mut hash, 0xff);
        proof {
            fnv::lemma_fnv_append(fnv::OFFSET_BASIS, encode_utf8(metric_name@), seq![0xffu8]);
            fnv::lemma_fnv_single(fnv::fnv(fnv::OFFSET_BASIS, encode_utf8(metric_name@)), 0xffu8);
            assert(entries_bytes(s.take(0)) =~= Seq::<u8>::empty());
            assert(head + entries_bytes(s.take(0)) =~= head);
        }
        let mut i: usize = 0;
        while i < self.entries.len()
            invariant
                s == self.entries(),
                i <= self.entries@.len(),
                hash == fnv::fnv(fnv::OFFSET_BASIS, head + entries_bytes(s.take(i as int))),
            decreases self.entries@.len() - i,
        {
            let ghost before = hash;
            assert(s[i as int] == entry_view(self.entries@[i as int]));
            hash_entry(&mut hash, self.entries[i].0.as_str(), self.entries[i].1.as_str());
            proof {
                lemma_entries_bytes_step(s, i as int, head);
                fnv::lemma_fnv_append(
                    fnv::OFFSET_BASIS,
                    head + entries_bytes(s.take(i as int)),
                    entry_bytes(s[i as int]),
                );
            }
            i = i + 1;
        }
        proof {
            assert(s.take(i as int) =~= s);
        }
        SeriesId(hash)
    }
}

impl Clone for Labels {
    fn clone(&self) -> (l: Labels)
        ensures
            l.entries() == self.entries(),
    {
        proof {
            use_type_invariant(self);
        }
        let mut entries: Vec<(String, String)> = Vec::new();
        let mut i: usize = 0;
        while i < self.entries.len()
            invariant
                i <= self.entries@.len(),
                entries_view(entries@) == self.entries().take(
                    i as int,
                ),
            decreases self.entries@.len() - i,
        {
            let k = self.entries[i].0.clone();
            let v = self.entries[i].1.clone();
            let ghost before = entries@;
            entries.push((k, v));
            assert(entries@ == before.push((k, v)));
            assert(self.entries()[i as int] == entry_view(self.entries@[i as int]));
            assert(entry_view((k, v)) == self.entries()[i as int]);
            assert(entries_view(before).len() == before.len());
            assert(self.entries().len() == self.entries@.len());
            assert(before.len() == i);
            assert forall|j: int| 0 <= j <= i implies #[trigger] entries_view(entries@)[j]
                == self.entries().take(i + 1)[j] by {
                assert(entries_view(entries@)[j] == entry_view(entries@[j]));
                if j < i {
                    assert(entries@[j] == before[j]);
                    assert(entries_view(before)[j] == entry_view(before[j]));
                    assert(entries_view(before)[j] == self.entries().take(i as int)[j]);
                } else {
                    assert(entries@[j] == (k, v));
                }
            }
            assert(entries_view(entries@) =~= self.entries().take(
                i + 1,
            ));
            i = i + 1;
        }
        assert(self.entries().take(i as int) =~= self.entries());
        Labels { entries }
    }
}

/// A series' identity depends only on the metric name and the labels as a
/// map: label sets that hold the same keys and values, however and in
/// whatever order they were built, give the same [`SeriesId`].
pub proof fn lemma_series_id_order_independent(a: Labels, b: Labels, metric_name: Seq<char>)
    requires
        sorted(a.entries()),
        sorted(b.entries()),
        a@ == b@,
    ensures
        spec_series_id(metric_name, a.entries()) == spec_series_id(metric_name, b.entries()),
{
    lemma_sorted_canonical(a.entries(), b.entries());
}

} // verus!
