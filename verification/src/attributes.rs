//! The typed key/value attribute model shared by every signal.
//!
//! Mirrors the OpenTelemetry attribute model: arbitrary, typed key/value pairs
//! attached to spans, log records, and resources. Keys are kept in order, so
//! iteration order is deterministic.

use vstd::prelude::*;
use vstd::utf8::{encode_utf8, encode_utf8_decode_utf8};
use crate::labels::{
    KeyOrder, compare_key_bytes, insert_sorted, key_lt, lemma_insert_sorted,
    lemma_insert_sorted_after, lemma_key_order, lemma_map_of_dom, lemma_map_of_get, map_of,
    sorted,
};

verus! {

/// A single typed attribute value. A double is held as the IEEE-754 bit
/// pattern of the `f64` it stands for.
#[derive(Debug, PartialEq)]
pub enum AttributeValue {
    String(String),
    Int(i64),
    Double(u64),
    Bool(bool),
    Array(Vec<AttributeValue>),
}

/// An attribute value as a mathematical value.
pub ghost enum AttrV {
    Str(Seq<char>),
    Int(i64),
    Double(u64),
    Bool(bool),
    Array(Seq<AttrV>),
}

pub open spec fn attr_view(a: AttributeValue) -> AttrV
    decreases a, 0nat,
{
    match a {
        AttributeValue::String(s) => AttrV::Str(s@),
        AttributeValue::Int(i) => AttrV::Int(i),
        AttributeValue::Double(bits) => AttrV::Double(bits),
        AttributeValue::Bool(b) => AttrV::Bool(b),
        AttributeValue::Array(v) => AttrV::Array(attrs_view(v@, v@.len())),
    }
}

/// The values of the first `n` attribute values of a list.
pub open spec fn attrs_view(v: Seq<AttributeValue>, n: nat) -> Seq<AttrV>
    decreases v, n,
{
    if n == 0 || n > v.len() {
        Seq::empty()
    } else {
        attrs_view(v, (n - 1) as nat).push(attr_view(v[n - 1]))
    }
}

impl View for AttributeValue {
    type V = AttrV;

    open spec fn view(&self) -> AttrV {
        attr_view(*self)
    }
}

pub proof fn lemma_attrs_view(v: Seq<AttributeValue>, n: nat)
    requires
        n <= v.len(),
    ensures
        attrs_view(v, n).len() == n,
        forall|i: int| 0 <= i < n ==> #[trigger] attrs_view(v, n)[i] == v[i]@,
    decreases n,
{
    if n > 0 {
        lemma_attrs_view(v, (n - 1) as nat);
    }
}

pub proof fn lemma_attrs_view_push(v: Seq<AttributeValue>, a: AttributeValue)
    ensures
        attrs_view(v.push(a), v.len() + 1) == attrs_view(v, v.len()).push(a@),
{
    lemma_attrs_view(v.push(a), v.len() + 1);
    lemma_attrs_view(v, v.len());
    assert forall|i: int| 0 <= i < v.len() implies #[trigger] attrs_view(v.push(a), v.len() + 1)[i]
        == attrs_view(v, v.len()).push(a@)[i] by {
        assert(v.push(a)[i] == v[i]);
    }
    assert(attrs_view(v.push(a), v.len() + 1) =~= attrs_view(v, v.len()).push(a@));
}

impl AttributeValue {
    /// Borrow as a string slice, if this is a string.
    pub fn as_str(&self) -> (r: Option<&str>)
        ensures
            r matches Some(s) ==> self@ == AttrV::Str(s@),
            r is None ==> !(self@ is Str),
    {
        match self {
            AttributeValue::String(value) => Some(value.as_str()),
            _ => None,
        }
    }

    /// The integer, if this is an integer.
    pub fn as_int(&self) -> (r: Option<i64>)
        ensures
            r matches Some(i) ==> self@ == AttrV::Int(i),
            r is None ==> !(self@ is Int),
    {
        match self {
            AttributeValue::Int(value) => Some(*value),
            _ => None,
        }
    }

    /// The bit pattern of the double, if this is a double.
    pub fn as_double(&self) -> (r: Option<u64>)
        ensures
            r matches Some(bits) ==> self@ == AttrV::Double(bits),
            r is None ==> !(self@ is Double),
    {
        match self {
            AttributeValue::Double(value) => Some(*value),
            _ => None,
        }
    }

    /// The boolean, if this is a boolean.
    pub fn as_bool(&self) -> (r: Option<bool>)
        ensures
            r matches Some(b) ==> self@ == AttrV::Bool(b),
            r is None ==> !(self@ is Bool),
    {
        match self {
            AttributeValue::Bool(value) => Some(*value),
            _ => None,
        }
    }
}

impl Clone for AttributeValue {
    #[verifier::loop_isolation(false)]
    fn clone(&self) -> (r: AttributeValue)
        ensures
            r@ == self@,
        decreases self,
    {
        match self {
            AttributeValue::String(s) => AttributeValue::String(s.clone()),
            AttributeValue::Int(i) => AttributeValue::Int(*i),
            AttributeValue::Double(b) => AttributeValue::Double(*b),
            AttributeValue::Bool(b) => AttributeValue::Bool(*b),
            AttributeValue::Array(v) => {
                let mut out: Vec<AttributeValue> = Vec::new();
                let mut i: usize = 0;
                proof {
                    lemma_attrs_view(v@, v@.len());
                }
                while i < v.len()
                    invariant
                        i <= v@.len(),
                        out@.len() == i,
                        forall|j: int| 0 <= j < i ==> #[trigger] out@[j]@ == v@[j]@,
                    decreases v@.len() - i,
                {
                    proof {
                        assert(decreases_to!(*self => *v));
                        assert(decreases_to!(*v => v@));
                        assert(decreases_to!(v@ => v@[i as int]));
                    }
                    let c = v[i].clone();
                    out.push(c);
                    i = i + 1;
                }
                proof {
                    lemma_attrs_view(out@, out@.len());
                    assert(attrs_view(out@, out@.len()) =~= attrs_view(v@, v@.len()));
                }
                AttributeValue::Array(out)
            },
        }
    }
}

/// An ordered collection of typed attributes.
#[derive(Debug, PartialEq)]
pub struct Attributes {
    entries: Vec<(String, AttributeValue)>,
}

/// The characters and value of a stored attribute.
pub open spec fn attr_entry(p: (String, AttributeValue)) -> (Seq<char>, AttrV) {
    (p.0@, p.1@)
}

pub open spec fn attr_entries(v: Seq<(String, AttributeValue)>) -> Seq<(Seq<char>, AttrV)> {
    v.map_values(|p: (String, AttributeValue)| attr_entry(p))
}

impl View for Attributes {
    type V = Map<Seq<char>, AttrV>;

    /// The attributes as a map from key to value.
    open spec fn view(&self) -> Map<Seq<char>, AttrV> {
        map_of(self.entries())
    }
}

impl Attributes {
    /// The attributes in key order.
    pub closed spec fn entries(&self) -> Seq<(Seq<char>, AttrV)> {
        attr_entries(self.entries@)
    }

    /// Keys are kept sorted and distinct.
    #[verifier::type_invariant]
    closed spec fn inv(self) -> bool {
        sorted(self.entries())
    }

    /// An empty attribute set.
    pub fn new() -> (a: Attributes)
        ensures
            a.entries() == Seq::<(Seq<char>, AttrV)>::empty(),
            a@ == Map::<Seq<char>, AttrV>::empty(),
    {
        let a = Attributes { entries: Vec::new() };
        assert(a.entries() =~= Seq::<(Seq<char>, AttrV)>::empty());
        a
    }

    /// Insert or replace an attribute, returning `self` for chaining.
    pub fn with(self, key: &str, value: AttributeValue) -> (a: Attributes)
        ensures
            a.entries() == insert_sorted(self.entries(), key@, value@),
            a@ == self@.insert(key@, value@),
    {
        let mut a = self;
        a.insert(key, value);
        a
    }

    /// Insert or replace an attribute.
    #[verifier::loop_isolation(false)]
    pub fn insert(&mut self, key: &str, value: AttributeValue)
        ensures
            final(self).entries() == insert_sorted(old(self).entries(), key@, value@),
            final(self)@ == old(self)@.insert(key@, value@),
    {
        proof {
            use_type_invariant(&*self);
            lemma_insert_sorted(self.entries(), key@, value@);
        }
        let ghost s = self.entries();
        let ghost vv = value@;
        let mut entries: Vec<(String, AttributeValue)> = Vec::new();
        std::mem::swap(&mut entries, &mut self.entries);
        assert(attr_entries(entries@) == s);
        let kb = key.as_bytes();
        let n = entries.len();
        let mut i: usize = 0;
        while i < n
            invariant
                n == entries@.len(),
                attr_entries(entries@) == s,
                kb@ == encode_utf8(key@),
                i <= n,
                forall|j: int| 0 <= j < i ==> key_lt(#[trigger] s[j].0, key@),
            decreases n - i,
        {
            let c = compare_key_bytes(entries[i].0.as_str().as_bytes(), kb);
            match c {
                KeyOrder::Less => {
                    assert(s[i as int] == attr_entry(entries@[i as int]));
                    i = i + 1;
                },
                KeyOrder::Equal => {
                    proof {
                        assert(s[i as int] == attr_entry(entries@[i as int]));
                        encode_utf8_decode_utf8(s[i as int].0);
                        encode_utf8_decode_utf8(key@);
                        assert(s[i as int].0 == key@);
                        lemma_insert_sorted_after(s, key@, vv, i as int);
                        assert(s.skip(i as int)[0] == s[i as int]);
                        assert(s.skip(i as int).drop_first() =~= s.skip(i + 1));
                    }
                    entries.set(i, (key.to_owned(), value));
                    proof {
                        assert(attr_entries(entries@) =~= s.take(i as int) + (seq![(key@, vv)]
                            + s.skip(i + 1)));
                    }
                    self.entries = entries;
                    return;
                },
                KeyOrder::Greater => {
                    proof {
                        assert(s[i as int] == attr_entry(entries@[i as int]));
                        assert(key_lt(key@, s[i as int].0));
                        lemma_insert_sorted_after(s, key@, vv, i as int);
                        assert(s.skip(i as int)[0] == s[i as int]);
                    }
                    entries.insert(i, (key.to_owned(), value));
                    proof {
                        assert(attr_entries(entries@) =~= s.take(i as int) + (seq![(key@, vv)]
                            + s.skip(i as int)));
                    }
                    self.entries = entries;
                    return;
                },
            }
        }
        proof {
            lemma_insert_sorted_after(s, key@, vv, i as int);
            assert(s.skip(i as int) =~= Seq::<(Seq<char>, AttrV)>::empty());
            assert(s.take(i as int) =~= s);
        }
        entries.push((key.to_owned(), value));
        assert(attr_entries(entries@) =~= s + seq![(key@, vv)]);
        self.entries = entries;
    }

    /// Look up an attribute by key.
    pub fn get(&self, key: &str) -> (r: Option<&AttributeValue>)
        ensures
            r matches Some(v) ==> self@.contains_key(key@) && v@ == self@[key@],
            r is None ==> !self@.contains_key(key@),
    {
        proof {
            use_type_invariant(self);
            lemma_map_of_dom(self.entries());
        }
        let ghost s = self.entries();
        let kb = key.as_bytes();
        let mut i: usize = 0;
        while i < self.entries.len()
            invariant
                s == self.entries(),
                sorted(s),
                kb@ == encode_utf8(key@),
                i <= self.entries@.len(),
                forall|j: int| 0 <= j < i ==> #[trigger] s[j].0 != key@,
            decreases self.entries@.len() - i,
        {
            assert(s[i as int] == attr_entry(self.entries@[i as int]));
            match compare_key_bytes(self.entries[i].0.as_str().as_bytes(), kb) {
                KeyOrder::Equal => {
                    proof {
                        encode_utf8_decode_utf8(s[i as int].0);
                        encode_utf8_decode_utf8(key@);
                        lemma_map_of_get(s, i as int);
                    }
                    return Some(&self.entries[i].1);
                },
                _ => {
                    proof {
                        lemma_key_order(s[i as int].0, key@, key@);
                    }
                },
            }
            i = i + 1;
        }
        None
    }

    /// Borrow an attribute as a string slice, if present and string-typed.
    pub fn get_str(&self, key: &str) -> (r: Option<&str>)
        ensures
            r matches Some(v) ==> self@.contains_key(key@) && self@[key@] == AttrV::Str(v@),
            r is None ==> !(self@.contains_key(key@) && self@[key@] is Str),
    {
        match self.get(key) {
            Some(value) => value.as_str(),
            None => None,
        }
    }

    /// The attributes in key order.
    pub fn iter(&self) -> (r: &[(String, AttributeValue)])
        ensures
            attr_entries(r@) == self.entries(),
    {
        self.entries.as_slice()
    }

    /// The number of attributes.
    pub fn len(&self) -> (n: usize)
        ensures
            n == self@.dom().len(),
    {
        proof {
            use_type_invariant(self);
            lemma_map_of_dom(self.entries());
        }
        self.entries.len()
    }

    /// Whether there are no attributes.
    pub fn is_empty(&self) -> (b: bool)
        ensures
            b == (self@.dom().len() == 0),
    {
        proof {
            use_type_invariant(self);
            lemma_map_of_dom(self.entries());
        }
        self.entries.len() == 0
    }
}

impl Clone for Attributes {
    fn clone(&self) -> (a: Attributes)
        ensures
            a.entries() == self.entries(),
            a@ == self@,
    {
        proof {
            use_type_invariant(self);
        }
        let mut entries: Vec<(String, AttributeValue)> = Vec::new();
        let mut i: usize = 0;
        while i < self.entries.len()
            invariant
                i <= self.entries@.len(),
                entries@.len() == i,
                forall|j: int| 0 <= j < i ==> #[trigger] attr_entry(entries@[j]) == attr_entry(
                    self.entries@[j],
                ),
            decreases self.entries@.len() - i,
        {
            let k = self.entries[i].0.clone();
            let v = self.entries[i].1.clone();
            entries.push((k, v));
            i = i + 1;
        }
        assert(attr_entries(entries@) =~= self.entries());
        Attributes { entries }
    }
}

} // verus!
