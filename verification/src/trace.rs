//! Distributed tracing identifiers and span enums.

use vstd::prelude::*;
use vstd::string::StringSliceAdditionalSpecFns;
use crate::hex;
use crate::attributes::{AttrV, Attributes};
use crate::resource::Resource;
use crate::timestamp::Timestamp;

verus! {

/// The bytes of a 16-byte array, as a sequence.
pub open spec fn array16(a: [u8; 16]) -> Seq<u8> {
    a@
}

/// The bytes of a 16-byte vector, as an array.
pub fn to_array16(v: &Vec<u8>) -> (a: [u8; 16])
    requires
        v@.len() == 16,
    ensures
        a@ == v@,
{
    let mut a = [0u8; 16];
    let mut i: usize = 0;
    while i < 16
        invariant
            v@.len() == 16,
            i <= 16,
            a@.len() == 16,
            forall|j: int| 0 <= j < i ==> a@[j] == v@[j],
        decreases 16 - i,
    {
        a[i] = v[i];
        i = i + 1;
    }
    assert(a@ =~= v@);
    a
}

/// The bytes of an 8-byte vector, as an array.
pub fn to_array8(v: &Vec<u8>) -> (a: [u8; 8])
    requires
        v@.len() == 8,
    ensures
        a@ == v@,
{
    let mut a = [0u8; 8];
    let mut i: usize = 0;
    while i < 8
        invariant
            v@.len() == 8,
            i <= 8,
            a@.len() == 8,
            forall|j: int| 0 <= j < i ==> a@[j] == v@[j],
        decreases 8 - i,
    {
        a[i] = v[i];
        i = i + 1;
    }
    assert(a@ =~= v@);
    a
}

/// Whether every byte of a slice is zero.
fn all_zero(bytes: &[u8]) -> (b: bool)
    ensures
        b == (forall|i: int| 0 <= i < bytes@.len() ==> bytes@[i] == 0),
{
    let mut i: usize = 0;
    while i < bytes.len()
        invariant
            i <= bytes@.len(),
            forall|j: int| 0 <= j < i ==> bytes@[j] == 0,
        decreases bytes@.len() - i,
    {
        if bytes[i] != 0 {
            return false;
        }
        i = i + 1;
    }
    true
}

/// A 16-byte trace identifier (W3C Trace Context / OTLP).
#[derive(Debug, Clone, Copy, PartialEq, Eq, Hash)]
pub struct TraceId(pub [u8; 16]);

/// An 8-byte span identifier (W3C Trace Context / OTLP).
#[derive(Debug, Clone, Copy, PartialEq, Eq, Hash)]
pub struct SpanId(pub [u8; 8]);

impl TraceId {
    /// The all-zero identifier: the OTLP "unset" sentinel.
    pub fn zero() -> (id: TraceId)
        ensures
            forall|i: int| 0 <= i < 16 ==> id.0@[i] == 0,
    {
        TraceId([0; 16])
    }

    /// Construct from raw bytes.
    pub fn from_bytes(bytes: [u8; 16]) -> (id: TraceId)
        ensures
            id.0 == bytes,
    {
        TraceId(bytes)
    }

    /// The raw bytes.
    pub fn to_bytes(self) -> (bytes: [u8; 16])
        ensures
            bytes == self.0,
    {
        self.0
    }

    /// Whether every byte is zero.
    pub fn is_zero(&self) -> (b: bool)
        ensures
            b == (forall|i: int| 0 <= i < 16 ==> self.0@[i] == 0),
    {
        all_zero(self.0.as_slice())
    }

    /// Lowercase hex encoding.
    pub fn to_hex(&self) -> (s: String)
        ensures
            s@ == hex::spec_encode(self.0@),
    {
        hex::encode(self.0.as_slice())
    }

    /// Parse from a hex string (either case), returning `None` on the wrong
    /// length or any non-hex character.
    pub fn from_hex(s: &str) -> (r: Option<TraceId>)
        ensures
            r is Some <==> s.spec_bytes().len() == 32 && hex::all_hex(s.spec_bytes()),
            r matches Some(id) ==> id.0@ == hex::spec_decode(s.spec_bytes()),
    {
        match hex::decode(s, 16) {
            Some(v) => Some(TraceId(to_array16(&v))),
            None => None,
        }
    }
}

impl SpanId {
    /// The all-zero identifier: the OTLP "unset" sentinel.
    pub fn zero() -> (id: SpanId)
        ensures
            forall|i: int| 0 <= i < 8 ==> id.0@[i] == 0,
    {
        SpanId([0; 8])
    }

    /// Construct from raw bytes.
    pub fn from_bytes(bytes: [u8; 8]) -> (id: SpanId)
        ensures
            id.0 == bytes,
    {
        SpanId(bytes)
    }

    /// The raw bytes.
    pub fn to_bytes(self) -> (bytes: [u8; 8])
        ensures
            bytes == self.0,
    {
        self.0
    }

    /// Whether every byte is zero.
    pub fn is_zero(&self) -> (b: bool)
        ensures
            b == (forall|i: int| 0 <= i < 8 ==> self.0@[i] == 0),
    {
        all_zero(self.0.as_slice())
    }

    /// Lowercase hex encoding.
    pub fn to_hex(&self) -> (s: String)
        ensures
            s@ == hex::spec_encode(self.0@),
    {
        hex::encode(self.0.as_slice())
    }

    /// Parse from a hex string (either case), returning `None` on the wrong
    /// length or any non-hex character.
    pub fn from_hex(s: &str) -> (r: Option<SpanId>)
        ensures
            r is Some <==> s.spec_bytes().len() == 16 && hex::all_hex(s.spec_bytes()),
            r matches Some(id) ==> id.0@ == hex::spec_decode(s.spec_bytes()),
    {
        match hex::decode(s, 8) {
            Some(v) => Some(SpanId(to_array8(&v))),
            None => None,
        }
    }
}

/// Parsing the hex encoding of an identifier gives the identifier back:
/// for every `id`, `TraceId::from_hex(&id.to_hex()) == Some(id)`.
pub proof fn lemma_trace_id_hex_round_trip(id: TraceId, s: &str)
    requires
        s@ == hex::spec_encode(id.0@),
    ensures
        s.spec_bytes().len() == 32,
        hex::all_hex(s.spec_bytes()),
        hex::spec_decode(s.spec_bytes()) == id.0@,
{
    hex_round_trip(id.0@, s);
}

/// The same round trip for span identifiers.
pub proof fn lemma_span_id_hex_round_trip(id: SpanId, s: &str)
    requires
        s@ == hex::spec_encode(id.0@),
    ensures
        s.spec_bytes().len() == 16,
        hex::all_hex(s.spec_bytes()),
        hex::spec_decode(s.spec_bytes()) == id.0@,
{
    hex_round_trip(id.0@, s);
}

proof fn hex_round_trip(bytes: Seq<u8>, s: &str)
    requires
        s@ == hex::spec_encode(bytes),
    ensures
        s.spec_bytes().len() == 2 * bytes.len(),
        hex::all_hex(s.spec_bytes()),
        hex::spec_decode(s.spec_bytes()) == bytes,
{
    hex::lemma_decode_encode(bytes);
    vstd::string::is_ascii_spec_bytes(s);
    assert(s.spec_bytes() =~= Seq::new(s@.len(), |i: int| s@[i] as u8));
}

/// The role a span plays in a trace (OpenTelemetry `SpanKind`).
#[derive(Debug, Clone, Copy, PartialEq, Eq, Default)]
pub enum SpanKind {
    #[default]
    Internal,
    Server,
    Client,
    Producer,
    Consumer,
}

/// The outcome of the operation a span represents.
#[derive(Debug, Clone, Copy, PartialEq, Eq, Default)]
pub enum SpanStatus {
    #[default]
    Unset,
    /// The operation succeeded (OpenTelemetry's `STATUS_CODE_OK`).
    Okay,
    Error,
}

/// Whether two byte arrays hold the same bytes.
fn same_bytes(a: &[u8], b: &[u8]) -> (r: bool)
    ensures
        r == (a@ == b@),
{
    if a.len() != b.len() {
        return false;
    }
    let mut i: usize = 0;
    while i < a.len()
        invariant
            a@.len() == b@.len(),
            i <= a@.len(),
            forall|j: int| 0 <= j < i ==> a@[j] == b@[j],
        decreases a@.len() - i,
    {
        if a[i] != b[i] {
            return false;
        }
        i = i + 1;
    }
    assert(a@ =~= b@);
    true
}

impl TraceId {
    /// Whether two trace ids are the same.
    pub fn same(&self, other: &TraceId) -> (r: bool)
        ensures
            r == (self.0@ == other.0@),
    {
        same_bytes(self.0.as_slice(), other.0.as_slice())
    }
}

/// A single operation within a trace.
#[derive(Debug, PartialEq)]
pub struct Span {
    pub trace_id: TraceId,
    pub span_id: SpanId,
    pub parent_span_id: Option<SpanId>,
    pub name: String,
    pub kind: SpanKind,
    pub start: Timestamp,
    pub end: Timestamp,
    pub status: SpanStatus,
    pub attributes: Attributes,
    pub resource: Resource,
}

/// A span as a mathematical value.
pub ghost struct SpanV {
    pub trace_id: Seq<u8>,
    pub span_id: Seq<u8>,
    pub parent_span_id: Option<Seq<u8>>,
    pub name: Seq<char>,
    pub kind: SpanKind,
    pub start: u64,
    pub end: u64,
    pub status: SpanStatus,
    pub attributes: Map<Seq<char>, AttrV>,
    pub resource: Map<Seq<char>, AttrV>,
}

impl View for Span {
    type V = SpanV;

    open spec fn view(&self) -> SpanV {
        SpanV {
            trace_id: self.trace_id.0@,
            span_id: self.span_id.0@,
            parent_span_id: match self.parent_span_id {
                Some(p) => Some(p.0@),
                None => None,
            },
            name: self.name@,
            kind: self.kind,
            start: self.start.0,
            end: self.end.0,
            status: self.status,
            attributes: self.attributes@,
            resource: self.resource@,
        }
    }
}

impl Span {
    /// Whether this span is the root of its trace (it has no parent).
    pub fn is_root(&self) -> (b: bool)
        ensures
            b == self.parent_span_id.is_none(),
    {
        self.parent_span_id.is_none()
    }

    /// The span's duration in nanoseconds, saturating at zero when `end`
    /// precedes `start` (clock skew between hosts).
    pub fn duration_nanos(&self) -> (d: u64)
        ensures
            d == (if self.end.0 >= self.start.0 {
                self.end.0 - self.start.0
            } else {
                0
            }),
    {
        self.end.saturating_nanos_since(self.start)
    }
}

impl Clone for Span {
    fn clone(&self) -> (s: Span)
        ensures
            s@ == self@,
    {
        Span {
            trace_id: self.trace_id,
            span_id: self.span_id,
            parent_span_id: self.parent_span_id,
            name: self.name.clone(),
            kind: self.kind,
            start: self.start,
            end: self.end,
            status: self.status,
            attributes: self.attributes.clone(),
            resource: self.resource.clone(),
        }
    }
}

} // verus!
