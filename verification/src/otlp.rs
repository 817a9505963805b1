//! OTLP → Argus mapping.
//!
//! An OTLP trace export (resource → scope → span) is flattened into Argus
//! spans, each carrying its resource. The mapping is transport-agnostic: it
//! reads the export as plain values, whatever decoded it (protobuf or
//! OTLP/JSON). Decoding an OTLP/HTTP body picks the format by content type.

use vstd::prelude::*;
use crate::attributes::{AttrV, AttributeValue, Attributes};
use crate::labels::map_of;
use crate::resource::Resource;
use crate::timestamp::Timestamp;
use crate::text::push_str;
use crate::token::chars_of;
use crate::trace::{Span, SpanId, SpanKind, SpanStatus, SpanV, TraceId, to_array16, to_array8};
use opentelemetry_proto::tonic::collector::trace::v1::ExportTraceServiceRequest;
use prost::Message;

verus! {

/// An OTLP `AnyValue`, as far as Argus reads it. Nested key/value lists, raw
/// bytes and string-table indices (and a missing value) are `Unsupported`.
/// A double is held as the IEEE-754 bit pattern of the `f64` it stands for.
#[derive(Debug, PartialEq)]
pub enum OtlpValue {
    String(String),
    Bool(bool),
    Int(i64),
    Double(u64),
    Array(Vec<OtlpValue>),
    Unsupported,
}

/// An OTLP `KeyValue`.
#[derive(Debug, PartialEq)]
pub struct OtlpKeyValue {
    pub key: String,
    pub value: OtlpValue,
}

/// An OTLP span: the fields Argus maps.
#[derive(Debug, PartialEq)]
pub struct OtlpSpan {
    pub trace_id: Vec<u8>,
    pub span_id: Vec<u8>,
    pub parent_span_id: Vec<u8>,
    pub name: String,
    pub kind: i32,
    pub start_time_unix_nano: u64,
    pub end_time_unix_nano: u64,
    pub attributes: Vec<OtlpKeyValue>,
    /// The status code, when the span has a status.
    pub status_code: Option<i32>,
}

/// The spans of one resource, grouped by instrumentation scope.
#[derive(Debug, PartialEq)]
pub struct OtlpResourceSpans {
    /// The resource's attributes, when the resource is present.
    pub resource: Option<Vec<OtlpKeyValue>>,
    pub scope_spans: Vec<Vec<OtlpSpan>>,
}

/// An OTLP trace export request.
#[derive(Debug, PartialEq)]
pub struct OtlpExport {
    pub resource_spans: Vec<OtlpResourceSpans>,
}

// ---------------------------------------------------------------------------
// The mapping, as values.
// ---------------------------------------------------------------------------

/// The attribute value an OTLP value maps to, if any; arrays keep the
/// elements that map.
pub open spec fn mapped_value(v: OtlpValue) -> Option<AttrV>
    decreases v, 0nat,
{
    match v {
        OtlpValue::String(s) => Some(AttrV::Str(s@)),
        OtlpValue::Bool(b) => Some(AttrV::Bool(b)),
        OtlpValue::Int(i) => Some(AttrV::Int(i)),
        OtlpValue::Double(bits) => Some(AttrV::Double(bits)),
        OtlpValue::Array(items) => Some(AttrV::Array(mapped_values(items@, items@.len()))),
        OtlpValue::Unsupported => None,
    }
}

/// The mapped values of the first `n` items, skipping those that do not map.
pub open spec fn mapped_values(items: Seq<OtlpValue>, n: nat) -> Seq<AttrV>
    decreases items, n,
{
    if n == 0 || n > items.len() {
        Seq::empty()
    } else {
        match mapped_value(items[n - 1]) {
            Some(v) => mapped_values(items, (n - 1) as nat).push(v),
            None => mapped_values(items, (n - 1) as nat),
        }
    }
}

/// The attributes a list of key/values maps to: later keys replace earlier
/// ones, and values that do not map are skipped.
pub open spec fn mapped_attributes(kvs: Seq<OtlpKeyValue>) -> Map<Seq<char>, AttrV>
    decreases kvs.len(),
{
    if kvs.len() == 0 {
        Map::empty()
    } else {
        match mapped_value(kvs.last().value) {
            Some(v) => mapped_attributes(kvs.drop_last()).insert(kvs.last().key@, v),
            None => mapped_attributes(kvs.drop_last()),
        }
    }
}

/// The resource an optional OTLP resource maps to.
pub open spec fn mapped_resource(r: Option<Vec<OtlpKeyValue>>) -> Map<Seq<char>, AttrV> {
    match r {
        Some(kvs) => mapped_attributes(kvs@),
        None => Map::empty(),
    }
}

/// The Argus kind of an OTLP span kind code.
pub open spec fn spec_map_kind(kind: i32) -> SpanKind {
    if kind == 2 {
        SpanKind::Server
    } else if kind == 3 {
        SpanKind::Client
    } else if kind == 4 {
        SpanKind::Producer
    } else if kind == 5 {
        SpanKind::Consumer
    } else {
        SpanKind::Internal
    }
}

/// OpenTelemetry's numbering of span kinds (`SPAN_KIND_INTERNAL` = 1,
/// `SERVER` = 2, `CLIENT` = 3, `PRODUCER` = 4, `CONSUMER` = 5).
pub open spec fn otlp_kind_code(k: SpanKind) -> i32 {
    match k {
        SpanKind::Internal => 1,
        SpanKind::Server => 2,
        SpanKind::Client => 3,
        SpanKind::Producer => 4,
        SpanKind::Consumer => 5,
    }
}

/// Mapping OTLP span kinds undoes OpenTelemetry's numbering: each kind's
/// code maps back to that kind, the known codes `1..=5` map to five distinct
/// kinds, and any other code (`SPAN_KIND_UNSPECIFIED` and unknown values)
/// maps to `Internal`.
pub proof fn lemma_map_kind(k: SpanKind, a: i32, b: i32)
    ensures
        spec_map_kind(otlp_kind_code(k)) == k,
        1 <= a <= 5 && 1 <= b <= 5 && a != b ==> spec_map_kind(a) != spec_map_kind(b),
        !(1 <= a <= 5) ==> spec_map_kind(a) == SpanKind::Internal,
{
}

/// The Argus status of an OTLP status code.
pub open spec fn spec_map_status(code: Option<i32>) -> SpanStatus {
    if code == Some(2i32) {
        SpanStatus::Error
    } else if code == Some(1i32) {
        SpanStatus::Okay
    } else {
        SpanStatus::Unset
    }
}

/// The Argus span an OTLP span maps to under `resource`, or `None` when its
/// trace or span id has the wrong length. A parent id that is not eight
/// bytes long (a root span's is empty) means no parent.
pub open spec fn mapped_span(s: OtlpSpan, resource: Map<Seq<char>, AttrV>) -> Option<SpanV> {
    if s.trace_id@.len() == 16 && s.span_id@.len() == 8 {
        Some(
            SpanV {
                trace_id: s.trace_id@,
                span_id: s.span_id@,
                parent_span_id: if s.parent_span_id@.len() == 8 {
                    Some(s.parent_span_id@)
                } else {
                    None
                },
                name: s.name@,
                kind: spec_map_kind(s.kind),
                start: s.start_time_unix_nano,
                end: s.end_time_unix_nano,
                status: spec_map_status(s.status_code),
                attributes: mapped_attributes(s.attributes@),
                resource,
            },
        )
    } else {
        None
    }
}

/// The spans of one scope that map, in order.
pub open spec fn scope_spans_view(spans: Seq<OtlpSpan>, resource: Map<Seq<char>, AttrV>) -> Seq<SpanV>
    decreases spans.len(),
{
    if spans.len() == 0 {
        Seq::empty()
    } else {
        match mapped_span(spans.last(), resource) {
            Some(v) => scope_spans_view(spans.drop_last(), resource).push(v),
            None => scope_spans_view(spans.drop_last(), resource),
        }
    }
}

/// The spans of a list of scopes, in order.
pub open spec fn scopes_view(scopes: Seq<Vec<OtlpSpan>>, resource: Map<Seq<char>, AttrV>) -> Seq<SpanV>
    decreases scopes.len(),
{
    if scopes.len() == 0 {
        Seq::empty()
    } else {
        scopes_view(scopes.drop_last(), resource) + scope_spans_view(scopes.last()@, resource)
    }
}

/// The spans of a list of resources, in order, each with its resource.
pub open spec fn export_view(rs: Seq<OtlpResourceSpans>) -> Seq<SpanV>
    decreases rs.len(),
{
    if rs.len() == 0 {
        Seq::empty()
    } else {
        export_view(rs.drop_last()) + scopes_view(
            rs.last().scope_spans@,
            mapped_resource(rs.last().resource),
        )
    }
}

// ---------------------------------------------------------------------------
// The mapping.
// ---------------------------------------------------------------------------

/// The Argus kind of an OTLP span kind code.
pub fn map_kind(kind: i32) -> (k: SpanKind)
    ensures
        k == spec_map_kind(kind),
{
    match kind {
        2 => SpanKind::Server,
        3 => SpanKind::Client,
        4 => SpanKind::Producer,
        5 => SpanKind::Consumer,
        _ => SpanKind::Internal,
    }
}

/// The Argus status of an OTLP status code.
pub fn map_status(code: Option<i32>) -> (s: SpanStatus)
    ensures
        s == spec_map_status(code),
{
    match code {
        Some(2) => SpanStatus::Error,
        Some(1) => SpanStatus::Okay,
        _ => SpanStatus::Unset,
    }
}

/// The attribute value an OTLP value maps to, if any.
#[verifier::loop_isolation(false)]
pub fn map_value(value: &OtlpValue) -> (r: Option<AttributeValue>)
    ensures
        match r {
            Some(a) => mapped_value(*value) == Some(a@),
            None => mapped_value(*value) is None,
        },
    decreases value,
{
    match value {
        OtlpValue::String(s) => Some(AttributeValue::String(s.clone())),
        OtlpValue::Bool(b) => Some(AttributeValue::Bool(*b)),
        OtlpValue::Int(i) => Some(AttributeValue::Int(*i)),
        OtlpValue::Double(bits) => Some(AttributeValue::Double(*bits)),
        OtlpValue::Array(items) => {
            let mut out: Vec<AttributeValue> = Vec::new();
            let mut i: usize = 0;
            while i < items.len()
                invariant
                    i <= items@.len(),
                    crate::attributes::attrs_view(out@, out@.len()) == mapped_values(
                        items@,
                        i as nat,
                    ),
                decreases items@.len() - i,
            {
                proof {
                    assert(decreases_to!(*value => *items));
                    assert(decreases_to!(*items => items@));
                    assert(decreases_to!(items@ => items@[i as int]));
                }
                match map_value(&items[i]) {
                    Some(a) => {
                        let ghost before = out@;
                        out.push(a);
                        proof {
                            crate::attributes::lemma_attrs_view_push(before, a);
                        }
                    },
                    None => {},
                }
                i = i + 1;
            }
            Some(AttributeValue::Array(out))
        },
        OtlpValue::Unsupported => None,
    }
}

/// The attributes a list of key/values maps to.
pub fn map_attributes(kvs: &Vec<OtlpKeyValue>) -> (a: Attributes)
    ensures
        a@ == mapped_attributes(kvs@),
{
    let mut mapped = Attributes::new();
    let mut i: usize = 0;
    while i < kvs.len()
        invariant
            i <= kvs@.len(),
            mapped@ == mapped_attributes(kvs@.take(i as int)),
        decreases kvs@.len() - i,
    {
        proof {
            let t = kvs@.take(i + 1);
            assert(t.drop_last() =~= kvs@.take(i as int));
            assert(t.last() == kvs@[i as int]);
        }
        match map_value(&kvs[i].value) {
            Some(value) => {
                mapped.insert(kvs[i].key.as_str(), value);
            },
            None => {},
        }
        i = i + 1;
    }
    assert(kvs@.take(i as int) =~= kvs@);
    mapped
}

/// The resource an optional OTLP resource maps to.
pub fn map_resource(resource: &Option<Vec<OtlpKeyValue>>) -> (r: Resource)
    ensures
        r@ == mapped_resource(*resource),
{
    match resource {
        Some(kvs) => {
            let mut mapped = Resource::new();
            let mut i: usize = 0;
            while i < kvs.len()
                invariant
                    i <= kvs@.len(),
                    mapped@ == mapped_attributes(kvs@.take(i as int)),
                decreases kvs@.len() - i,
            {
                proof {
                    let t = kvs@.take(i + 1);
                    assert(t.drop_last() =~= kvs@.take(i as int));
                    assert(t.last() == kvs@[i as int]);
                }
                match map_value(&kvs[i].value) {
                    Some(value) => {
                        mapped = mapped.with(kvs[i].key.as_str(), value);
                    },
                    None => {},
                }
                i = i + 1;
            }
            assert(kvs@.take(i as int) =~= kvs@);
            mapped
        },
        None => Resource::new(),
    }
}

/// The Argus span an OTLP span maps to, or `None` when its trace or span id
/// is malformed.
pub fn map_span(span: &OtlpSpan, resource: &Resource) -> (r: Option<Span>)
    ensures
        match r {
            Some(s) => mapped_span(*span, resource@) == Some(s@),
            None => mapped_span(*span, resource@) is None,
        },
{
    if span.trace_id.len() != 16 || span.span_id.len() != 8 {
        return None;
    }
    let parent_span_id = if span.parent_span_id.len() == 8 {
        Some(SpanId::from_bytes(to_array8(&span.parent_span_id)))
    } else {
        None
    };
    Some(
        Span {
            trace_id: TraceId::from_bytes(to_array16(&span.trace_id)),
            span_id: SpanId::from_bytes(to_array8(&span.span_id)),
            parent_span_id,
            name: span.name.clone(),
            kind: map_kind(span.kind),
            start: Timestamp::from_unix_nanos(span.start_time_unix_nano),
            end: Timestamp::from_unix_nanos(span.end_time_unix_nano),
            status: map_status(span.status_code),
            attributes: map_attributes(&span.attributes),
            resource: resource.clone(),
        },
    )
}

/// Flatten an OTLP trace export (resource → scope → span) into Argus spans,
/// attaching each span's resource. Spans with malformed trace or span ids
/// are dropped rather than failing the whole batch.
pub fn spans_from_export(request: &OtlpExport) -> (spans: Vec<Span>)
    ensures
        crate::traces::spans_view(spans@) == export_view(request.resource_spans@),
{
    let rs = &request.resource_spans;
    let mut spans: Vec<Span> = Vec::new();
    let mut r: usize = 0;
    while r < rs.len()
        invariant
            r <= rs@.len(),
            crate::traces::spans_view(spans@) == export_view(rs@.take(r as int)),
        decreases rs@.len() - r,
    {
        let resource = map_resource(&rs[r].resource);
        let scopes = &rs[r].scope_spans;
        let ghost head = crate::traces::spans_view(spans@);
        let mut s: usize = 0;
        while s < scopes.len()
            invariant
                s <= scopes@.len(),
                crate::traces::spans_view(spans@) == head + scopes_view(
                    scopes@.take(s as int),
                    resource@,
                ),
            decreases scopes@.len() - s,
        {
            let list = &scopes[s];
            let ghost mid = crate::traces::spans_view(spans@);
            let mut k: usize = 0;
            while k < list.len()
                invariant
                    k <= list@.len(),
                    crate::traces::spans_view(spans@) == mid + scope_spans_view(
                        list@.take(k as int),
                        resource@,
                    ),
                decreases list@.len() - k,
            {
                proof {
                    let t = list@.take(k + 1);
                    assert(t.drop_last() =~= list@.take(k as int));
                    assert(t.last() == list@[k as int]);
                }
                match map_span(&list[k], &resource) {
                    Some(mapped) => {
                        let ghost before = spans@;
                        spans.push(mapped);
                        assert(crate::traces::spans_view(spans@) =~= crate::traces::spans_view(
                            before,
                        ).push(mapped@));
                    },
                    None => {},
                }
                k = k + 1;
            }
            proof {
                assert(list@.take(k as int) =~= list@);
                let t = scopes@.take(s + 1);
                assert(t.drop_last() =~= scopes@.take(s as int));
                assert(t.last() == scopes@[s as int]);
            }
            s = s + 1;
        }
        proof {
            assert(scopes@.take(s as int) =~= scopes@);
            let t = rs@.take(r + 1);
            assert(t.drop_last() =~= rs@.take(r as int));
            assert(t.last() == rs@[r as int]);
        }
        r = r + 1;
    }
    assert(rs@.take(r as int) =~= rs@);
    spans
}

// ---------------------------------------------------------------------------
// Decoding an OTLP/HTTP body.
// ---------------------------------------------------------------------------

/// The decoded OTLP trace export request (opentelemetry-proto); opaque here.
#[verifier::external_type_specification]
#[verifier::external_body]
pub struct ExExportTraceServiceRequest(ExportTraceServiceRequest);

/// prost's protobuf decoding error; opaque here.
#[verifier::external_type_specification]
#[verifier::external_body]
pub struct ExDecodeError(prost::DecodeError);

/// serde_json's error; opaque here.
#[verifier::external_type_specification]
#[verifier::external_body]
pub struct ExJsonError(serde_json::Error);

/// Whether prost decodes `body` as a protobuf export request.
pub uninterp spec fn protobuf_decodes(body: Seq<u8>) -> bool;

/// The request prost decodes from `body`, where it decodes one.
pub uninterp spec fn protobuf_request(body: Seq<u8>) -> ExportTraceServiceRequest;

/// Whether serde_json reads `body` as an OTLP/JSON export request.
pub uninterp spec fn json_decodes(body: Seq<u8>) -> bool;

/// The request serde_json reads from `body`, where it reads one.
pub uninterp spec fn json_request(body: Seq<u8>) -> ExportTraceServiceRequest;

/// Decodes a protobuf export request with `prost::Message::decode`. Decoding
/// reads nothing but the bytes, so whether it succeeds, and the request it
/// gives, are functions of them; the request's contents are opaque here.
#[verifier::external_body]
fn decode_protobuf(body: &[u8]) -> (r: Result<ExportTraceServiceRequest, prost::DecodeError>)
    ensures
        r is Ok <==> protobuf_decodes(body@),
        r matches Ok(x) ==> x == protobuf_request(body@),
{
    ExportTraceServiceRequest::decode(body)
}

/// Reads an OTLP/JSON export request with `serde_json::from_slice`. Reading
/// depends on nothing but the bytes, so whether it succeeds, and the request
/// it gives, are functions of them; the request's contents are opaque here.
#[verifier::external_body]
fn decode_json(body: &[u8]) -> (r: Result<ExportTraceServiceRequest, serde_json::Error>)
    ensures
        r is Ok <==> json_decodes(body@),
        r matches Ok(x) ==> x == json_request(body@),
{
    serde_json::from_slice(body)
}

/// The text of a protobuf decoding error (its `Display`). Nothing is
/// promised of the text.
#[verifier::external_body]
fn protobuf_error_text(error: &prost::DecodeError) -> (text: String) {
    error.to_string()
}

/// The text of a JSON error (its `Display`). Nothing is promised of the text.
#[verifier::external_body]
fn json_error_text(error: &serde_json::Error) -> (text: String) {
    error.to_string()
}

/// Why an OTLP payload could not be decoded.
pub enum OtlpError {
    Protobuf(prost::DecodeError),
    Json(serde_json::Error),
}

/// The media type that marks an OTLP/JSON body.
pub open spec fn json_media_type() -> Seq<char> {
    seq!['a', 'p', 'p', 'l', 'i', 'c', 'a', 't', 'i', 'o', 'n', '/', 'j', 's', 'o', 'n']
}

/// Whether a content type names OTLP/JSON: it starts with
/// `application/json` (parameters such as a charset may follow).
pub open spec fn is_json_content_type(content_type: Option<Seq<char>>) -> bool {
    match content_type {
        Some(ct) => json_media_type().is_prefix_of(ct),
        None => false,
    }
}

/// The content type as a value.
pub open spec fn content_type_view(content_type: Option<&str>) -> Option<Seq<char>> {
    match content_type {
        Some(ct) => Some(ct@),
        None => None,
    }
}

/// Whether a content type names OTLP/JSON.
fn names_json(content_type: Option<&str>) -> (b: bool)
    ensures
        b == is_json_content_type(content_type_view(content_type)),
{
    match content_type {
        None => false,
        Some(ct) => {
            let chars = chars_of(ct);
            let expected = chars_of("application/json");
            proof {
                reveal_strlit("application/json");
                assert(expected@ =~= json_media_type());
            }
            if chars.len() < expected.len() {
                return false;
            }
            let mut i: usize = 0;
            while i < expected.len()
                invariant
                    i <= expected@.len() <= chars@.len(),
                    expected@ == json_media_type(),
                    chars@ == ct@,
                    content_type == Some(ct),
                    forall|j: int| 0 <= j < i ==> chars@[j] == expected@[j],
                decreases expected@.len() - i,
            {
                if chars[i] != expected[i] {
                    assert(ct@.subrange(0, expected@.len() as int)[i as int] == ct@[i as int]);
                    return false;
                }
                i = i + 1;
            }
            assert(chars@.take(expected@.len() as int) =~= expected@);
            true
        },
    }
}

/// Decode an OTLP/HTTP trace export body: OTLP/JSON when the content type
/// says so, protobuf otherwise (the OTLP/HTTP default).
pub fn decode_trace_export(content_type: Option<&str>, body: &[u8]) -> (r: Result<
    ExportTraceServiceRequest,
    OtlpError,
>)
    ensures
        is_json_content_type(content_type_view(content_type)) ==> {
            &&& r is Ok <==> json_decodes(body@)
            &&& !(r matches Err(OtlpError::Protobuf(_)))
        },
        !is_json_content_type(content_type_view(content_type)) ==> {
            &&& r is Ok <==> protobuf_decodes(body@)
            &&& !(r matches Err(OtlpError::Json(_)))
        },
        r matches Ok(x) ==> x == if is_json_content_type(content_type_view(content_type)) {
            json_request(body@)
        } else {
            protobuf_request(body@)
        },
{
    if names_json(content_type) {
        match decode_json(body) {
            Ok(request) => Ok(request),
            Err(error) => Err(OtlpError::Json(error)),
        }
    } else {
        match decode_protobuf(body) {
            Ok(request) => Ok(request),
            Err(error) => Err(OtlpError::Protobuf(error)),
        }
    }
}

impl OtlpError {
    /// The error's message: which format failed, then the decoder's own text.
    pub fn message(&self) -> (m: String)
        ensures
            m@.take(prefix_of(self).len() as int) == prefix_of(self),
            m@.len() >= prefix_of(self).len(),
    {
        let mut m = String::new();
        match self {
            OtlpError::Protobuf(error) => {
                push_str(&mut m, "invalid OTLP protobuf: ");
                proof {
                    reveal_strlit("invalid OTLP protobuf: ");
                }
                let ghost head = m@;
                push_str(&mut m, protobuf_error_text(error).as_str());
                assert(m@.take(head.len() as int) =~= head);
            },
            OtlpError::Json(error) => {
                push_str(&mut m, "invalid OTLP json: ");
                proof {
                    reveal_strlit("invalid OTLP json: ");
                }
                let ghost head = m@;
                push_str(&mut m, json_error_text(error).as_str());
                assert(m@.take(head.len() as int) =~= head);
            },
        }
        m
    }
}

/// The fixed start of an error's message.
pub open spec fn prefix_of(e: &OtlpError) -> Seq<char> {
    match e {
        OtlpError::Protobuf(_) => "invalid OTLP protobuf: "@,
        OtlpError::Json(_) => "invalid OTLP json: "@,
    }
}

} // verus!
