use argus::attributes::AttributeValue;
use argus::otlp::{
    OtlpError, OtlpExport, OtlpKeyValue, OtlpResourceSpans, OtlpSpan, OtlpValue, spans_from_export,
};
use opentelemetry_proto::tonic::collector::trace::v1::ExportTraceServiceRequest;
use opentelemetry_proto::tonic::trace::v1::{ResourceSpans, ScopeSpans, Span};
use prost::Message;
use argus::trace::{SpanKind, SpanStatus};

fn string_kv(key: &str, value: &str) -> OtlpKeyValue {
    OtlpKeyValue {
        key: key.to_owned(),
        value: OtlpValue::String(value.to_owned()),
    }
}

fn bare_span(trace_id: Vec<u8>, span_id: Vec<u8>, name: &str) -> OtlpSpan {
    OtlpSpan {
        trace_id,
        span_id,
        parent_span_id: Vec::new(),
        name: name.to_owned(),
        kind: 0,
        start_time_unix_nano: 0,
        end_time_unix_nano: 0,
        attributes: Vec::new(),
        status_code: None,
    }
}

#[test]
fn maps_resource_spans_onto_argus_spans() {
    let span = OtlpSpan {
        trace_id: vec![1u8; 16],
        span_id: vec![2u8; 8],
        parent_span_id: vec![3u8; 8],
        name: "payments.charge".to_owned(),
        kind: 3, // SPAN_KIND_CLIENT
        start_time_unix_nano: 1_000,
        end_time_unix_nano: 5_000,
        attributes: vec![string_kv("payment.provider", "stripe")],
        status_code: Some(2), // STATUS_CODE_ERROR
    };
    let request = OtlpExport {
        resource_spans: vec![OtlpResourceSpans {
            resource: Some(vec![string_kv("service.name", "checkout")]),
            scope_spans: vec![vec![span]],
        }],
    };

    let spans = spans_from_export(&request);
    assert_eq!(spans.len(), 1);

    let span = &spans[0];
    assert_eq!(span.name, "payments.charge");
    assert_eq!(span.kind, SpanKind::Client);
    assert_eq!(span.status, SpanStatus::Error);
    assert_eq!(span.start.as_unix_nanos(), 1_000);
    assert!(span.parent_span_id.is_some());
    assert_eq!(span.resource.service_name(), Some("checkout"));
    assert_eq!(span.attributes.get_str("payment.provider"), Some("stripe"));
}

#[test]
fn empty_parent_id_means_root_span() {
    let request = OtlpExport {
        resource_spans: vec![OtlpResourceSpans {
            resource: None,
            scope_spans: vec![vec![bare_span(vec![9u8; 16], vec![8u8; 8], "GET /checkout")]],
        }],
    };

    let spans = spans_from_export(&request);
    assert_eq!(spans.len(), 1);
    assert!(spans[0].parent_span_id.is_none());
    assert_eq!(spans[0].kind, SpanKind::Internal);
}

#[test]
fn malformed_ids_are_dropped_and_values_mapped() {
    let mut good = bare_span(vec![1u8; 16], vec![2u8; 8], "ok");
    good.attributes = vec![
        OtlpKeyValue { key: "n".into(), value: OtlpValue::Int(7) },
        OtlpKeyValue { key: "skip".into(), value: OtlpValue::Unsupported },
        OtlpKeyValue {
            key: "list".into(),
            value: OtlpValue::Array(vec![OtlpValue::Bool(true), OtlpValue::Unsupported, OtlpValue::Double(1.5f64.to_bits())]),
        },
        OtlpKeyValue { key: "n".into(), value: OtlpValue::Int(8) },
    ];
    good.status_code = Some(1);
    let request = OtlpExport {
        resource_spans: vec![
            OtlpResourceSpans {
                resource: None,
                scope_spans: vec![
                    vec![bare_span(vec![1u8; 15], vec![2u8; 8], "short trace id")],
                    vec![good, bare_span(vec![1u8; 16], vec![2u8; 7], "short span id")],
                ],
            },
            OtlpResourceSpans { resource: None, scope_spans: vec![] },
        ],
    };
    let spans = spans_from_export(&request);
    assert_eq!(spans.len(), 1);
    assert_eq!(spans[0].name, "ok");
    assert_eq!(spans[0].status, SpanStatus::Okay);
    assert_eq!(spans[0].attributes.len(), 2);
    assert_eq!(spans[0].attributes.get("n"), Some(&AttributeValue::Int(8)));
    assert_eq!(
        spans[0].attributes.get("list"),
        Some(&AttributeValue::Array(vec![
            AttributeValue::Bool(true),
            AttributeValue::Double(1.5f64.to_bits())
        ]))
    );
}

fn proto_request() -> ExportTraceServiceRequest {
    let span = Span {
        trace_id: vec![1u8; 16],
        span_id: vec![2u8; 8],
        name: "checkout".to_owned(),
        start_time_unix_nano: 10,
        end_time_unix_nano: 20,
        ..Default::default()
    };
    let scope = ScopeSpans { spans: vec![span], ..Default::default() };
    let resource_spans = ResourceSpans { scope_spans: vec![scope], ..Default::default() };
    ExportTraceServiceRequest { resource_spans: vec![resource_spans] }
}

#[test]
fn decodes_protobuf_by_default_and_json_by_content_type() {
    let request = proto_request();
    let bytes = request.encode_to_vec();
    let decoded = argus::otlp::decode_trace_export(None, &bytes);
    assert!(matches!(decoded, Ok(ref r) if *r == request));
    let decoded = argus::otlp::decode_trace_export(Some("application/x-protobuf"), &bytes);
    assert!(matches!(decoded, Ok(ref r) if *r == request));

    let json = serde_json::to_vec(&request).unwrap();
    let decoded = argus::otlp::decode_trace_export(Some("application/json; charset=utf-8"), &json);
    assert!(matches!(decoded, Ok(ref r) if *r == request));
}

#[test]
fn decoding_errors_name_the_format() {
    let garbage = [0xffu8, 0xff, 0xff];
    let err = argus::otlp::decode_trace_export(None, &garbage).err().unwrap();
    assert!(matches!(err, OtlpError::Protobuf(_)));
    assert!(err.message().starts_with("invalid OTLP protobuf: "));
    assert!(err.message().len() > "invalid OTLP protobuf: ".len());

    let err = argus::otlp::decode_trace_export(Some("application/json"), b"{not json").err().unwrap();
    assert!(matches!(err, OtlpError::Json(_)));
    assert!(err.message().starts_with("invalid OTLP json: "));

    // A content type that only almost names JSON goes to the protobuf decoder.
    let err = argus::otlp::decode_trace_export(Some("application/jso"), &garbage).err().unwrap();
    assert!(matches!(err, OtlpError::Protobuf(_)));
}
