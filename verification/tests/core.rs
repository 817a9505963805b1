use argus::attributes::{AttributeValue, Attributes};
use argus::batch::{RequestBatch, mark_failure};
use argus::labels::Labels;
use argus::log::{LogRecord, Severity};
use argus::metric::{MetricKind, MetricPoint, Sample};
use argus::resource::{self, Resource};
use argus::signal::Signal;
use argus::timestamp::Timestamp;
use argus::trace::{Span, SpanId, SpanKind, SpanStatus, TraceId};

#[test]
fn series_id_is_order_independent() {
    let a = Labels::new().with("method", "GET").with("route", "/pay");
    let b = Labels::new().with("route", "/pay").with("method", "GET");
    assert_eq!(a.series_id("http_requests"), b.series_id("http_requests"));
}

#[test]
fn series_id_separates_name_from_labels() {
    let same_labels = Labels::new().with("route", "/pay");
    assert_ne!(
        same_labels.series_id("http_requests"),
        same_labels.series_id("http_errors")
    );
}

#[test]
fn series_id_changes_with_label_values() {
    let pay = Labels::new().with("route", "/pay");
    let cart = Labels::new().with("route", "/cart");
    assert_ne!(
        pay.series_id("http_requests"),
        cart.series_id("http_requests")
    );
}

#[test]
fn labels_keep_keys_sorted_and_replace_values() {
    let mut labels = Labels::new().with("route", "/pay").with("method", "GET");
    labels.insert("route", "/cart");
    let keys: Vec<&str> = labels.iter().iter().map(|(k, _)| k.as_str()).collect();
    assert_eq!(keys, vec!["method", "route"]);
    assert_eq!(labels.get("route"), Some("/cart"));
    assert_eq!(labels.get("status"), None);
    assert_eq!(labels.len(), 2);
    assert!(!labels.is_empty());
    assert!(Labels::new().is_empty());
}

#[test]
fn series_id_is_fnv_over_the_canonical_encoding() {
    // FNV-1a of "m" 0xff "k" '=' "v" 0x00, computed by hand.
    let mut hash: u64 = 0xcbf2_9ce4_8422_2325;
    for byte in [b'm', 0xff, b'k', b'=', b'v', 0] {
        hash ^= byte as u64;
        hash = hash.wrapping_mul(0x0000_0100_0000_01b3);
    }
    assert_eq!(Labels::new().with("k", "v").series_id("m").get(), hash);
}

#[test]
fn severity_orders_least_to_most_severe() {
    assert!(Severity::Trace < Severity::Debug);
    assert!(Severity::Error > Severity::Warn);
    assert!(Severity::Fatal > Severity::Error);
}

#[test]
fn millis_and_nanos_agree() {
    let ts = Timestamp::from_unix_millis(1_500);
    assert_eq!(ts.as_unix_nanos(), 1_500_000_000);
    assert_eq!(ts.as_unix_millis(), 1_500);
}

#[test]
fn difference_saturates_instead_of_underflowing() {
    let earlier = Timestamp::from_unix_nanos(100);
    let later = Timestamp::from_unix_nanos(250);
    assert_eq!(later.saturating_nanos_since(earlier), 150);
    assert_eq!(earlier.saturating_nanos_since(later), 0);
}

#[test]
fn now_is_after_the_epoch() {
    assert!(Timestamp::now() > Timestamp::epoch());
}

#[test]
fn clock_readings_clamp_and_keep_low_bits() {
    let reading = 1_700_000_000_123_456_789u128;
    assert_eq!(
        Timestamp::from_elapsed_nanos(Some(reading)).as_unix_nanos(),
        1_700_000_000_123_456_789
    );
    assert_eq!(Timestamp::from_elapsed_nanos(None), Timestamp::epoch());
    let past_range = (1u128 << 64) + 7;
    assert_eq!(Timestamp::from_elapsed_nanos(Some(past_range)).as_unix_nanos(), 7);
}

#[test]
fn millis_round_trip_below_saturation() {
    let ms = 1_712_345_678_901u64;
    assert_eq!(Timestamp::from_unix_millis(ms).as_unix_millis(), ms);
    let largest = u64::MAX / 1_000_000;
    assert_eq!(Timestamp::from_unix_millis(largest).as_unix_millis(), largest);
}

#[test]
fn millis_saturate_at_the_largest_instant() {
    assert_eq!(Timestamp::from_unix_millis(u64::MAX).as_unix_nanos(), u64::MAX);
}

#[test]
fn trace_id_hex_round_trip() {
    let id = TraceId::from_bytes([
        0x4b, 0xf9, 0x2f, 0x35, 0x77, 0xb3, 0x4d, 0xa6, 0xa3, 0xce, 0x92, 0x9d, 0x0e, 0x0e, 0x47,
        0x36,
    ]);
    assert_eq!(id.to_hex(), "4bf92f3577b34da6a3ce929d0e0e4736");
    assert_eq!(TraceId::from_hex(&id.to_hex()), Some(id));
}

#[test]
fn from_hex_rejects_bad_input() {
    assert_eq!(TraceId::from_hex("abc"), None); // wrong length
    assert_eq!(TraceId::from_hex(&"zz".repeat(16)), None); // non-hex characters
    assert_eq!(SpanId::from_hex("00"), None); // wrong length for a span id
}

#[test]
fn hex_accepts_either_case() {
    assert_eq!(
        SpanId::from_hex("ABCDEF0123456789"),
        Some(SpanId::from_bytes([0xab, 0xcd, 0xef, 0x01, 0x23, 0x45, 0x67, 0x89]))
    );
    assert_eq!(SpanId::from_bytes([0xab; 8]).to_hex(), "abababababababab");
    assert!(TraceId::zero().is_zero());
}

fn span(parent: Option<SpanId>, start: u64, end: u64) -> Span {
    Span {
        trace_id: TraceId::from_bytes([1; 16]),
        span_id: SpanId::from_bytes([2; 8]),
        parent_span_id: parent,
        name: "GET /pay".to_owned(),
        kind: SpanKind::Server,
        start: Timestamp::from_unix_nanos(start),
        end: Timestamp::from_unix_nanos(end),
        status: SpanStatus::Okay,
        attributes: Attributes::new(),
        resource: Resource::service("payments"),
    }
}

#[test]
fn span_duration_and_root() {
    let span = span(None, 1_000, 4_000);
    assert!(span.is_root());
    assert_eq!(span.duration_nanos(), 3_000);
}

#[test]
fn span_duration_saturates_under_clock_skew() {
    let skewed = span(Some(SpanId::from_bytes([3; 8])), 5_000, 4_000);
    assert!(!skewed.is_root());
    assert_eq!(skewed.duration_nanos(), 0);
}

#[test]
fn builder_and_typed_accessors() {
    let attributes = Attributes::new()
        .with("http.method", AttributeValue::String("GET".to_owned()))
        .with("http.status_code", AttributeValue::Int(200))
        .with("error", AttributeValue::Bool(false));

    assert_eq!(attributes.get_str("http.method"), Some("GET"));
    assert_eq!(
        attributes
            .get("http.status_code")
            .and_then(AttributeValue::as_int),
        Some(200)
    );
    assert_eq!(
        attributes.get("error").and_then(AttributeValue::as_bool),
        Some(false)
    );
    assert_eq!(attributes.len(), 3);
    assert!(!attributes.is_empty());
}

#[test]
fn attributes_replace_and_read_doubles() {
    let attributes = Attributes::new()
        .with("latency_ms", AttributeValue::Double(12.5_f64.to_bits()))
        .with("latency_ms", AttributeValue::Double(3.25_f64.to_bits()));
    assert_eq!(attributes.len(), 1);
    let bits = attributes.get("latency_ms").and_then(AttributeValue::as_double);
    assert_eq!(bits.map(f64::from_bits), Some(3.25));
    assert_eq!(attributes.get_str("latency_ms"), None);
}

#[test]
fn service_helpers_read_back() {
    let resource = Resource::service("payments")
        .with(resource::HOST_NAME, AttributeValue::String("node-7".to_owned()))
        .with(
            resource::DEPLOYMENT_ENVIRONMENT,
            AttributeValue::String("production".to_owned()),
        );

    assert_eq!(resource.service_name(), Some("payments"));
    assert_eq!(resource.host_name(), Some("node-7"));
    assert_eq!(
        resource
            .attributes()
            .get_str(resource::DEPLOYMENT_ENVIRONMENT),
        Some("production")
    );
}

#[test]
fn empty_resource_has_no_service_name() {
    assert_eq!(Resource::new().service_name(), None);
}

#[test]
fn correlation_flag_tracks_trace_id() {
    let mut record = LogRecord {
        timestamp: Timestamp::now(),
        severity: Severity::Error,
        body: "payment declined".to_owned(),
        attributes: Attributes::new(),
        resource: Resource::service("payments"),
        trace_id: None,
        span_id: None,
    };
    assert!(!record.is_correlated());

    record.trace_id = Some(TraceId::from_bytes([7; 16]));
    assert!(record.is_correlated());
}

fn sample_point() -> MetricPoint {
    MetricPoint::new(
        "cpu_usage_ratio",
        MetricKind::Gauge,
        Labels::new().with("core", "0"),
        Sample::new(Timestamp::from_unix_nanos(42), 0.9_f64.to_bits()),
    )
}

#[test]
fn kind_label_matches_variant() {
    let signal: Signal = sample_point().into();
    assert_eq!(signal.kind(), "metric");
    let log: Signal = LogRecord {
        timestamp: Timestamp::from_unix_nanos(1),
        severity: Severity::Info,
        body: String::new(),
        attributes: Attributes::new(),
        resource: Resource::new(),
        trace_id: None,
        span_id: None,
    }
    .into();
    assert_eq!(log.kind(), "log");
    let span: Signal = span(None, 1, 2).into();
    assert_eq!(span.kind(), "span");
}

#[test]
fn point_series_id_matches_its_labels() {
    let labels = Labels::new().with("route", "/pay");
    let point = MetricPoint::new(
        "http_requests_total",
        MetricKind::Counter,
        labels.clone(),
        Sample::new(Timestamp::from_unix_nanos(1), 1.0_f64.to_bits()),
    );
    assert_eq!(point.series_id(), labels.series_id("http_requests_total"));
}

#[test]
fn batches_flatten_spans_then_metrics_then_logs() {
    let trace_id = TraceId::from_bytes([1; 16]);
    let root = span(None, 0, 5);
    let child = span(Some(SpanId::from_bytes([2; 8])), 1, 2);
    let batch = RequestBatch {
        trace_id,
        route: "/cart",
        spans: vec![root, child],
        metrics: vec![sample_point()],
        logs: Vec::new(),
        failed: false,
    };
    assert_eq!(batch.root().end, Timestamp::from_unix_nanos(5));
    let kinds: Vec<&str> = batch.into_signals().iter().map(|s| s.kind()).collect();
    assert_eq!(kinds, vec!["span", "span", "metric"]);
}

#[test]
fn a_failed_span_marks_the_root_failed() {
    let mut spans = vec![span(None, 0, 10), span(Some(SpanId::from_bytes([2; 8])), 1, 2)];
    assert!(!mark_failure(&mut spans, 0));
    assert_eq!(spans[0].status, SpanStatus::Okay);

    spans[1].status = SpanStatus::Error;
    assert!(mark_failure(&mut spans, 0));
    assert_eq!(spans[0].status, SpanStatus::Error);
    assert_eq!(spans[0].end, Timestamp::from_unix_nanos(10));
    assert_eq!(spans[1].status, SpanStatus::Error);
}
