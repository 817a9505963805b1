use argus::attributes::Attributes;
use argus::bitstream::{BitReader, BitWriter};
use argus::engine::MemoryEngine;
use argus::gorilla::GorillaChunk;
use argus::index::LabelIndex;
use argus::labels::Labels;
use argus::log::{LogRecord, Severity};
use argus::metric::{MetricKind, MetricPoint, Sample};
use argus::metrics::MetricStore;
use argus::query::{Matcher, Selector, TimeRange};
use argus::resource::Resource;
use argus::rng::Rng;
use argus::signal::Signal;
use argus::stats::StorageStats;
use argus::timestamp::Timestamp;
use argus::trace::{Span, SpanId, SpanKind, SpanStatus, TraceId};

#[test]
fn round_trips_mixed_widths() {
    let mut writer = BitWriter::new();
    writer.write_bit(true);
    writer.write_bits(0b101, 3);
    writer.write_bits(0xDEAD_BEEF, 32);
    writer.write_bits(u64::MAX, 64);
    writer.write_bit(false);

    let bytes = writer.snapshot();
    let mut reader = BitReader::new(&bytes);
    assert_eq!(reader.read_bit(), Some(true));
    assert_eq!(reader.read_bits(3), Some(0b101));
    assert_eq!(reader.read_bits(32), Some(0xDEAD_BEEF));
    assert_eq!(reader.read_bits(64), Some(u64::MAX));
    assert_eq!(reader.read_bit(), Some(false));
}

#[test]
fn reports_exhaustion() {
    let mut writer = BitWriter::new();
    writer.write_bits(0b1, 1);
    let bytes = writer.snapshot();
    let mut reader = BitReader::new(&bytes);
    assert_eq!(reader.read_bit(), Some(true));
    // remaining padding bits read as zero until the byte is exhausted
    for _ in 0..7 {
        assert_eq!(reader.read_bit(), Some(false));
    }
    assert_eq!(reader.read_bit(), None);
}

#[test]
fn bit_len_counts_partial_bytes() {
    let mut writer = BitWriter::new();
    writer.write_bits(0b10110, 5);
    assert_eq!(writer.bit_len(), 5);
    assert_eq!(writer.snapshot(), vec![0b1011_0000]);
    writer.write_bits(0, 3);
    assert_eq!(writer.bit_len(), 8);
}

fn round_trip(samples: &[(u64, f64)]) {
    let mut chunk = GorillaChunk::new();
    for &(timestamp, value) in samples {
        chunk.push(timestamp, value.to_bits());
    }
    assert_eq!(chunk.count(), samples.len());
    let decoded = chunk.samples();
    assert_eq!(decoded.len(), samples.len());
    for (got, want) in decoded.iter().zip(samples) {
        assert_eq!(got.0, want.0, "timestamp mismatch");
        assert_eq!(got.1, want.1.to_bits(), "value mismatch");
    }
}

#[test]
fn empty_and_single() {
    round_trip(&[]);
    round_trip(&[(1_700_000_000_000, 42.0)]);
}

#[test]
fn regular_timestamps_constant_value() {
    let samples: Vec<_> = (0..1_000).map(|i| (1_000 + i * 1_000, 7.5)).collect();
    round_trip(&samples);
}

#[test]
fn irregular_timestamps_random_walk() {
    let mut value = 0.0_f64;
    let mut timestamp = 1_700_000_000_000u64;
    let mut state = 0x1234_5678u64;
    let mut samples = Vec::new();
    for _ in 0..2_000 {
        // cheap xorshift for deterministic pseudo-randomness
        state ^= state << 13;
        state ^= state >> 7;
        state ^= state << 17;
        timestamp += 20 + state % 130;
        value += (state % 1000) as f64 / 500.0 - 1.0;
        samples.push((timestamp, value));
    }
    round_trip(&samples);
}

#[test]
fn monotonic_counter_and_special_floats() {
    let mut samples: Vec<_> = (0..500).map(|i| (1_000 + i * 250, i as f64)).collect();
    samples.push((samples.last().unwrap().0 + 250, f64::MAX));
    samples.push((samples.last().unwrap().0 + 250, -0.0));
    samples.push((samples.last().unwrap().0 + 250, 0.0));
    round_trip(&samples);
}

#[test]
fn actually_compresses() {
    let samples: Vec<_> = (0..1_000).map(|i| (1_000 + i * 1_000, 100.0)).collect();
    let mut chunk = GorillaChunk::new();
    for &(t, v) in &samples {
        chunk.push(t, f64::to_bits(v));
    }
    // 1000 samples of regular timestamps + constant value must be far
    // smaller than the 16 KB a raw (i64, f64) layout would need.
    assert!(
        chunk.encoded_len() < 1_000,
        "expected strong compression, got {}",
        chunk.encoded_len()
    );
}

#[test]
fn chunk_refuses_a_timestamp_beyond_the_codec() {
    let mut chunk = GorillaChunk::new();
    assert!(chunk.can_push(1_000));
    // Any first timestamp is stored verbatim.
    assert!(chunk.can_push(u64::MAX));
    chunk.push(1_000, 0);
    assert!(chunk.can_push(2_000));
    // A backwards jump is fine as long as the delta-of-delta fits.
    assert!(chunk.can_push(500));
    // Read as `i64`, `u64::MAX` is -1: a small step back.
    assert!(chunk.can_push(u64::MAX));
    // A delta from 1000 to `i64::MIN` (read as `i64`) leaves the `i64` range.
    assert!(!chunk.can_push(1u64 << 63));
}

#[test]
fn timestamps_past_i64_round_trip() {
    let mut chunk = GorillaChunk::new();
    let samples = [(u64::MAX - 5, 1u64), (u64::MAX - 2, 2), (u64::MAX, 3), (1, 4)];
    for &(t, v) in &samples {
        assert!(chunk.can_push(t));
        chunk.push(t, v);
    }
    assert_eq!(chunk.samples(), samples.to_vec());
}

#[test]
fn deterministic_for_a_given_seed() {
    let mut a = Rng::new(42);
    let mut b = Rng::new(42);
    assert_eq!(a.next_u64(), b.next_u64());
    assert_eq!(a.bytes16(), b.bytes16());
}

#[test]
fn range_is_bounded() {
    let mut rng = Rng::new(99);
    for _ in 0..1_000 {
        let value = rng.range(10, 20);
        assert!((10..20).contains(&value));
    }
}

#[test]
fn splitmix_reference_value() {
    // SplitMix64 seeded with 0 yields this as its first output.
    let mut rng = Rng::new(0);
    assert_eq!(rng.next_u64(), 0xe220_a839_7b1d_cdaf);
    let mut empty = Rng::new(5);
    assert_eq!(empty.range(7, 7), 7);
}

fn splitmix_mix(state: u64) -> u64 {
    let mut z = state;
    z = (z ^ (z >> 30)).wrapping_mul(0xBF58_476D_1CE4_E5B9);
    z = (z ^ (z >> 27)).wrapping_mul(0x94D0_49BB_1331_11EB);
    z ^ (z >> 31)
}

#[test]
fn kth_draw_has_a_closed_form() {
    let seed = 0xDEAD_BEEF_u64;
    let mut rng = Rng::new(seed);
    for k in 1..=50u64 {
        let expected = splitmix_mix(seed.wrapping_add(k.wrapping_mul(0x9E37_79B9_7F4A_7C15)));
        assert_eq!(rng.next_u64(), expected);
    }
}

#[test]
fn bit_len_is_the_sum_of_counts_written() {
    let mut writer = BitWriter::new();
    assert_eq!(writer.bit_len(), 0);
    writer.write_bit(true);
    writer.write_bits(0xABC, 12);
    writer.write_bits(u64::MAX, 64);
    writer.write_bit(false);
    writer.write_bits(5, 3);
    assert_eq!(writer.bit_len(), 1 + 12 + 64 + 1 + 3);
    assert_eq!(writer.snapshot().len(), (writer.bit_len() + 7) / 8);
}

fn point(route: &str, status: &str, ts: u64, value: f64) -> MetricPoint {
    MetricPoint::new(
        "http_request_duration_ms",
        MetricKind::Gauge,
        Labels::new().with("route", route).with("status", status),
        Sample::new(Timestamp::from_unix_millis(ts), value.to_bits()),
    )
}

fn ingest(engine: &mut MemoryEngine, signal: Signal) {
    assert!(engine.accepts(&signal));
    engine.ingest(signal);
}

#[test]
fn metric_query_matches_labels_and_range() {
    let mut engine = MemoryEngine::new();
    ingest(&mut engine, point("/checkout", "200", 1_000, 100.0).into());
    ingest(&mut engine, point("/checkout", "200", 2_000, 120.0).into());
    ingest(&mut engine, point("/checkout", "500", 1_500, 900.0).into());

    let ok = engine.query_metrics(
        &Selector::new("http_request_duration_ms").with(Matcher::eq("status", "200")),
        TimeRange::all(),
    );
    assert_eq!(ok.len(), 1);
    assert_eq!(ok[0].samples.len(), 2);

    // a narrow range trims samples
    let narrow = engine.query_metrics(
        &Selector::new("http_request_duration_ms").with(Matcher::eq("status", "200")),
        TimeRange::new(
            Timestamp::from_unix_millis(1_500),
            Timestamp::from_unix_millis(2_500),
        ),
    );
    assert_eq!(narrow[0].samples.len(), 1);
}

#[test]
fn metric_query_reads_back_what_was_appended() {
    let mut store = MetricStore::new();
    let p = point("/pay", "200", 3_000, 12.5);
    assert!(store.accepts(&p));
    store.append(p);
    let q = point("/pay", "500", 4_000, 99.0);
    assert!(store.accepts(&q));
    store.append(q);
    assert_eq!(store.series_count(), 2);
    assert_eq!(store.sample_count(), 2);

    let not_ok = store.query(
        &Selector::new("http_request_duration_ms").with(Matcher::ne("status", "200")),
        TimeRange::all(),
    );
    assert_eq!(not_ok.len(), 1);
    assert_eq!(not_ok[0].metric, "http_request_duration_ms");
    assert_eq!(not_ok[0].kind, MetricKind::Gauge);
    assert_eq!(not_ok[0].labels.get("status"), Some("500"));
    assert_eq!(not_ok[0].samples.len(), 1);
    assert_eq!(not_ok[0].samples[0].timestamp, Timestamp::from_unix_millis(4_000));
    assert_eq!(f64::from_bits(not_ok[0].samples[0].value_bits), 99.0);

    let nothing = store.query(&Selector::new("no_such_metric"), TimeRange::all());
    assert!(nothing.is_empty());
    // Each series is stored as one 128-bit first sample: 16 bytes.
    assert_eq!(store.encoded_len(), 32);
}

#[test]
fn each_append_adds_one_sample_and_new_series_only_once() {
    let mut store = MetricStore::new();
    for (i, ts) in [1_000u64, 2_000, 3_000].iter().enumerate() {
        let p = point("/pay", "200", *ts, i as f64);
        assert!(store.accepts(&p));
        store.append(p);
        assert_eq!(store.sample_count(), i + 1);
        assert_eq!(store.series_count(), 1);
    }
    let q = point("/cart", "200", 3_500, 1.0);
    assert!(store.accepts(&q));
    store.append(q);
    assert_eq!(store.sample_count(), 4);
    assert_eq!(store.series_count(), 2);

    let pay = store.query(
        &Selector::new("http_request_duration_ms").with(Matcher::eq("route", "/pay")),
        TimeRange::new(Timestamp::from_unix_millis(2_000), Timestamp::from_unix_millis(3_000)),
    );
    assert_eq!(pay.len(), 1);
    assert_eq!(pay[0].samples.len(), 2);
    assert_eq!(pay[0].samples[1].timestamp, Timestamp::from_unix_millis(3_000));
    assert_eq!(f64::from_bits(pay[0].samples[1].value_bits), 2.0);
}

#[test]
fn index_intersects_and_subtracts() {
    let mut index = LabelIndex::new();
    let a = Labels::new().with("route", "/pay").with("status", "200");
    let b = Labels::new().with("route", "/pay").with("status", "500");
    let c = Labels::new().with("route", "/cart").with("status", "200");
    index.insert(a.series_id("m"), "m", &a);
    index.insert(b.series_id("m"), "m", &b);
    index.insert(c.series_id("m"), "m", &c);
    index.insert(a.series_id("m"), "m", &a);

    let all = index.select(&Selector::new("m"));
    assert_eq!(all.len(), 3);
    let pay_ok = index.select(
        &Selector::new("m")
            .with(Matcher::eq("route", "/pay"))
            .with(Matcher::ne("status", "500")),
    );
    assert_eq!(pay_ok, vec![a.series_id("m")]);
    let missing = index.select(&Selector::new("m").with(Matcher::eq("route", "/none")));
    assert!(missing.is_empty());
    assert!(index.select(&Selector::new("other")).is_empty());
}

fn span_at(trace_id: TraceId, span: u8, start: u64, end: u64) -> Span {
    Span {
        trace_id,
        span_id: SpanId::from_bytes([span; 8]),
        parent_span_id: None,
        name: "GET /checkout".to_owned(),
        kind: SpanKind::Server,
        start: Timestamp::from_unix_nanos(start),
        end: Timestamp::from_unix_nanos(end),
        status: SpanStatus::Okay,
        attributes: Attributes::new(),
        resource: Resource::service("api-gateway"),
    }
}

#[test]
fn trace_and_logs_correlate() {
    let mut engine = MemoryEngine::new();
    let trace_id = TraceId::from_bytes([9; 16]);
    let span_id = SpanId::from_bytes([1; 8]);

    ingest(&mut engine, span_at(trace_id, 1, 1_000, 5_000).into());
    ingest(
        &mut engine,
        LogRecord {
            timestamp: Timestamp::from_unix_nanos(2_000),
            severity: Severity::Info,
            body: "handled".to_owned(),
            attributes: Attributes::new(),
            resource: Resource::service("api-gateway"),
            trace_id: Some(trace_id),
            span_id: Some(span_id),
        }
        .into(),
    );

    assert_eq!(engine.trace(&trace_id).len(), 1);
    assert_eq!(engine.logs_for_trace(&trace_id).len(), 1);
    assert_eq!(
        engine.logs_for_trace(&TraceId::from_bytes([0; 16])).len(),
        0
    );

    let stats = engine.stats();
    assert_eq!(stats.spans, 1);
    assert_eq!(stats.logs, 1);
}

#[test]
fn trace_orders_spans_by_start_stably() {
    let mut engine = MemoryEngine::new();
    let t = TraceId::from_bytes([4; 16]);
    let other = TraceId::from_bytes([5; 16]);
    ingest(&mut engine, span_at(t, 1, 300, 400).into());
    ingest(&mut engine, span_at(other, 9, 50, 60).into());
    ingest(&mut engine, span_at(t, 2, 100, 200).into());
    ingest(&mut engine, span_at(t, 3, 300, 350).into());
    let spans = engine.trace(&t);
    let ids: Vec<SpanId> = spans.iter().map(|s| s.span_id).collect();
    assert_eq!(
        ids,
        vec![
            SpanId::from_bytes([2; 8]),
            SpanId::from_bytes([1; 8]),
            SpanId::from_bytes([3; 8])
        ]
    );
    let stats = engine.stats();
    assert_eq!(stats.traces, 2);
    assert_eq!(stats.spans, 4);
    assert_eq!(stats.series, 0);
}

#[test]
fn raw_bytes_count_sixteen_per_sample() {
    let stats = StorageStats { series: 1, samples: 10, spans: 0, traces: 0, logs: 0, metric_bytes: 20 };
    assert_eq!(stats.raw_metric_bytes(), 160);
}
