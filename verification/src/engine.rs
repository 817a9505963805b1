//! The in-memory engine: composes the metric, trace, and log stores.

use vstd::prelude::*;
use crate::log::{LogRecord, LogV};
use crate::logs::{LogStore, logs_of, records_view};
use crate::metric::MetricPoint;
use crate::metrics::{
    MetricStore, StoredSeries, after_append, is_selected, point_id, point_sample, reports,
    selected_series, total_bytes, total_samples,
};
use crate::series::{samples_in, stored_sample};
use crate::query::{Selector, SeriesResult, TimeRange};
use crate::signal::Signal;
use crate::stats::StorageStats;
use crate::traces::{
    TraceStore, lemma_sort_by_start, sort_by_start, spans_of, spans_view, starts_sorted, trace_ids,
};
use crate::trace::{Span, SpanV, TraceId};

verus! {

/// An all-in-memory store for metrics, spans and logs.
pub struct MemoryEngine {
    metrics: MetricStore,
    traces: TraceStore,
    logs: LogStore,
}

impl MemoryEngine {
    /// The stored metric series.
    pub closed spec fn metrics(&self) -> Seq<StoredSeries> {
        self.metrics@
    }

    /// Every span ingested, in order.
    pub closed spec fn spans(&self) -> Seq<SpanV> {
        self.traces@
    }

    /// Every log record ingested, in order.
    pub closed spec fn logs(&self) -> Seq<LogV> {
        self.logs@
    }

    /// The engine's invariant: that of each of its stores.
    pub closed spec fn wf(&self) -> bool {
        &&& self.metrics.wf()
        &&& self.traces.wf()
        &&& self.logs.wf()
    }

    /// Whether the engine can take `signal`: a metric point's series must
    /// have room for one more sample, and the number of logs must stay
    /// representable.
    pub closed spec fn can_ingest(&self, signal: Signal) -> bool {
        match signal {
            Signal::Metric(point) => self.metrics.can_take(point),
            Signal::Span(_) => true,
            Signal::Log(_) => self.logs@.len() < usize::MAX,
        }
    }

    pub fn new() -> (e: MemoryEngine)
        ensures
            e.wf(),
            e.metrics() == Seq::<StoredSeries>::empty(),
            e.spans() == Seq::<SpanV>::empty(),
            e.logs() == Seq::<LogV>::empty(),
    {
        MemoryEngine { metrics: MetricStore::new(), traces: TraceStore::new(), logs: LogStore::new() }
    }

    /// Whether the engine can take `signal`.
    pub fn accepts(&self, signal: &Signal) -> (b: bool)
        requires
            self.wf(),
        ensures
            b == self.can_ingest(*signal),
    {
        match signal {
            Signal::Metric(point) => self.metrics.accepts(point),
            Signal::Span(_) => true,
            Signal::Log(_) => self.logs.len() < usize::MAX,
        }
    }

    /// Route a signal to the appropriate store.
    pub fn ingest(&mut self, signal: Signal)
        requires
            old(self).wf(),
            old(self).can_ingest(signal),
        ensures
            final(self).wf(),
            final(self).metrics() == (match signal {
                Signal::Metric(point) => after_append(old(self).metrics(), point),
                _ => old(self).metrics(),
            }),
            final(self).spans() == (match signal {
                Signal::Span(span) => old(self).spans().push(span@),
                _ => old(self).spans(),
            }),
            final(self).logs() == (match signal {
                Signal::Log(record) => old(self).logs().push(record@),
                _ => old(self).logs(),
            }),
    {
        match signal {
            Signal::Metric(point) => self.metrics.append(point),
            Signal::Span(span) => self.traces.insert(span),
            Signal::Log(record) => self.logs.insert(record),
        }
    }

    /// Retrieve the metric series matching `selector`, each with its samples
    /// in `range`.
    pub fn query_metrics(&self, selector: &Selector, range: TimeRange) -> (out: Vec<SeriesResult>)
        requires
            self.wf(),
        ensures
            out@.len() == selected_series(self.metrics(), *selector).len(),
            forall|j: int|
                0 <= j < out@.len() ==> reports(
                    #[trigger] out@[j],
                    selected_series(self.metrics(), *selector)[j],
                    range,
                ),
    {
        self.metrics.query(selector, range)
    }

    /// The spans of a trace, ordered by start time.
    pub fn trace(&self, id: &TraceId) -> (out: Vec<Span>)
        requires
            self.wf(),
        ensures
            spans_view(out@) == sort_by_start(spans_of(self.spans(), id.0@)),
    {
        self.traces.trace(id)
    }

    /// Root spans (trace entry points) whose start falls within `range`.
    pub fn root_spans_in_range(&self, range: TimeRange) -> (out: Vec<Span>)
        requires
            self.wf(),
        ensures
            spans_view(out@) == crate::traces::roots_of_traces(
                self.spans(),
                trace_ids(self.spans()),
                range,
            ),
            forall|k: int|
                0 <= k < out@.len() ==> {
                    &&& (#[trigger] out@[k]).parent_span_id is None
                    &&& range.start.0 <= out@[k].start.0 <= range.end.0
                },
    {
        self.traces.root_spans_in_range(range)
    }

    /// The logs correlated to a trace, in the order they arrived.
    pub fn logs_for_trace(&self, id: &TraceId) -> (out: Vec<LogRecord>)
        requires
            self.wf(),
        ensures
            records_view(out@) == logs_of(self.logs(), id.0@),
    {
        self.logs.for_trace(id)
    }

    /// A snapshot of current contents and compression.
    pub fn stats(&self) -> (s: StorageStats)
        requires
            self.wf(),
            total_samples(self.metrics()) <= usize::MAX,
            total_bytes(self.metrics()) <= usize::MAX,
            forall|i: int|
                0 <= i < self.metrics().len() ==> crate::gorilla::chunk_bits(
                    #[trigger] self.metrics()[i].samples,
                ).len() <= usize::MAX,
            self.spans().len() <= usize::MAX,
        ensures
            s.series == self.metrics().len(),
            s.samples == total_samples(self.metrics()),
            s.spans == self.spans().len(),
            s.traces == trace_ids(self.spans()).len(),
            s.logs == self.logs().len(),
            s.metric_bytes == total_bytes(self.metrics()),
    {
        StorageStats {
            series: self.metrics.series_count(),
            samples: self.metrics.sample_count(),
            spans: self.traces.span_count(),
            traces: self.traces.trace_count(),
            logs: self.logs.len(),
            metric_bytes: self.metrics.encoded_len(),
        }
    }
}

/// A selected series is among those a query selects.
proof fn lemma_selected_contains(s: Seq<StoredSeries>, selector: Selector, i: int)
    requires
        0 <= i < s.len(),
        is_selected(s[i], selector),
    ensures
        selected_series(s, selector).contains(s[i]),
    decreases s.len(),
{
    if i < s.len() - 1 {
        lemma_selected_contains(s.drop_last(), selector, i);
        let r = selected_series(s.drop_last(), selector);
        let k = choose|k: int| 0 <= k < r.len() && r[k] == s[i];
        if is_selected(s.last(), selector) {
            assert(r.push(s.last())[k] == s[i]);
        }
    } else {
        let r = selected_series(s.drop_last(), selector);
        assert(r.push(s.last())[r.len() as int] == s[i]);
    }
}

/// What a metric query gives back of an append. After `point` is appended to
/// the series `s`, the series at the returned position carries the point's
/// id and ends with the point's sample, the series before it are unchanged,
/// and a query whose selector picks that series and whose range holds the
/// sample's time reports that series, with the sample as its last.
pub proof fn lemma_metric_read_back(
    s: Seq<StoredSeries>,
    point: MetricPoint,
    selector: Selector,
    range: TimeRange,
) -> (i: int)
    ensures
        0 <= i < after_append(s, point).len(),
        after_append(s, point).len() == s.len() || after_append(s, point).len() == s.len() + 1,
        after_append(s, point)[i].id == point_id(point),
        after_append(s, point)[i].samples.last() == point_sample(point),
        forall|j: int| 0 <= j < s.len() && j != i ==> #[trigger] after_append(s, point)[j] == s[j],
        is_selected(after_append(s, point)[i], selector) && range.spec_contains(
            stored_sample(point_sample(point)).timestamp,
        ) ==> {
            &&& selected_series(after_append(s, point), selector).contains(
                after_append(s, point)[i],
            )
            &&& samples_in(after_append(s, point)[i].samples, range).last() == stored_sample(
                point_sample(point),
            )
        },
{
    let a = after_append(s, point);
    let id = point_id(point);
    let i = if exists|i: int| 0 <= i < s.len() && #[trigger] s[i].id == id {
        choose|i: int| 0 <= i < s.len() && #[trigger] s[i].id == id
    } else {
        s.len() as int
    };
    let t = a[i].samples;
    assert(t.drop_last().push(t.last()) =~= t);
    if is_selected(a[i], selector) {
        lemma_selected_contains(a, selector, i);
    }
    i
}

/// What a trace read gives back of a span insert: the span joins the end of
/// its own trace, every other trace is unchanged, and the trace read sorted
/// by start time holds the span.
pub proof fn lemma_span_read_back(s: Seq<SpanV>, x: SpanV, id: Seq<u8>)
    ensures
        spans_of(s.push(x), x.trace_id) == spans_of(s, x.trace_id).push(x),
        id != x.trace_id ==> spans_of(s.push(x), id) == spans_of(s, id),
        starts_sorted(sort_by_start(spans_of(s.push(x), x.trace_id))),
        sort_by_start(spans_of(s.push(x), x.trace_id)).contains(x),
{
    let t = s.push(x);
    assert(t.drop_last() =~= s);
    let r = spans_of(t, x.trace_id);
    lemma_sort_by_start(r);
    broadcast use vstd::seq_lib::group_to_multiset_ensures;
    assert(r[r.len() - 1] == x);
    assert(r.contains(x));
    assert(r.to_multiset().count(x) > 0);
    assert(sort_by_start(r).to_multiset().count(x) > 0);
}

/// What a correlated-log read gives back of a log insert: the record joins
/// the end of the logs of its trace, and no other trace's logs change.
pub proof fn lemma_log_read_back(s: Seq<LogV>, r: LogV, id: Seq<u8>)
    ensures
        logs_of(s.push(r), id) == if r.trace_id == Some(id) {
            logs_of(s, id).push(r)
        } else {
            logs_of(s, id)
        },
{
    assert(s.push(r).drop_last() =~= s);
}

} // verus!
