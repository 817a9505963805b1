//! One simulated request's telemetry, grouped for correlation.

use vstd::prelude::*;
use crate::log::LogRecord;
use crate::metric::MetricPoint;
use crate::signal::Signal;
use crate::trace::{Span, SpanStatus, TraceId};

verus! {

/// All telemetry produced by one simulated request, grouped for correlation.
#[derive(Debug)]
pub struct RequestBatch {
    pub trace_id: TraceId,
    pub route: &'static str,
    /// Spans in the trace, root first.
    pub spans: Vec<Span>,
    pub metrics: Vec<MetricPoint>,
    pub logs: Vec<LogRecord>,
    pub failed: bool,
}

/// The signals a batch flattens into: its spans, then its metric points,
/// then its log records, each in order.
pub open spec fn batch_signals(
    spans: Seq<Span>,
    metrics: Seq<MetricPoint>,
    logs: Seq<LogRecord>,
) -> Seq<Signal> {
    spans.map_values(|s: Span| Signal::Span(s)) + metrics.map_values(
        |m: MetricPoint| Signal::Metric(m),
    ) + logs.map_values(|l: LogRecord| Signal::Log(l))
}

impl RequestBatch {
    /// The root (entry) span of the request.
    pub fn root(&self) -> (r: &Span)
        requires
            self.spans@.len() > 0,
        ensures
            *r == self.spans@[0],
    {
        &self.spans[0]
    }

    /// Flatten into the signal stream that an ingest source would emit.
    pub fn into_signals(self) -> (signals: Vec<Signal>)
        ensures
            signals@ == batch_signals(self.spans@, self.metrics@, self.logs@),
    {
        let ghost spans = self.spans@;
        let ghost metrics = self.metrics@;
        let ghost logs = self.logs@;
        let mut signals: Vec<Signal> = Vec::new();
        for s in it: self.spans.into_iter()
            invariant
                it.seq() == spans,
                signals@ == spans.take(it.index() as int).map_values(|s: Span| Signal::Span(s)),
        {
            proof {
                assert(spans.take(it.index() + 1).map_values(|s: Span| Signal::Span(s)) =~= spans.take(
                    it.index() as int,
                ).map_values(|s: Span| Signal::Span(s)).push(Signal::Span(s)));
            }
            signals.push(Signal::Span(s));
        }
        assert(spans.take(spans.len() as int) =~= spans);
        let ghost head = signals@;
        for m in it: self.metrics.into_iter()
            invariant
                it.seq() == metrics,
                signals@ == head + metrics.take(it.index() as int).map_values(
                    |m: MetricPoint| Signal::Metric(m),
                ),
        {
            proof {
                assert(metrics.take(it.index() + 1).map_values(|m: MetricPoint| Signal::Metric(m))
                    =~= metrics.take(it.index() as int).map_values(
                    |m: MetricPoint| Signal::Metric(m),
                ).push(Signal::Metric(m)));
            }
            signals.push(Signal::Metric(m));
        }
        assert(metrics.take(metrics.len() as int) =~= metrics);
        let ghost head2 = signals@;
        for l in it: self.logs.into_iter()
            invariant
                it.seq() == logs,
                signals@ == head2 + logs.take(it.index() as int).map_values(
                    |l: LogRecord| Signal::Log(l),
                ),
        {
            proof {
                assert(logs.take(it.index() + 1).map_values(|l: LogRecord| Signal::Log(l)) =~= logs.take(
                    it.index() as int,
                ).map_values(|l: LogRecord| Signal::Log(l)).push(Signal::Log(l)));
            }
            signals.push(Signal::Log(l));
        }
        assert(logs.take(logs.len() as int) =~= logs);
        signals
    }
}

/// Whether some span of `spans` ended in error.
pub open spec fn any_failed(spans: Seq<Span>) -> bool {
    exists|i: int| 0 <= i < spans.len() && #[trigger] spans[i].status == SpanStatus::Error
}

/// Settle a request's outcome from its spans: it failed exactly when some
/// span ended in error, and then its root (at `root`) is marked as failed
/// too. The other spans are left as they are.
pub fn mark_failure(spans: &mut Vec<Span>, root: usize) -> (failed: bool)
    requires
        root < old(spans)@.len(),
    ensures
        failed == any_failed(old(spans)@),
        final(spans)@ == if failed {
            old(spans)@.update(root as int, Span { status: SpanStatus::Error, ..old(spans)@[root as int] })
        } else {
            old(spans)@
        },
{
    let mut failed = false;
    let mut i: usize = 0;
    while i < spans.len()
        invariant
            i <= spans@.len(),
            failed == exists|j: int| 0 <= j < i && #[trigger] spans@[j].status == SpanStatus::Error,
        decreases spans@.len() - i,
    {
        match spans[i].status {
            SpanStatus::Error => {
                failed = true;
            },
            _ => {},
        }
        i = i + 1;
    }
    if failed {
        let mut r = spans.remove(root);
        r.status = SpanStatus::Error;
        spans.insert(root, r);
        assert(spans@ =~= old(spans)@.update(
            root as int,
            Span { status: SpanStatus::Error, ..old(spans)@[root as int] },
        ));
    }
    failed
}

} // verus!
