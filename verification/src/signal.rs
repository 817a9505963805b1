//! The unified telemetry envelope that flows through the ingest pipeline.

use vstd::prelude::*;
use crate::log::LogRecord;
use crate::metric::MetricPoint;
use crate::trace::Span;

verus! {

/// Any single piece of telemetry: a metric point, a span, or a log record.
///
/// Ingest sources produce a stream of `Signal`s; the storage engine routes
/// each variant to the appropriate store.
#[derive(Debug, PartialEq)]
pub enum Signal {
    Metric(MetricPoint),
    Span(Span),
    Log(LogRecord),
}

impl Signal {
    /// A short, stable label for the signal kind.
    pub fn kind(&self) -> (k: &'static str)
        ensures
            k@ == (match self {
                Signal::Metric(_) => "metric"@,
                Signal::Span(_) => "span"@,
                Signal::Log(_) => "log"@,
            }),
    {
        match self {
            Signal::Metric(_) => "metric",
            Signal::Span(_) => "span",
            Signal::Log(_) => "log",
        }
    }
}

impl From<MetricPoint> for Signal {
    fn from(point: MetricPoint) -> (s: Signal) {
        Signal::Metric(point)
    }
}

impl vstd::std_specs::convert::FromSpecImpl<MetricPoint> for Signal {
    open spec fn obeys_from_spec() -> bool {
        true
    }

    open spec fn from_spec(point: MetricPoint) -> Signal {
        Signal::Metric(point)
    }
}

impl From<Span> for Signal {
    fn from(span: Span) -> (s: Signal) {
        Signal::Span(span)
    }
}

impl vstd::std_specs::convert::FromSpecImpl<Span> for Signal {
    open spec fn obeys_from_spec() -> bool {
        true
    }

    open spec fn from_spec(span: Span) -> Signal {
        Signal::Span(span)
    }
}

impl From<LogRecord> for Signal {
    fn from(record: LogRecord) -> (s: Signal) {
        Signal::Log(record)
    }
}

impl vstd::std_specs::convert::FromSpecImpl<LogRecord> for Signal {
    open spec fn obeys_from_spec() -> bool {
        true
    }

    open spec fn from_spec(record: LogRecord) -> Signal {
        Signal::Log(record)
    }
}

} // verus!
