//! Metric samples and the points that carry them.

use vstd::prelude::*;
use crate::labels::{Labels, SeriesId, spec_series_id};
use crate::timestamp::Timestamp;

verus! {

/// The semantics of a metric, following the OpenTelemetry data model.
#[derive(Debug, Clone, Copy, PartialEq, Eq)]
pub enum MetricKind {
    /// A value that can rise and fall (e.g. temperature, queue depth).
    Gauge,
    /// A monotonically increasing cumulative total (e.g. requests served).
    Counter,
    /// A distribution, ingested as its component bucket/sum/count series.
    Histogram,
}

/// A single observation: a value at a point in time. The value is held as
/// the IEEE-754 bit pattern of the `f64` it stands for.
#[derive(Debug, Clone, Copy, PartialEq, Eq)]
pub struct Sample {
    pub timestamp: Timestamp,
    pub value_bits: u64,
}

impl Sample {
    pub fn new(timestamp: Timestamp, value_bits: u64) -> (s: Sample)
        ensures
            s.timestamp == timestamp,
            s.value_bits == value_bits,
    {
        Sample { timestamp, value_bits }
    }
}

/// A metric data point as it arrives on the wire: the metric name, the
/// labels that identify its series, and a single sample.
#[derive(Debug, PartialEq)]
pub struct MetricPoint {
    pub name: String,
    pub kind: MetricKind,
    pub labels: Labels,
    pub sample: Sample,
}

impl MetricPoint {
    pub fn new(name: &str, kind: MetricKind, labels: Labels, sample: Sample) -> (p: MetricPoint)
        ensures
            p.name@ == name@,
            p.kind == kind,
            p.labels == labels,
            p.sample == sample,
    {
        MetricPoint { name: name.to_owned(), kind, labels, sample }
    }

    /// The stable identity of the series this point belongs to.
    pub fn series_id(&self) -> (id: SeriesId)
        ensures
            id.0 == spec_series_id(self.name@, self.labels.entries()),
    {
        self.labels.series_id(self.name.as_str())
    }
}

impl Clone for MetricPoint {
    fn clone(&self) -> (p: MetricPoint)
        ensures
            p.name == self.name,
            p.kind == self.kind,
            p.labels.entries() == self.labels.entries(),
            p.labels@ == self.labels@,
            p.sample == self.sample,
    {
        MetricPoint {
            name: self.name.clone(),
            kind: self.kind,
            labels: self.labels.clone(),
            sample: self.sample,
        }
    }
}

} // verus!
